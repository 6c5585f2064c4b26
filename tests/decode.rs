use parse_quote::args::{parse_args, ArgsError, UserArgs};
use parse_quote::emit::format_quote;
use parse_quote::quote::{parse_packet_contents, DecodeError, QuotePackets};
use parse_quote::record::{parse_packet_header, parse_pcap_header, TraceError};
use parse_quote::reorder::ReorderBuffer;
use parse_quote::text::{decimal_bytes, parse_two_digits, push_zero_padded};
use parse_quote::trace::{decode_records, decode_trace};

/// Seconds since the epoch of a UTC midnight: 09:00:00 local time.
const MIDNIGHT_UTC: u32 = 1_296_000_000;

const PAYLOAD_LEN: usize = 257;

fn payload_with(marker: &[u8], issue: &str, accept: &str) -> Vec<u8> {
    let mut p = vec![0u8; PAYLOAD_LEN];
    p[42..47].copy_from_slice(marker);
    p[47..59].copy_from_slice(issue.as_bytes());
    for i in 0..5 {
        let bid = 42 + 29 + 12 * i;
        p[bid..bid + 5].copy_from_slice(format!("{:05}", 100 + i).as_bytes());
        p[bid + 5..bid + 12].copy_from_slice(format!("{:07}", 10 + i).as_bytes());
        let ask = 42 + 96 + 12 * i;
        p[ask..ask + 5].copy_from_slice(format!("{:05}", 200 + i).as_bytes());
        p[ask + 5..ask + 12].copy_from_slice(format!("{:07}", 20 + i).as_bytes());
    }
    p[PAYLOAD_LEN - 9..PAYLOAD_LEN - 1].copy_from_slice(accept.as_bytes());
    p[PAYLOAD_LEN - 1] = 0xff;
    p
}

fn payload(issue: &str, accept: &str) -> Vec<u8> {
    payload_with(b"B6034", issue, accept)
}

fn header(secs: u32, usec: u32, captured: u32, original: u32) -> Vec<u8> {
    let mut h = Vec::new();
    h.extend_from_slice(&secs.to_le_bytes());
    h.extend_from_slice(&usec.to_le_bytes());
    h.extend_from_slice(&captured.to_le_bytes());
    h.extend_from_slice(&original.to_le_bytes());
    h
}

fn record(secs: u32, usec: u32, payload: &[u8]) -> Vec<u8> {
    let mut r = header(secs, usec, payload.len() as u32, payload.len() as u32);
    r.extend_from_slice(payload);
    r
}

fn issues(quotes: &[QuotePackets]) -> Vec<String> {
    quotes.iter().map(|q| String::from_utf8(q.issue_code.clone()).unwrap()).collect()
}

fn line(q: &QuotePackets) -> String {
    String::from_utf8(format_quote(q)).unwrap()
}

fn quote_at(capture_micros: u64, accept_micros: u64, tag: &str) -> QuotePackets {
    let mut q = QuotePackets::new();
    q.pkt_time_microseconds_total = capture_micros;
    q.accept_time_microseconds_total = accept_micros;
    q.issue_code = tag.as_bytes().to_vec();
    q
}

#[test]
fn two_digit_fields() {
    assert_eq!(parse_two_digits(b"x42", 1), Some(42));
    assert_eq!(parse_two_digits(b"07", 0), Some(7));
    assert_eq!(parse_two_digits(b"4a", 0), None);
    assert_eq!(parse_two_digits(b"+5", 0), None);
}

#[test]
fn zero_padded_numbers() {
    assert_eq!(decimal_bytes(0), b"0".to_vec());
    assert_eq!(decimal_bytes(1234567), b"1234567".to_vec());
    let mut out = b"t=".to_vec();
    push_zero_padded(&mut out, 42, 6);
    assert_eq!(out, b"t=000042".to_vec());
    let mut wide = Vec::new();
    push_zero_padded(&mut wide, 1234567, 6);
    assert_eq!(wide, b"1234567".to_vec());
}

#[test]
fn trace_header_fields() {
    let mut h = vec![0u8; 24];
    h[0..4].copy_from_slice(&0xa1b2c3d4u32.to_le_bytes());
    h[16..20].copy_from_slice(&65535u32.to_le_bytes());
    h[20..24].copy_from_slice(&0xf000_0001u32.to_le_bytes());
    let p = parse_pcap_header(&h);
    assert_eq!(p.magic_number, 0xa1b2c3d4);
    assert_eq!(p.snap_len, 65535);
    assert_eq!(p.link_type, 1);
    assert!(p.is_microsecond_resolution());
    h[0..4].copy_from_slice(&0xa1b23c4du32.to_le_bytes());
    assert!(!parse_pcap_header(&h).is_microsecond_resolution());
}

#[test]
fn capture_time_in_local_time() {
    let mut q = QuotePackets::new();
    let h = header(MIDNIGHT_UTC + 3 * 3600 + 25 * 60 + 7, 123456, 300, 300);
    assert_eq!(parse_packet_header(&h, &mut q), Ok(300));
    assert_eq!((q.pkt_time_hours, q.pkt_time_minutes, q.pkt_time_seconds), (12, 25, 7));
    assert_eq!(q.pkt_time_microseconds, 123456);
    assert_eq!(q.pkt_time_microseconds_total, 12 * 3_600_000_000 + 25 * 60_000_000 + 7_000_000 + 123456);
}

#[test]
fn capture_hour_wraps_past_midnight() {
    let mut q = QuotePackets::new();
    let h = header(MIDNIGHT_UTC + 20 * 3600, 5, 60, 60);
    assert_eq!(parse_packet_header(&h, &mut q), Ok(60));
    assert_eq!(q.pkt_time_hours, 5);
    assert_eq!(q.pkt_time_microseconds_total, 5 * 3_600_000_000 + 5);
}

#[test]
fn length_mismatch_in_header() {
    let mut q = QuotePackets::new();
    let h = header(MIDNIGHT_UTC, 0, 300, 301);
    assert_eq!(parse_packet_header(&h, &mut q), Err(TraceError::LengthMismatch));
}

#[test]
fn payload_fields_decoded() {
    let p = payload("KR4101F30009", "09301245");
    let mut q = QuotePackets::new();
    assert_eq!(parse_packet_contents(&p, p.len(), &mut q), Ok(()));
    assert_eq!(q.issue_code, b"KR4101F30009".to_vec());
    assert_eq!(q.bid_price[0], b"00100".to_vec());
    assert_eq!(q.bid_qty[4], b"0000014".to_vec());
    assert_eq!(q.ask_price[2], b"00202".to_vec());
    assert_eq!(q.ask_qty[0], b"0000020".to_vec());
    assert_eq!((q.accept_time_hours, q.accept_time_minutes, q.accept_time_seconds), (9, 30, 12));
    assert_eq!(q.accept_time_microseconds, 45);
    assert_eq!(q.accept_time_microseconds_total, 9 * 3_600_000_000 + 30 * 60_000_000 + 12_000_000 + 45);
    assert!(q.has_full_fields());
}

#[test]
fn payload_without_room_for_marker() {
    let p = vec![0u8; 46];
    let mut q = QuotePackets::new();
    assert_eq!(parse_packet_contents(&p, p.len(), &mut q), Err(DecodeError::NoQuoteType));
}

#[test]
fn payload_with_other_marker_left_untouched() {
    let p = payload_with(b"B6035", "KR4101F30009", "09000000");
    let mut q = QuotePackets::new();
    q.pkt_time_hours = 11;
    assert_eq!(parse_packet_contents(&p, p.len(), &mut q), Err(DecodeError::WrongQuoteType));
    assert_eq!(q.pkt_time_hours, 11);
    assert_eq!(q.issue_code, vec![0u8; 12]);
}

#[test]
fn payload_too_short_for_levels() {
    let p = payload("KR4101F30009", "09000000");
    let mut q = QuotePackets::new();
    assert_eq!(parse_packet_contents(&p[..197], 197, &mut q), Err(DecodeError::Truncated));
    assert_eq!(parse_packet_contents(&p[..100], 101, &mut q), Err(DecodeError::Truncated));
    assert_eq!(q.issue_code, vec![0u8; 12]);
}

#[test]
fn payload_with_non_digit_level() {
    let mut p = payload("KR4101F30009", "09000000");
    p[42 + 29] = b'A';
    let mut q = QuotePackets::new();
    assert_eq!(parse_packet_contents(&p, p.len(), &mut q), Err(DecodeError::NonNumericLevel));
    assert_eq!(q.bid_price[0], vec![0u8; 5]);

    let mut p = payload("KR4101F30009", "09000000");
    p[42 + 96 + 4 * 12 + 11] = b' ';
    assert_eq!(parse_packet_contents(&p, p.len(), &mut q), Err(DecodeError::NonNumericLevel));
}

#[test]
fn new_quote_is_zero_filled() {
    let q = QuotePackets::new();
    assert_eq!(q.pkt_time_microseconds_total, 0);
    assert_eq!(q.accept_time_microseconds_total, 0);
    assert_eq!(q.issue_code, vec![0u8; 12]);
    for i in 0..5 {
        assert_eq!(q.bid_price[i], vec![0u8; 5]);
        assert_eq!(q.bid_qty[i], vec![0u8; 7]);
        assert_eq!(q.ask_price[i], vec![0u8; 5]);
        assert_eq!(q.ask_qty[i], vec![0u8; 7]);
    }
    assert!(q.has_full_fields());
    let line = format_quote(&q);
    assert!(line.starts_with(b"00:00:00:000000 00:00:00:00 "));
    assert_eq!(line.len(), 28 + 12 + 10 * 14);
}

#[test]
fn payload_with_bad_accept_time() {
    let p = payload("KR4101F30009", "09x00000");
    let mut q = QuotePackets::new();
    assert_eq!(parse_packet_contents(&p, p.len(), &mut q), Err(DecodeError::BadAcceptTime));
    assert_eq!(q.issue_code, vec![0u8; 12]);
}

#[test]
fn line_carries_payload_bytes() {
    let mut trace = Vec::new();
    trace.extend(record(MIDNIGHT_UTC + 61, 7, &payload("KR4101F30009", "09000105")));
    let out = decode_records(&trace, false);
    assert_eq!(out.error, None);
    assert_eq!(out.quotes.len(), 1);
    assert_eq!(
        line(&out.quotes[0]),
        "09:01:01:000007 09:00:01:05 KR4101F30009 \
         00104@0000014 00103@0000013 00102@0000012 00101@0000011 00100@0000010 \
         00200@0000020 00201@0000021 00202@0000022 00203@0000023 00204@0000024"
    );
}

#[test]
fn unmarked_record_skipped() {
    let mut trace = Vec::new();
    trace.extend(record(MIDNIGHT_UTC, 0, &payload_with(b"A3034", "KR0000000001", "09000000")));
    trace.extend(record(MIDNIGHT_UTC, 1, &payload("KR0000000002", "09000000")));
    for reorder in [false, true] {
        let out = decode_records(&trace, reorder);
        assert_eq!(out.error, None);
        assert_eq!(issues(&out.quotes), vec!["KR0000000002"]);
    }
}

#[test]
fn length_mismatch_ends_trace() {
    let mut trace = Vec::new();
    trace.extend(record(MIDNIGHT_UTC, 0, &payload("KR0000000001", "09000000")));
    let p = payload("KR0000000002", "09000000");
    trace.extend(header(MIDNIGHT_UTC, 1, p.len() as u32, p.len() as u32 + 1));
    trace.extend(p);
    trace.extend(record(MIDNIGHT_UTC, 2, &payload("KR0000000003", "09000000")));
    let plain = decode_records(&trace, false);
    assert_eq!(plain.error, Some(TraceError::LengthMismatch));
    assert_eq!(issues(&plain.quotes), vec!["KR0000000001"]);
    let reordered = decode_records(&trace, true);
    assert_eq!(reordered.error, Some(TraceError::LengthMismatch));
    assert!(reordered.quotes.is_empty());
}

#[test]
fn payload_past_end_of_trace() {
    let mut trace = record(MIDNIGHT_UTC, 0, &payload("KR0000000001", "09000000"));
    let p = payload("KR0000000002", "09000000");
    trace.extend(header(MIDNIGHT_UTC, 1, p.len() as u32, p.len() as u32));
    trace.extend(&p[..100]);
    let out = decode_records(&trace, false);
    assert_eq!(out.error, Some(TraceError::TruncatedPayload));
    assert_eq!(issues(&out.quotes), vec!["KR0000000001"]);
}

#[test]
fn partial_record_header_ends_trace() {
    let mut trace = record(MIDNIGHT_UTC, 0, &payload("KR0000000001", "09000000"));
    trace.extend([1u8, 2, 3]);
    let out = decode_records(&trace, true);
    assert_eq!(out.error, None);
    assert_eq!(issues(&out.quotes), vec!["KR0000000001"]);
}

#[test]
fn whole_trace_with_header() {
    let mut trace = vec![0u8; 24];
    trace.extend(record(MIDNIGHT_UTC, 0, &payload("KR0000000001", "09000000")));
    let out = decode_trace(&trace, false);
    assert_eq!(out.error, None);
    assert_eq!(issues(&out.quotes), vec!["KR0000000001"]);
    let short = decode_trace(&trace[..10], false);
    assert_eq!(short.error, Some(TraceError::TruncatedHeader));
    assert!(short.quotes.is_empty());
    let empty = decode_trace(&[], true);
    assert_eq!(empty.error, Some(TraceError::TruncatedHeader));
}

#[test]
fn empty_record_stream() {
    let out = decode_records(&[], true);
    assert_eq!(out.error, None);
    assert!(out.quotes.is_empty());
}

#[test]
fn capture_order_without_reordering() {
    let accepts = ["09000050", "09000010", "09000090", "09000030", "09000070"];
    let mut trace = Vec::new();
    for (i, a) in accepts.iter().enumerate() {
        trace.extend(record(MIDNIGHT_UTC, i as u32, &payload(&format!("KR000000000{}", i), a)));
    }
    let out = decode_records(&trace, false);
    assert_eq!(out.error, None);
    assert_eq!(
        issues(&out.quotes),
        vec!["KR0000000000", "KR0000000001", "KR0000000002", "KR0000000003", "KR0000000004"]
    );
}

#[test]
fn accept_order_with_reordering() {
    let mut trace = Vec::new();
    trace.extend(record(MIDNIGHT_UTC, 100, &payload("KR00000000T2", "09000020")));
    trace.extend(record(MIDNIGHT_UTC, 200, &payload("KR00000000T1", "09000010")));
    trace.extend(record(MIDNIGHT_UTC, 300, &payload("KR00000000T3", "09000030")));
    let out = decode_records(&trace, true);
    assert_eq!(issues(&out.quotes), vec!["KR00000000T1", "KR00000000T2", "KR00000000T3"]);

    trace.extend(record(MIDNIGHT_UTC + 10, 0, &payload("KR00000000T4", "09001000")));
    let out = decode_records(&trace, true);
    assert_eq!(out.error, None);
    assert_eq!(
        issues(&out.quotes),
        vec!["KR00000000T1", "KR00000000T2", "KR00000000T3", "KR00000000T4"]
    );
}

#[test]
fn eviction_on_fourth_quote() {
    let nine = 9 * 3_600_000_000u64;
    let mut buffer = ReorderBuffer::new();
    assert!(buffer.push(quote_at(nine + 100, nine + 20, "T2")).is_empty());
    assert!(buffer.push(quote_at(nine + 200, nine + 10, "T1")).is_empty());
    assert!(buffer.push(quote_at(nine + 300, nine + 30, "T3")).is_empty());
    let out = buffer.push(quote_at(nine + 10_000_000, nine + 10_000_000, "T4"));
    assert_eq!(issues(&out), vec!["T1", "T2", "T3"]);
    assert_eq!(buffer.len(), 1);
    assert_eq!(issues(&buffer.flush()), vec!["T4"]);
    assert_eq!(buffer.len(), 0);
}

#[test]
fn equal_accept_times_keep_decode_order() {
    let mut trace = Vec::new();
    trace.extend(record(MIDNIGHT_UTC, 0, &payload("KR000000000A", "09000010")));
    trace.extend(record(MIDNIGHT_UTC, 1, &payload("KR000000000B", "09000010")));
    let out = decode_records(&trace, true);
    assert_eq!(issues(&out.quotes), vec!["KR000000000A", "KR000000000B"]);

    let mut buffer = ReorderBuffer::new();
    assert!(buffer.push(quote_at(0, 5, "A")).is_empty());
    assert!(buffer.push(quote_at(1, 5, "B")).is_empty());
    assert!(buffer.push(quote_at(2, 5, "C")).is_empty());
    assert_eq!(issues(&buffer.flush()), vec!["A", "B", "C"]);
}

#[test]
fn delay_bound_is_strict() {
    let mut at_bound = ReorderBuffer::new();
    assert!(at_bound.push(quote_at(1_000_000, 500, "old")).is_empty());
    assert!(at_bound.push(quote_at(9_000_000, 4_000_000, "new")).is_empty());
    assert_eq!(at_bound.len(), 2);

    let mut past_bound = ReorderBuffer::new();
    assert!(past_bound.push(quote_at(1_000_000, 500, "old")).is_empty());
    let out = past_bound.push(quote_at(9_000_000, 4_000_001, "new"));
    assert_eq!(issues(&out), vec!["old"]);
    assert_eq!(past_bound.len(), 1);
}

#[test]
fn capture_later_than_accept_never_evicts() {
    let mut buffer = ReorderBuffer::new();
    assert!(buffer.push(quote_at(50_000_000, 10, "a")).is_empty());
    assert!(buffer.push(quote_at(60_000_000, 20, "b")).is_empty());
    assert_eq!(buffer.len(), 2);
}

#[test]
fn new_quote_alone_can_leave_at_once() {
    let mut buffer = ReorderBuffer::new();
    let out = buffer.push(quote_at(0, 3_000_001, "x"));
    assert_eq!(issues(&out), vec!["x"]);
    assert_eq!(buffer.len(), 0);
}

#[test]
fn flush_oldest_accept_first() {
    let mut buffer = ReorderBuffer::new();
    for (accept, tag) in [(30, "c"), (10, "a"), (50, "e"), (20, "b"), (40, "d")] {
        assert!(buffer.push(quote_at(1_000_000_000, accept, tag)).is_empty());
    }
    assert_eq!(buffer.len(), 5);
    assert_eq!(issues(&buffer.flush()), vec!["a", "b", "c", "d", "e"]);
    assert!(buffer.flush().is_empty());
}

#[test]
fn reordering_keeps_every_quote() {
    let accepts = ["09000050", "09000010", "09000090", "09000030", "09000070", "09000010"];
    let mut trace = Vec::new();
    for (i, a) in accepts.iter().enumerate() {
        trace.extend(record(MIDNIGHT_UTC, i as u32, &payload(&format!("KR000000000{}", i), a)));
    }
    let out = decode_records(&trace, true);
    assert_eq!(out.error, None);
    assert_eq!(
        issues(&out.quotes),
        vec!["KR0000000001", "KR0000000005", "KR0000000003", "KR0000000000", "KR0000000004", "KR0000000002"]
    );
}

#[test]
fn new_args_are_empty() {
    let a = UserArgs::new();
    assert!(!a.reorder);
    assert!(a.in_path.is_empty());
}

#[test]
fn args_reorder_and_path() {
    let mut a = UserArgs::new();
    let args = vec!["-r".to_string(), "trace.pcap".to_string()];
    assert_eq!(parse_args(&mut a, &args), Ok(false));
    assert!(a.reorder);
    assert_eq!(a.in_path, "trace.pcap");

    let mut b = UserArgs::new();
    assert_eq!(parse_args(&mut b, &vec!["trace.pcap".to_string(), "--reorder".to_string()]), Ok(false));
    assert!(b.reorder);
    assert_eq!(b.in_path, "trace.pcap");
}

#[test]
fn args_help_and_count() {
    let mut a = UserArgs::new();
    assert_eq!(parse_args(&mut a, &vec!["--help".to_string()]), Ok(true));
    assert!(!a.reorder);
    assert!(a.in_path.is_empty());
    assert_eq!(parse_args(&mut a, &vec![]), Err(ArgsError::WrongCount));
    let three = vec!["-r".to_string(), "a".to_string(), "b".to_string()];
    assert_eq!(parse_args(&mut a, &three), Err(ArgsError::WrongCount));
    assert!(a.in_path.is_empty());
}
