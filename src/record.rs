//! The framing of a capture trace: its global header and the header in
//! front of each record, with the capture clock brought to local time.

use vstd::prelude::*;
use crate::quote::{QuotePackets, QuoteView, day_micros};

verus! {

/// Hours that local time is ahead of UTC.
pub const UTC_OFFSET_HOURS: u32 = 9;

/// The magic number, as read little-endian, of a trace whose timestamps
/// count microseconds.
pub const MICROSECOND_MAGIC: u32 = 0xa1b2_c3d4;

/// Bits of the link-type field that name the link type.
pub const LINK_TYPE_MASK: u32 = 0x0FFF_FFFF;

/// The fields of the trace header that a reader reports.
#[derive(Debug, Clone, Copy, PartialEq, Eq, Structural)]
pub struct PcapHeader {
    pub magic_number: u32,
    pub snap_len: u32,
    /// The link type, with the flag bits above it cleared.
    pub link_type: u32,
}

/// What stops a whole trace.
#[derive(Debug, Clone, Copy, PartialEq, Eq, Structural)]
pub enum TraceError {
    /// The trace header is shorter than its fixed length.
    TruncatedHeader,
    /// A record's captured length differs from its original length.
    LengthMismatch,
    /// A record's payload runs past the end of the trace.
    TruncatedPayload,
}

impl PcapHeader {
    /// Whether record timestamps count microseconds within the second, as
    /// the capture clock conversion takes them to.
    pub fn is_microsecond_resolution(&self) -> (r: bool)
        ensures
            r == (self.magic_number == MICROSECOND_MAGIC),
    {
        self.magic_number == MICROSECOND_MAGIC
    }
}

/// The little-endian `u32` at `at`.
pub open spec fn le_u32(b: Seq<u8>, at: int) -> u32 {
    (b[at] + 256 * b[at + 1] + 65536 * b[at + 2] + 16777216 * b[at + 3]) as u32
}

/// Reads the little-endian `u32` at `at`.
pub fn read_le_u32(b: &[u8], at: usize) -> (r: u32)
    requires
        at + 4 <= b@.len(),
    ensures
        r == le_u32(b@, at as int),
{
    b[at] as u32 + 256 * (b[at + 1] as u32) + 65536 * (b[at + 2] as u32) + 16777216 * (
    b[at + 3] as u32)
}

/// Reads the fields of the trace header.
pub fn parse_pcap_header(header_bytes: &[u8]) -> (r: PcapHeader)
    requires
        header_bytes@.len() >= crate::layout::TRACE_HEADER_LEN,
    ensures
        r.magic_number == le_u32(header_bytes@, 0),
        r.snap_len == le_u32(header_bytes@, 16),
        r.link_type == le_u32(header_bytes@, 20) & LINK_TYPE_MASK,
{
    PcapHeader {
        magic_number: read_le_u32(header_bytes, 0),
        snap_len: read_le_u32(header_bytes, 16),
        link_type: read_le_u32(header_bytes, 20) & LINK_TYPE_MASK,
    }
}

/// Seconds since the epoch, from a record header.
pub open spec fn capture_epoch_seconds(h: Seq<u8>) -> u32 {
    le_u32(h, 0)
}

/// Microseconds within the second, from a record header.
pub open spec fn capture_subsecond(h: Seq<u8>) -> u32 {
    le_u32(h, 4)
}

/// Bytes of the record that the trace holds.
pub open spec fn captured_len(h: Seq<u8>) -> u32 {
    le_u32(h, 8)
}

/// Bytes of the packet on the wire.
pub open spec fn original_len(h: Seq<u8>) -> u32 {
    le_u32(h, 12)
}

/// Local hour of the day of `secs` seconds since the epoch.
pub open spec fn local_hours(secs: int) -> int {
    ((secs % 86400) / 3600 + UTC_OFFSET_HOURS) % 24
}

pub open spec fn local_minutes(secs: int) -> int {
    (secs % 3600) / 60
}

pub open spec fn local_seconds(secs: int) -> int {
    secs % 60
}

/// `q` with the capture time of record header `h`.
pub open spec fn with_capture(q: QuoteView, h: Seq<u8>) -> QuoteView {
    let secs = capture_epoch_seconds(h) as int;
    let sub = capture_subsecond(h);
    QuoteView {
        capture_hours: local_hours(secs) as u8,
        capture_minutes: local_minutes(secs) as u8,
        capture_seconds: local_seconds(secs) as u8,
        capture_subsecond: sub,
        capture_micros: day_micros(
            local_hours(secs),
            local_minutes(secs),
            local_seconds(secs),
            sub as int,
        ) as u64,
        ..q
    }
}

/// What a record header says of the payload that follows it: its length,
/// or that the trace is corrupt.
pub open spec fn record_len(h: Seq<u8>) -> Result<usize, TraceError> {
    if captured_len(h) == original_len(h) {
        Ok(captured_len(h) as usize)
    } else {
        Err(TraceError::LengthMismatch)
    }
}

/// Sets the capture time of `quote_packet` from a record header and returns
/// the length of the payload that follows.
pub fn parse_packet_header(packet_header_bytes: &[u8], quote_packet: &mut QuotePackets) -> (r:
    Result<usize, TraceError>)
    requires
        packet_header_bytes@.len() >= crate::layout::RECORD_HEADER_LEN,
    ensures
        r == record_len(packet_header_bytes@),
        final(quote_packet)@ == with_capture(old(quote_packet)@, packet_header_bytes@),
{
    let time_stamp_seconds_total = read_le_u32(packet_header_bytes, 0);
    let microseconds = read_le_u32(packet_header_bytes, 4);
    let hours = ((time_stamp_seconds_total % 86400) / 3600 + UTC_OFFSET_HOURS) % 24;
    let minutes = (time_stamp_seconds_total % 3600) / 60;
    let seconds = time_stamp_seconds_total % 60;
    quote_packet.pkt_time_hours = hours as u8;
    quote_packet.pkt_time_minutes = minutes as u8;
    quote_packet.pkt_time_seconds = seconds as u8;
    quote_packet.pkt_time_microseconds = microseconds;
    quote_packet.pkt_time_microseconds_total = hours as u64 * 3_600_000_000 + minutes as u64
        * 60_000_000 + seconds as u64 * 1_000_000 + microseconds as u64;

    let captured_packet_length = read_le_u32(packet_header_bytes, 8);
    let original_packet_length = read_le_u32(packet_header_bytes, 12);
    if captured_packet_length != original_packet_length {
        return Err(TraceError::LengthMismatch);
    }
    Ok(captured_packet_length as usize)
}

} // verus!
