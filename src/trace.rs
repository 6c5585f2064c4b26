//! Decoding a whole trace: records in capture order, through the reordering
//! buffer when it is enabled.

use vstd::prelude::*;
use vstd::slice::slice_subrange;
use crate::layout::{RECORD_HEADER_LEN, TRACE_HEADER_LEN};
use crate::quote::{
    QuotePackets, QuoteView, empty_quote, parse_packet_contents, payload_error, quotes_view,
    with_payload,
};
use crate::record::{TraceError, parse_packet_header, record_len, with_capture};
use crate::reorder::{ReorderBuffer, ascending, feed_all, reorder_all};

verus! {

/// The quote that a record with header `h` and payload `p` carries, where
/// `payload_error(p)` is `None`.
pub open spec fn record_quote(h: Seq<u8>, p: Seq<u8>) -> QuoteView {
    with_payload(with_capture(empty_quote(), h), p)
}

/// The records of `b` from offset `pos` on: the quotes decoded, in capture
/// order, and the error that stopped the trace, if any.  A record whose
/// payload holds no quote is skipped; fewer bytes than a record header ends
/// the trace.
pub open spec fn frames(b: Seq<u8>, pos: int) -> (Seq<QuoteView>, Option<TraceError>)
    decreases b.len() - pos,
{
    if pos < 0 || pos + RECORD_HEADER_LEN > b.len() {
        (Seq::empty(), None)
    } else {
        let h = b.subrange(pos, pos + RECORD_HEADER_LEN);
        match record_len(h) {
            Err(e) => (Seq::empty(), Some(e)),
            Ok(n) => {
                let end = pos + RECORD_HEADER_LEN + n;
                if end > b.len() {
                    (Seq::empty(), Some(TraceError::TruncatedPayload))
                } else {
                    let p = b.subrange(pos + RECORD_HEADER_LEN, end);
                    let rest = frames(b, end);
                    if payload_error(p) is None {
                        (seq![record_quote(h, p)] + rest.0, rest.1)
                    } else {
                        rest
                    }
                }
            },
        }
    }
}

/// What is emitted for decoded quotes `qs`: all of them in decode order
/// without reordering; with it, what the buffer lets out, and the final
/// flush only where the trace ended without error.
pub open spec fn emitted(qs: Seq<QuoteView>, reorder: bool, finished: bool) -> Seq<QuoteView> {
    if !reorder {
        qs
    } else if finished {
        reorder_all(qs)
    } else {
        feed_all(qs).1
    }
}

/// The quotes emitted for the records `b`, and the error that stopped them.
pub open spec fn decode_outcome(b: Seq<u8>, reorder: bool) -> (Seq<QuoteView>, Option<TraceError>) {
    let f = frames(b, 0);
    (emitted(f.0, reorder, f.1 is None), f.1)
}

/// `b` from `pos` on is a sequence of whole records, each with matching
/// captured and original lengths.
pub open spec fn whole_records(b: Seq<u8>, pos: int) -> bool
    decreases b.len() - pos,
{
    if pos == b.len() {
        true
    } else if pos < 0 || pos + RECORD_HEADER_LEN > b.len() {
        false
    } else {
        match record_len(b.subrange(pos, pos + RECORD_HEADER_LEN)) {
            Err(_) => false,
            Ok(n) => pos + RECORD_HEADER_LEN + n <= b.len() && whole_records(
                b,
                pos + RECORD_HEADER_LEN + n,
            ),
        }
    }
}

/// Decoding from an offset in `c` reads the same in `a + c`.
proof fn lemma_frames_shift(a: Seq<u8>, c: Seq<u8>, j: int)
    requires
        0 <= j,
    ensures
        frames(a + c, a.len() + j) == frames(c, j),
    decreases c.len() - j,
{
    let b = a + c;
    let pos = a.len() + j;
    if pos + RECORD_HEADER_LEN <= b.len() {
        let h = b.subrange(pos, pos + RECORD_HEADER_LEN);
        assert(h =~= c.subrange(j, j + RECORD_HEADER_LEN));
        if let Ok(n) = record_len(h) {
            let end = pos + RECORD_HEADER_LEN + n;
            if end <= b.len() {
                assert(b.subrange(pos + RECORD_HEADER_LEN, end) =~= c.subrange(
                    j + RECORD_HEADER_LEN,
                    j + RECORD_HEADER_LEN + n,
                ));
                lemma_frames_shift(a, c, j + RECORD_HEADER_LEN + n);
            }
        }
    }
}

/// Whole records followed by anything decode as the whole records, then
/// what follows.
pub proof fn lemma_frames_append(a: Seq<u8>, c: Seq<u8>, pos: int)
    requires
        0 <= pos <= a.len(),
        whole_records(a, pos),
    ensures
        frames(a + c, pos) == (frames(a, pos).0 + frames(c, 0).0, frames(c, 0).1),
    decreases a.len() - pos,
{
    let b = a + c;
    if pos == a.len() {
        lemma_frames_shift(a, c, 0);
        assert(frames(a, pos).0 + frames(c, 0).0 =~= frames(c, 0).0);
    } else {
        let h = a.subrange(pos, pos + RECORD_HEADER_LEN);
        assert(b.subrange(pos, pos + RECORD_HEADER_LEN) =~= h);
        let n = record_len(h)->Ok_0;
        let end = pos + RECORD_HEADER_LEN + n;
        assert(b.subrange(pos + RECORD_HEADER_LEN, end) =~= a.subrange(pos + RECORD_HEADER_LEN, end));
        lemma_frames_append(a, c, end);
        let p = a.subrange(pos + RECORD_HEADER_LEN, end);
        if payload_error(p) is None {
            assert(seq![record_quote(h, p)] + frames(a, end).0 + frames(c, 0).0 =~= seq![
                record_quote(h, p),
            ] + (frames(a, end).0 + frames(c, 0).0));
        }
    }
}

/// A record whose captured length differs from its original length ends the
/// trace: after whole records `prefix`, whatever follows such a header, the
/// output is what the quotes of `prefix` emitted before it, with no flush of
/// the buffer, and the trace stops with `LengthMismatch`.
pub proof fn lemma_length_mismatch_ends_trace(
    prefix: Seq<u8>,
    header: Seq<u8>,
    rest: Seq<u8>,
    reorder: bool,
)
    requires
        whole_records(prefix, 0),
        header.len() == RECORD_HEADER_LEN,
        crate::record::captured_len(header) != crate::record::original_len(header),
    ensures
        decode_outcome(prefix + header + rest, reorder) == (
            emitted(frames(prefix, 0).0, reorder, false),
            Some(TraceError::LengthMismatch),
        ),
{
    let c = header + rest;
    assert(prefix + header + rest =~= prefix + c);
    assert(c.subrange(0, RECORD_HEADER_LEN as int) =~= header);
    lemma_frames_append(prefix, c, 0);
    assert(frames(prefix, 0).0 + Seq::<QuoteView>::empty() =~= frames(prefix, 0).0);
}

/// A record whose payload holds no quote is passed over.
proof fn lemma_rejected_record_skipped(header: Seq<u8>, payload: Seq<u8>, rest: Seq<u8>)
    requires
        header.len() == RECORD_HEADER_LEN,
        crate::record::captured_len(header) == crate::record::original_len(header),
        crate::record::captured_len(header) == payload.len(),
        payload_error(payload) is Some,
    ensures
        frames(header + payload + rest, 0) == frames(rest, 0),
{
    let c = header + payload + rest;
    let hp = header + payload;
    assert(c =~= hp + rest);
    assert(c.subrange(0, RECORD_HEADER_LEN as int) =~= header);
    assert(c.subrange(RECORD_HEADER_LEN as int, RECORD_HEADER_LEN + payload.len()) =~= payload);
    assert(frames(c, 0) == frames(c, hp.len() as int));
    lemma_frames_shift(hp, rest, 0);
}

/// A record whose payload lacks the quote marker yields no quote, and
/// decoding goes on with the next record: after whole records `prefix`, the
/// quotes decoded are those of `prefix`, then those of `rest`.
pub proof fn lemma_unmarked_record_skipped(
    prefix: Seq<u8>,
    header: Seq<u8>,
    payload: Seq<u8>,
    rest: Seq<u8>,
)
    requires
        whole_records(prefix, 0),
        header.len() == RECORD_HEADER_LEN,
        crate::record::captured_len(header) == crate::record::original_len(header),
        crate::record::captured_len(header) == payload.len(),
        payload.len() < crate::layout::QUOTE_START + crate::layout::MARKER_LEN
            || payload.subrange(
            crate::layout::QUOTE_START as int,
            crate::layout::QUOTE_START + crate::layout::MARKER_LEN,
        ) != crate::layout::quote_marker(),
    ensures
        frames(prefix + header + payload + rest, 0) == (
            frames(prefix, 0).0 + frames(rest, 0).0,
            frames(rest, 0).1,
        ),
{
    let c = header + payload + rest;
    assert(prefix + header + payload + rest =~= prefix + c);
    assert(payload_error(payload) is Some);
    lemma_rejected_record_skipped(header, payload, rest);
    lemma_frames_append(prefix, c, 0);
}

/// Without reordering, quotes are emitted exactly as decoded, one for one,
/// in capture order.
pub proof fn lemma_no_reorder_keeps_decode_order(b: Seq<u8>)
    ensures
        decode_outcome(b, false).0 == frames(b, 0).0,
{
}

/// With reordering, a trace that ends without error emits every decoded
/// quote exactly once.
pub proof fn lemma_reorder_emits_every_quote(b: Seq<u8>)
    requires
        frames(b, 0).1 is None,
    ensures
        decode_outcome(b, true).0.to_multiset() == frames(b, 0).0.to_multiset(),
{
    crate::reorder::lemma_reorder_keeps_every_quote(frames(b, 0).0);
}

/// With reordering, a trace that ends without error emits, after all that
/// left the buffer on the way, every quote still buffered, in ascending
/// order of accept time.
pub proof fn lemma_end_of_stream_flush(b: Seq<u8>)
    requires
        frames(b, 0).1 is None,
    ensures
        decode_outcome(b, true).0 == feed_all(frames(b, 0).0).1 + feed_all(frames(b, 0).0).0.reverse(),
        ascending(feed_all(frames(b, 0).0).0.reverse()),
{
    crate::reorder::lemma_feed_all_descending(frames(b, 0).0);
    crate::reorder::lemma_flush_ascending(feed_all(frames(b, 0).0).0);
}

/// The outcome of decoding a trace.
pub struct TraceOutput {
    /// The quotes in the order of emission.
    pub quotes: Vec<QuotePackets>,
    /// What stopped the trace before its end, if anything.
    pub error: Option<TraceError>,
}

/// Decodes the records that follow the trace header, emitting quotes in
/// capture order, or through the reordering buffer where `reorder` holds.
#[verifier::rlimit(40)]
pub fn decode_records(records: &[u8], reorder: bool) -> (r: TraceOutput)
    ensures
        quotes_view(r.quotes@) == decode_outcome(records@, reorder).0,
        r.error == decode_outcome(records@, reorder).1,
{
    let ghost b = records@;
    let len = records.len();
    let mut pos: usize = 0;
    let mut buffer = ReorderBuffer::new();
    let mut out: Vec<QuotePackets> = Vec::new();
    let ghost mut decoded: Seq<QuoteView> = Seq::empty();
    assert(quotes_view(out@) =~= Seq::<QuoteView>::empty());
    loop
        invariant
            b == records@,
            len == b.len(),
            pos <= len,
            buffer.wf(),
            frames(b, 0).0 == decoded + frames(b, pos as int).0,
            frames(b, 0).1 == frames(b, pos as int).1,
            reorder ==> buffer@ == feed_all(decoded).0 && quotes_view(out@) == feed_all(decoded).1,
            !reorder ==> buffer@ == Seq::<QuoteView>::empty() && quotes_view(out@) == decoded,
        decreases len - pos,
    {
        if len - pos < RECORD_HEADER_LEN {
            assert(frames(b, pos as int).0 =~= Seq::<QuoteView>::empty());
            assert(decoded + Seq::<QuoteView>::empty() =~= decoded);
            if reorder {
                let ghost before = quotes_view(out@);
                let mut rest = buffer.flush();
                let ghost flushed = quotes_view(rest@);
                out.append(&mut rest);
                assert(quotes_view(out@) =~= before + flushed);
            }
            return TraceOutput { quotes: out, error: None };
        }
        let header = slice_subrange(records, pos, pos + RECORD_HEADER_LEN);
        let mut quote = QuotePackets::new();
        let n = match parse_packet_header(header, &mut quote) {
            Ok(n) => n,
            Err(e) => {
                assert(frames(b, pos as int).0 =~= Seq::<QuoteView>::empty());
                assert(decoded + Seq::<QuoteView>::empty() =~= decoded);
                return TraceOutput { quotes: out, error: Some(e) };
            },
        };
        let start = pos + RECORD_HEADER_LEN;
        if n > len - start {
            assert(frames(b, pos as int).0 =~= Seq::<QuoteView>::empty());
            assert(decoded + Seq::<QuoteView>::empty() =~= decoded);
            return TraceOutput { quotes: out, error: Some(TraceError::TruncatedPayload) };
        }
        let payload = slice_subrange(records, start, start + n);
        let ghost h = header@;
        let ghost p = payload@;
        assert(p.subrange(0, n as int) =~= p);
        match parse_packet_contents(payload, n, &mut quote) {
            Ok(()) => {
                let ghost q = quote@;
                assert(q == record_quote(h, p));
                assert(frames(b, 0).0 == decoded.push(q) + frames(b, (start + n) as int).0) by {
                    assert(decoded + (seq![q] + frames(b, (start + n) as int).0) =~= decoded.push(q)
                        + frames(b, (start + n) as int).0);
                }
                if reorder {
                    let ghost before = quotes_view(out@);
                    let mut em = buffer.push(quote);
                    let ghost em_v = quotes_view(em@);
                    out.append(&mut em);
                    assert(quotes_view(out@) =~= before + em_v);
                    assert(decoded.push(q).drop_last() =~= decoded);
                } else {
                    let ghost before = quotes_view(out@);
                    out.push(quote);
                    assert(quotes_view(out@) =~= before.push(q));
                }
                proof {
                    decoded = decoded.push(q);
                }
            },
            Err(_) => {},
        }
        pos = start + n;
    }
}

/// Decodes a whole trace: its header, then its records.
pub fn decode_trace(trace: &[u8], reorder: bool) -> (r: TraceOutput)
    ensures
        trace@.len() < TRACE_HEADER_LEN ==> quotes_view(r.quotes@) == Seq::<QuoteView>::empty()
            && r.error == Some(TraceError::TruncatedHeader),
        trace@.len() >= TRACE_HEADER_LEN ==> {
            let b = trace@.subrange(TRACE_HEADER_LEN as int, trace@.len() as int);
            &&& quotes_view(r.quotes@) == decode_outcome(b, reorder).0
            &&& r.error == decode_outcome(b, reorder).1
        },
{
    if trace.len() < TRACE_HEADER_LEN {
        let r = TraceOutput { quotes: Vec::new(), error: Some(TraceError::TruncatedHeader) };
        assert(quotes_view(r.quotes@) =~= Seq::<QuoteView>::empty());
        return r;
    }
    decode_records(slice_subrange(trace, TRACE_HEADER_LEN, trace.len()), reorder)
}

} // verus!
