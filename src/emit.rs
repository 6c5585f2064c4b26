//! The one-line text record of a quote.

use vstd::prelude::*;
use crate::layout::{LEVEL_COUNT, MARKER_LEN, ISSUE_CODE_LEN, QUOTE_START};
use crate::quote::{
    QuotePackets, QuoteView, ask_start, bid_start, fields_well_formed, payload_error, price_field,
    qty_field,
};
use crate::text::{push_zero_padded, zero_padded};
use crate::trace::record_quote;

verus! {

/// ASCII space.
pub const SPACE: u8 = 32;

/// ASCII `:`.
pub const COLON: u8 = 58;

/// ASCII `@`.
pub const AT_SIGN: u8 = 64;

/// A time of day as `HH:MM:SS:` and the sub-second part padded to `sub_width`.
pub open spec fn clock_text(h: nat, m: nat, s: nat, sub: nat, sub_width: nat) -> Seq<u8> {
    zero_padded(h, 2) + seq![COLON] + zero_padded(m, 2) + seq![COLON] + zero_padded(s, 2) + seq![
        COLON,
    ] + zero_padded(sub, sub_width)
}

/// Capture time (microseconds in six digits), a space, accept time.
pub open spec fn times_text(q: QuoteView) -> Seq<u8> {
    clock_text(
        q.capture_hours as nat,
        q.capture_minutes as nat,
        q.capture_seconds as nat,
        q.capture_subsecond as nat,
        6,
    ) + seq![SPACE] + clock_text(
        q.accept_hours as nat,
        q.accept_minutes as nat,
        q.accept_seconds as nat,
        q.accept_subsecond as nat,
        2,
    )
}

/// One level as ` price@quantity`.
pub open spec fn pair_text(price: Seq<u8>, qty: Seq<u8>) -> Seq<u8> {
    seq![SPACE] + price + seq![AT_SIGN] + qty
}

pub open spec fn pairs_text(ps: Seq<(Seq<u8>, Seq<u8>)>) -> Seq<u8>
    decreases ps.len(),
{
    if ps.len() == 0 {
        Seq::empty()
    } else {
        pairs_text(ps.drop_last()) + pair_text(ps.last().0, ps.last().1)
    }
}

/// The levels in the order of the line: bids worst to best, then asks best
/// to worst.
pub open spec fn book_pairs(q: QuoteView) -> Seq<(Seq<u8>, Seq<u8>)> {
    Seq::new(
        2 * LEVEL_COUNT as nat,
        |i: int|
            if i < LEVEL_COUNT {
                (q.bid_price[LEVEL_COUNT - 1 - i], q.bid_qty[LEVEL_COUNT - 1 - i])
            } else {
                (q.ask_price[i - LEVEL_COUNT], q.ask_qty[i - LEVEL_COUNT])
            },
    )
}

/// The text record of `q`.
pub open spec fn quote_line(q: QuoteView) -> Seq<u8> {
    times_text(q) + seq![SPACE] + q.issue_code + pairs_text(book_pairs(q))
}

fn push_bytes(out: &mut Vec<u8>, b: &Vec<u8>)
    ensures
        final(out)@ == old(out)@ + b@,
{
    let ghost start = out@;
    let mut i: usize = 0;
    while i < b.len()
        invariant
            out@ == start + b@.subrange(0, i as int),
            i <= b@.len(),
        decreases b@.len() - i,
    {
        out.push(b[i]);
        i = i + 1;
        assert(out@ =~= start + b@.subrange(0, i as int));
    }
    assert(b@.subrange(0, i as int) =~= b@);
}

fn push_clock(out: &mut Vec<u8>, h: u64, m: u64, s: u64, sub: u64, sub_width: usize)
    ensures
        final(out)@ == old(out)@ + clock_text(h as nat, m as nat, s as nat, sub as nat, sub_width as nat),
{
    let ghost start = out@;
    push_zero_padded(out, h, 2);
    out.push(COLON);
    push_zero_padded(out, m, 2);
    out.push(COLON);
    push_zero_padded(out, s, 2);
    out.push(COLON);
    push_zero_padded(out, sub, sub_width);
    assert(out@ =~= start + clock_text(h as nat, m as nat, s as nat, sub as nat, sub_width as nat));
}

/// Renders `q` as one line of text, without a line terminator.
pub fn format_quote(q: &QuotePackets) -> (line: Vec<u8>)
    requires
        fields_well_formed(q@),
    ensures
        line@ == quote_line(q@),
{
    let mut line: Vec<u8> = Vec::new();
    push_clock(
        &mut line,
        q.pkt_time_hours as u64,
        q.pkt_time_minutes as u64,
        q.pkt_time_seconds as u64,
        q.pkt_time_microseconds as u64,
        6,
    );
    line.push(SPACE);
    push_clock(
        &mut line,
        q.accept_time_hours as u64,
        q.accept_time_minutes as u64,
        q.accept_time_seconds as u64,
        q.accept_time_microseconds as u64,
        2,
    );
    line.push(SPACE);
    push_bytes(&mut line, &q.issue_code);
    let ghost head = line@;
    assert(head =~= times_text(q@) + seq![SPACE] + q@.issue_code);
    let ghost pairs = book_pairs(q@);
    let mut i: usize = 0;
    assert(pairs.subrange(0, 0) =~= Seq::<(Seq<u8>, Seq<u8>)>::empty());
    while i < 2 * LEVEL_COUNT
        invariant
            fields_well_formed(q@),
            pairs == book_pairs(q@),
            i <= 2 * LEVEL_COUNT,
            line@ == head + pairs_text(pairs.subrange(0, i as int)),
        decreases 2 * LEVEL_COUNT - i,
    {
        let (price, qty) = if i < LEVEL_COUNT {
            (&q.bid_price[LEVEL_COUNT - 1 - i], &q.bid_qty[LEVEL_COUNT - 1 - i])
        } else {
            (&q.ask_price[i - LEVEL_COUNT], &q.ask_qty[i - LEVEL_COUNT])
        };
        assert(price@ == pairs[i as int].0 && qty@ == pairs[i as int].1);
        let ghost before = line@;
        line.push(SPACE);
        push_bytes(&mut line, price);
        line.push(AT_SIGN);
        push_bytes(&mut line, qty);
        assert(line@ =~= before + pair_text(price@, qty@));
        assert(pairs.subrange(0, i + 1).drop_last() =~= pairs.subrange(0, i as int));
        i = i + 1;
    }
    assert(pairs.subrange(0, 2 * LEVEL_COUNT as int) =~= pairs);
    line
}

/// The levels of payload `p` in the order of the line.
pub open spec fn payload_pairs(p: Seq<u8>) -> Seq<(Seq<u8>, Seq<u8>)> {
    Seq::new(
        2 * LEVEL_COUNT as nat,
        |i: int|
            if i < LEVEL_COUNT {
                (
                    price_field(p, bid_start(), LEVEL_COUNT - 1 - i),
                    qty_field(p, bid_start(), LEVEL_COUNT - 1 - i),
                )
            } else {
                (price_field(p, ask_start(), i - LEVEL_COUNT), qty_field(p, ask_start(), i - LEVEL_COUNT))
            },
    )
}

/// The line of a decoded quote carries the payload's own bytes: after the
/// two times, the issue code, then each level's price and quantity as they
/// stand in the payload, bids worst to best, then asks best to worst.
pub proof fn lemma_line_carries_payload_bytes(h: Seq<u8>, p: Seq<u8>)
    requires
        payload_error(p) is None,
    ensures
        quote_line(record_quote(h, p)) == times_text(record_quote(h, p)) + seq![SPACE]
            + p.subrange(QUOTE_START + MARKER_LEN, QUOTE_START + MARKER_LEN + ISSUE_CODE_LEN)
            + pairs_text(payload_pairs(p)),
{
    assert(book_pairs(record_quote(h, p)) =~= payload_pairs(p));
}

} // verus!
