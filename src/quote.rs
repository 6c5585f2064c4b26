//! A decoded quote and the decoding of its payload.

use vstd::prelude::*;
use crate::layout::{
    quote_marker, ACCEPT_TIME_LEN, ASK_OFFSET, BID_OFFSET, ISSUE_CODE_LEN, LEVEL_COUNT, LEVEL_WIDTH,
    MARKER_LEN, MIN_QUOTE_PAYLOAD, PRICE_WIDTH, QTY_WIDTH, QUOTE_START, TERMINATOR_LEN,
};
use crate::text::{is_digit, all_digits, are_digits, parse_two_digits, two_digit_field};

verus! {

/// One quote event: capture time, accept time, issue code and five price
/// levels on each side, best first.  Prices, quantities and the issue code
/// are kept as the raw bytes of the payload.
pub struct QuotePackets {
    pub pkt_time_hours: u8,
    pub pkt_time_minutes: u8,
    pub pkt_time_seconds: u8,
    pub pkt_time_microseconds: u32,
    pub pkt_time_microseconds_total: u64,
    pub accept_time_hours: u8,
    pub accept_time_minutes: u8,
    pub accept_time_seconds: u8,
    pub accept_time_microseconds: u8,
    pub accept_time_microseconds_total: u64,
    pub issue_code: Vec<u8>,
    pub bid_price: Vec<Vec<u8>>,
    pub bid_qty: Vec<Vec<u8>>,
    pub ask_price: Vec<Vec<u8>>,
    pub ask_qty: Vec<Vec<u8>>,
}

/// The mathematical value of a `QuotePackets`.
pub ghost struct QuoteView {
    pub capture_hours: u8,
    pub capture_minutes: u8,
    pub capture_seconds: u8,
    pub capture_subsecond: u32,
    pub capture_micros: u64,
    pub accept_hours: u8,
    pub accept_minutes: u8,
    pub accept_seconds: u8,
    pub accept_subsecond: u8,
    pub accept_micros: u64,
    pub issue_code: Seq<u8>,
    pub bid_price: Seq<Seq<u8>>,
    pub bid_qty: Seq<Seq<u8>>,
    pub ask_price: Seq<Seq<u8>>,
    pub ask_qty: Seq<Seq<u8>>,
}

/// Why a payload holds no quote.  None of these stops the trace.
#[derive(Debug, Clone, Copy, PartialEq, Eq, Structural)]
pub enum DecodeError {
    /// The payload ends before the end of the marker.
    NoQuoteType,
    /// The marker is not the quote marker.
    WrongQuoteType,
    /// The payload ends before the last ask level, or the declared length
    /// runs past the bytes given.
    Truncated,
    /// A byte of a price or a quantity is not an ASCII digit.
    NonNumericLevel,
    /// A field of the accept time is not two ASCII digits.
    BadAcceptTime,
}

pub open spec fn byte_fields_view(v: Seq<Vec<u8>>) -> Seq<Seq<u8>> {
    Seq::new(v.len(), |i: int| v[i]@)
}

/// The values of a sequence of quotes.
pub open spec fn quotes_view(v: Seq<QuotePackets>) -> Seq<QuoteView> {
    Seq::new(v.len(), |i: int| v[i]@)
}

impl View for QuotePackets {
    type V = QuoteView;

    open spec fn view(&self) -> QuoteView {
        QuoteView {
            capture_hours: self.pkt_time_hours,
            capture_minutes: self.pkt_time_minutes,
            capture_seconds: self.pkt_time_seconds,
            capture_subsecond: self.pkt_time_microseconds,
            capture_micros: self.pkt_time_microseconds_total,
            accept_hours: self.accept_time_hours,
            accept_minutes: self.accept_time_minutes,
            accept_seconds: self.accept_time_seconds,
            accept_subsecond: self.accept_time_microseconds,
            accept_micros: self.accept_time_microseconds_total,
            issue_code: self.issue_code@,
            bid_price: byte_fields_view(self.bid_price@),
            bid_qty: byte_fields_view(self.bid_qty@),
            ask_price: byte_fields_view(self.ask_price@),
            ask_qty: byte_fields_view(self.ask_qty@),
        }
    }
}

/// `n` zero bytes.
pub open spec fn zero_bytes(n: nat) -> Seq<u8> {
    Seq::new(n, |_i: int| 0u8)
}

/// Five zero-filled fields of `width` bytes.
pub open spec fn zero_levels(width: nat) -> Seq<Seq<u8>> {
    Seq::new(LEVEL_COUNT as nat, |_i: int| zero_bytes(width))
}

/// The value of `QuotePackets::new()`: all times zero, every field
/// zero-filled at its declared width.
pub open spec fn empty_quote() -> QuoteView {
    QuoteView {
        capture_hours: 0,
        capture_minutes: 0,
        capture_seconds: 0,
        capture_subsecond: 0,
        capture_micros: 0,
        accept_hours: 0,
        accept_minutes: 0,
        accept_seconds: 0,
        accept_subsecond: 0,
        accept_micros: 0,
        issue_code: zero_bytes(ISSUE_CODE_LEN as nat),
        bid_price: zero_levels(PRICE_WIDTH as nat),
        bid_qty: zero_levels(QTY_WIDTH as nat),
        ask_price: zero_levels(PRICE_WIDTH as nat),
        ask_qty: zero_levels(QTY_WIDTH as nat),
    }
}

/// Every field of a decoded quote has its declared width.
pub open spec fn fields_well_formed(q: QuoteView) -> bool {
    &&& q.issue_code.len() == ISSUE_CODE_LEN
    &&& q.bid_price.len() == LEVEL_COUNT && q.bid_qty.len() == LEVEL_COUNT
    &&& q.ask_price.len() == LEVEL_COUNT && q.ask_qty.len() == LEVEL_COUNT
    &&& forall|i: int| 0 <= i < LEVEL_COUNT ==> {
        &&& #[trigger] q.bid_price[i].len() == PRICE_WIDTH
        &&& q.bid_qty[i].len() == QTY_WIDTH
        &&& q.ask_price[i].len() == PRICE_WIDTH
        &&& q.ask_qty[i].len() == QTY_WIDTH
    }
}

/// Every price and quantity holds ASCII digits only.
pub open spec fn fields_numeric(q: QuoteView) -> bool {
    forall|i: int| 0 <= i < LEVEL_COUNT ==> {
        &&& all_digits(#[trigger] q.bid_price[i])
        &&& all_digits(q.bid_qty[i])
        &&& all_digits(q.ask_price[i])
        &&& all_digits(q.ask_qty[i])
    }
}

/// The price of level `level` of the side whose first level starts at `side`.
pub open spec fn price_field(p: Seq<u8>, side: int, level: int) -> Seq<u8> {
    p.subrange(side + level * LEVEL_WIDTH, side + level * LEVEL_WIDTH + PRICE_WIDTH)
}

/// The quantity of level `level` of the side whose first level starts at `side`.
pub open spec fn qty_field(p: Seq<u8>, side: int, level: int) -> Seq<u8> {
    p.subrange(
        side + level * LEVEL_WIDTH + PRICE_WIDTH,
        side + level * LEVEL_WIDTH + LEVEL_WIDTH,
    )
}

pub open spec fn side_prices(p: Seq<u8>, side: int) -> Seq<Seq<u8>> {
    Seq::new(LEVEL_COUNT as nat, |i: int| price_field(p, side, i))
}

pub open spec fn side_qtys(p: Seq<u8>, side: int) -> Seq<Seq<u8>> {
    Seq::new(LEVEL_COUNT as nat, |i: int| qty_field(p, side, i))
}

/// Absolute offset of the first bid level.
pub open spec fn bid_start() -> int {
    QUOTE_START + BID_OFFSET
}

/// Absolute offset of the first ask level.
pub open spec fn ask_start() -> int {
    QUOTE_START + ASK_OFFSET
}

/// Offset of the accept-time field in a payload of `len` bytes.
pub open spec fn accept_at(len: int) -> int {
    len - TERMINATOR_LEN - ACCEPT_TIME_LEN
}

/// The bytes of the five levels of the side starting at `side`.
pub open spec fn side_bytes(p: Seq<u8>, side: int) -> Seq<u8> {
    p.subrange(side, side + LEVEL_COUNT * LEVEL_WIDTH)
}

/// Why payload `p` holds no quote, or `None` where it holds one.
pub open spec fn payload_error(p: Seq<u8>) -> Option<DecodeError> {
    let t = accept_at(p.len() as int);
    if p.len() < QUOTE_START + MARKER_LEN {
        Some(DecodeError::NoQuoteType)
    } else if p.subrange(QUOTE_START as int, QUOTE_START + MARKER_LEN) != quote_marker() {
        Some(DecodeError::WrongQuoteType)
    } else if p.len() < MIN_QUOTE_PAYLOAD {
        Some(DecodeError::Truncated)
    } else if !all_digits(side_bytes(p, bid_start())) || !all_digits(side_bytes(p, ask_start())) {
        Some(DecodeError::NonNumericLevel)
    } else if two_digit_field(p, t) is None || two_digit_field(p, t + 2) is None
        || two_digit_field(p, t + 4) is None || two_digit_field(p, t + 6) is None {
        Some(DecodeError::BadAcceptTime)
    } else {
        None
    }
}

/// Microseconds since midnight of a time of day given in parts.
pub open spec fn day_micros(hours: int, minutes: int, seconds: int, sub: int) -> int {
    hours * 3_600_000_000 + minutes * 60_000_000 + seconds * 1_000_000 + sub
}

/// `q` with the fields that payload `p` carries; `payload_error(p)` is `None`.
pub open spec fn with_payload(q: QuoteView, p: Seq<u8>) -> QuoteView {
    let t = accept_at(p.len() as int);
    let h = two_digit_field(p, t)->Some_0;
    let m = two_digit_field(p, t + 2)->Some_0;
    let s = two_digit_field(p, t + 4)->Some_0;
    let u = two_digit_field(p, t + 6)->Some_0;
    QuoteView {
        accept_hours: h,
        accept_minutes: m,
        accept_seconds: s,
        accept_subsecond: u,
        accept_micros: day_micros(h as int, m as int, s as int, u as int) as u64,
        issue_code: p.subrange(QUOTE_START + MARKER_LEN, QUOTE_START + MARKER_LEN + ISSUE_CODE_LEN),
        bid_price: side_prices(p, bid_start()),
        bid_qty: side_qtys(p, bid_start()),
        ask_price: side_prices(p, ask_start()),
        ask_qty: side_qtys(p, ask_start()),
        ..q
    }
}

fn zeros(n: usize) -> (r: Vec<u8>)
    ensures
        r@ == zero_bytes(n as nat),
{
    let mut r: Vec<u8> = Vec::new();
    while r.len() < n
        invariant
            r@.len() <= n,
            r@ == zero_bytes(r@.len()),
        decreases n - r@.len(),
    {
        r.push(0);
        assert(r@ =~= zero_bytes(r@.len()));
    }
    r
}

fn zero_fields(width: usize) -> (r: Vec<Vec<u8>>)
    ensures
        byte_fields_view(r@) == zero_levels(width as nat),
{
    let mut r: Vec<Vec<u8>> = Vec::new();
    while r.len() < LEVEL_COUNT
        invariant
            r@.len() <= LEVEL_COUNT,
            byte_fields_view(r@) == Seq::new(r@.len(), |_i: int| zero_bytes(width as nat)),
        decreases LEVEL_COUNT - r@.len(),
    {
        let ghost before = byte_fields_view(r@);
        let z = zeros(width);
        r.push(z);
        assert(byte_fields_view(r@) =~= before.push(zero_bytes(width as nat)));
        assert(byte_fields_view(r@) =~= Seq::new(r@.len(), |_i: int| zero_bytes(width as nat)));
    }
    assert(byte_fields_view(r@) =~= zero_levels(width as nat));
    r
}

impl QuotePackets {
    /// A quote with all times zero and every field zero-filled at its
    /// declared width, to be filled by `parse_packet_header` and
    /// `parse_packet_contents`.
    pub fn new() -> (r: Self)
        ensures
            r@ == empty_quote(),
            fields_well_formed(r@),
    {
        QuotePackets {
            pkt_time_hours: 0,
            pkt_time_minutes: 0,
            pkt_time_seconds: 0,
            pkt_time_microseconds: 0,
            pkt_time_microseconds_total: 0,
            accept_time_hours: 0,
            accept_time_minutes: 0,
            accept_time_seconds: 0,
            accept_time_microseconds: 0,
            accept_time_microseconds_total: 0,
            issue_code: zeros(ISSUE_CODE_LEN),
            bid_price: zero_fields(PRICE_WIDTH),
            bid_qty: zero_fields(QTY_WIDTH),
            ask_price: zero_fields(PRICE_WIDTH),
            ask_qty: zero_fields(QTY_WIDTH),
        }
    }
}

/// Level `k` of a side lies inside the side's bytes.
proof fn lemma_level_in_side(k: int)
    requires
        0 <= k < LEVEL_COUNT,
    ensures
        0 <= k * LEVEL_WIDTH,
        k * LEVEL_WIDTH + LEVEL_WIDTH <= LEVEL_COUNT * LEVEL_WIDTH,
{
    assert(0 <= k * 12 && k * 12 + 12 <= 60) by (nonlinear_arith)
        requires
            0 <= k < 5,
    ;
}

/// The price and quantity of a level lie inside the bytes of its side.
proof fn lemma_field_digits(p: Seq<u8>, side: int, i: int)
    requires
        0 <= side,
        side + LEVEL_COUNT * LEVEL_WIDTH <= p.len(),
        0 <= i < LEVEL_COUNT,
        all_digits(side_bytes(p, side)),
    ensures
        all_digits(price_field(p, side, i)),
        all_digits(qty_field(p, side, i)),
{
    lemma_level_in_side(i);
    let sb = side_bytes(p, side);
    assert forall|j: int| 0 <= j < PRICE_WIDTH implies is_digit(
        #[trigger] price_field(p, side, i)[j],
    ) by {
        assert(price_field(p, side, i)[j] == sb[i * LEVEL_WIDTH + j]);
    }
    assert forall|j: int| 0 <= j < QTY_WIDTH implies is_digit(
        #[trigger] qty_field(p, side, i)[j],
    ) by {
        assert(qty_field(p, side, i)[j] == sb[i * LEVEL_WIDTH + PRICE_WIDTH + j]);
    }
}

/// A payload that holds a quote gives every field its declared width.
pub proof fn lemma_payload_fields_well_formed(q: QuoteView, p: Seq<u8>)
    requires
        payload_error(p) is None,
    ensures
        fields_well_formed(with_payload(q, p)),
        fields_numeric(with_payload(q, p)),
{
    let r = with_payload(q, p);
    assert forall|i: int| 0 <= i < LEVEL_COUNT implies {
        &&& all_digits(#[trigger] r.bid_price[i])
        &&& all_digits(r.bid_qty[i])
        &&& all_digits(r.ask_price[i])
        &&& all_digits(r.ask_qty[i])
    } by {
        lemma_level_in_side(i);
        lemma_field_digits(p, bid_start(), i);
        lemma_field_digits(p, ask_start(), i);
    }
    assert forall|i: int| 0 <= i < LEVEL_COUNT implies {
        &&& #[trigger] r.bid_price[i].len() == PRICE_WIDTH
        &&& r.bid_qty[i].len() == QTY_WIDTH
        &&& r.ask_price[i].len() == PRICE_WIDTH
        &&& r.ask_qty[i].len() == QTY_WIDTH
    } by {
        lemma_level_in_side(i);
    }
}

impl QuotePackets {
    /// Whether every field has its declared width, as in a decoded quote.
    pub fn has_full_fields(&self) -> (r: bool)
        ensures
            r == fields_well_formed(self@),
    {
        if self.issue_code.len() != ISSUE_CODE_LEN || self.bid_price.len() != LEVEL_COUNT
            || self.bid_qty.len() != LEVEL_COUNT || self.ask_price.len() != LEVEL_COUNT
            || self.ask_qty.len() != LEVEL_COUNT {
            return false;
        }
        let mut i: usize = 0;
        while i < LEVEL_COUNT
            invariant
                i <= LEVEL_COUNT,
                self@.issue_code.len() == ISSUE_CODE_LEN,
                self@.bid_price.len() == LEVEL_COUNT && self@.bid_qty.len() == LEVEL_COUNT,
                self@.ask_price.len() == LEVEL_COUNT && self@.ask_qty.len() == LEVEL_COUNT,
                forall|k: int| 0 <= k < i ==> {
                    &&& #[trigger] self@.bid_price[k].len() == PRICE_WIDTH
                    &&& self@.bid_qty[k].len() == QTY_WIDTH
                    &&& self@.ask_price[k].len() == PRICE_WIDTH
                    &&& self@.ask_qty[k].len() == QTY_WIDTH
                },
            decreases LEVEL_COUNT - i,
        {
            assert(self@.bid_price[i as int] == self.bid_price@[i as int]@);
            assert(self@.bid_qty[i as int] == self.bid_qty@[i as int]@);
            assert(self@.ask_price[i as int] == self.ask_price@[i as int]@);
            assert(self@.ask_qty[i as int] == self.ask_qty@[i as int]@);
            if self.bid_price[i].len() != PRICE_WIDTH || self.bid_qty[i].len() != QTY_WIDTH
                || self.ask_price[i].len() != PRICE_WIDTH || self.ask_qty[i].len() != QTY_WIDTH {
                assert(!(#[trigger] self@.bid_price[i as int].len() == PRICE_WIDTH
                    && self@.bid_qty[i as int].len() == QTY_WIDTH
                    && self@.ask_price[i as int].len() == PRICE_WIDTH
                    && self@.ask_qty[i as int].len() == QTY_WIDTH));
                return false;
            }
            assert(self@.bid_price[i as int].len() == PRICE_WIDTH && self@.bid_qty[i as int].len()
                == QTY_WIDTH && self@.ask_price[i as int].len() == PRICE_WIDTH
                && self@.ask_qty[i as int].len() == QTY_WIDTH);
            i = i + 1;
        }
        true
    }
}

/// The bytes `p[start .. start + len]`.
fn copy_field(p: &[u8], start: usize, len: usize) -> (r: Vec<u8>)
    requires
        start + len <= p@.len(),
    ensures
        r@ == p@.subrange(start as int, start + len),
{
    let mut r: Vec<u8> = Vec::new();
    let mut i: usize = 0;
    let n: usize = p.len();
    while i < len
        invariant
            start + len <= p@.len(),
            n == p@.len(),
            i <= len,
            r@ == p@.subrange(start as int, start + i),
        decreases len - i,
    {
        r.push(p[start + i]);
        i = i + 1;
        assert(r@ =~= p@.subrange(start as int, start + i));
    }
    r
}

/// The prices and quantities of the five levels of the side starting at `side`.
fn read_levels(p: &[u8], side: usize) -> (r: (Vec<Vec<u8>>, Vec<Vec<u8>>))
    requires
        side + LEVEL_COUNT * LEVEL_WIDTH <= p@.len(),
    ensures
        byte_fields_view(r.0@) == side_prices(p@, side as int),
        byte_fields_view(r.1@) == side_qtys(p@, side as int),
{
    let mut prices: Vec<Vec<u8>> = Vec::new();
    let mut qtys: Vec<Vec<u8>> = Vec::new();
    let mut i: usize = 0;
    let mut at: usize = side;
    let n: usize = p.len();
    while i < LEVEL_COUNT
        invariant
            side + LEVEL_COUNT * LEVEL_WIDTH <= p@.len(),
            n == p@.len(),
            i <= LEVEL_COUNT,
            at == side + i * LEVEL_WIDTH,
            byte_fields_view(prices@) =~= Seq::new(i as nat, |k: int| price_field(p@, side as int, k)),
            byte_fields_view(qtys@) =~= Seq::new(i as nat, |k: int| qty_field(p@, side as int, k)),
        decreases LEVEL_COUNT - i,
    {
        proof {
            lemma_level_in_side(i as int);
        }
        let ghost prev_prices = byte_fields_view(prices@);
        let ghost prev_qtys = byte_fields_view(qtys@);
        prices.push(copy_field(p, at, PRICE_WIDTH));
        qtys.push(copy_field(p, at + PRICE_WIDTH, QTY_WIDTH));
        assert(byte_fields_view(prices@) =~= prev_prices.push(price_field(p@, side as int, i as int)));
        assert(byte_fields_view(qtys@) =~= prev_qtys.push(qty_field(p@, side as int, i as int)));
        assert((i + 1) * LEVEL_WIDTH == i * LEVEL_WIDTH + LEVEL_WIDTH) by (nonlinear_arith);
        i = i + 1;
        at = at + LEVEL_WIDTH;
    }
    (prices, qtys)
}

/// Decodes the quote message in the first `packet_contents_length` bytes of
/// `packet_contents` into `quote_packet`, leaving its capture time as it is.
/// A payload that holds no quote leaves `quote_packet` unchanged.
pub fn parse_packet_contents(
    packet_contents: &[u8],
    packet_contents_length: usize,
    quote_packet: &mut QuotePackets,
) -> (r: Result<(), DecodeError>)
    ensures
        packet_contents_length > packet_contents@.len() ==> {
            &&& r == Err::<(), DecodeError>(DecodeError::Truncated)
            &&& *final(quote_packet) == *old(quote_packet)
        },
        packet_contents_length <= packet_contents@.len() ==> {
            let p = packet_contents@.subrange(0, packet_contents_length as int);
            match payload_error(p) {
                Some(e) => r == Err::<(), DecodeError>(e) && *final(quote_packet) == *old(quote_packet),
                None => r is Ok && final(quote_packet)@ == with_payload(old(quote_packet)@, p),
            }
        },
        r is Ok ==> fields_well_formed(final(quote_packet)@) && fields_numeric(final(quote_packet)@),
{
    if packet_contents_length > packet_contents.len() {
        return Err(DecodeError::Truncated);
    }
    let ghost p = packet_contents@.subrange(0, packet_contents_length as int);
    let quote_start = QUOTE_START;
    if quote_start + MARKER_LEN > packet_contents_length {
        return Err(DecodeError::NoQuoteType);
    }
    // B6034
    let is_quote = packet_contents[quote_start] == 66 && packet_contents[quote_start + 1] == 54
        && packet_contents[quote_start + 2] == 48 && packet_contents[quote_start + 3] == 51
        && packet_contents[quote_start + 4] == 52;
    assert(is_quote <==> p.subrange(QUOTE_START as int, QUOTE_START + MARKER_LEN) =~= quote_marker());
    if !is_quote {
        return Err(DecodeError::WrongQuoteType);
    }
    if packet_contents_length < MIN_QUOTE_PAYLOAD {
        return Err(DecodeError::Truncated);
    }
    let bids = quote_start + BID_OFFSET;
    let asks = quote_start + ASK_OFFSET;
    assert(side_bytes(packet_contents@, bid_start()) =~= side_bytes(p, bid_start()));
    assert(side_bytes(packet_contents@, ask_start()) =~= side_bytes(p, ask_start()));
    if !are_digits(packet_contents, bids, LEVEL_COUNT * LEVEL_WIDTH) || !are_digits(
        packet_contents,
        asks,
        LEVEL_COUNT * LEVEL_WIDTH,
    ) {
        return Err(DecodeError::NonNumericLevel);
    }
    let t = packet_contents_length - TERMINATOR_LEN - ACCEPT_TIME_LEN;
    assert(two_digit_field(packet_contents@, t as int) == two_digit_field(p, t as int));
    assert(two_digit_field(packet_contents@, t + 2) == two_digit_field(p, t + 2));
    assert(two_digit_field(packet_contents@, t + 4) == two_digit_field(p, t + 4));
    assert(two_digit_field(packet_contents@, t + 6) == two_digit_field(p, t + 6));
    let hours = match parse_two_digits(packet_contents, t) {
        Some(v) => v,
        None => return Err(DecodeError::BadAcceptTime),
    };
    let minutes = match parse_two_digits(packet_contents, t + 2) {
        Some(v) => v,
        None => return Err(DecodeError::BadAcceptTime),
    };
    let seconds = match parse_two_digits(packet_contents, t + 4) {
        Some(v) => v,
        None => return Err(DecodeError::BadAcceptTime),
    };
    let sub = match parse_two_digits(packet_contents, t + 6) {
        Some(v) => v,
        None => return Err(DecodeError::BadAcceptTime),
    };

    let issue_code = copy_field(packet_contents, quote_start + MARKER_LEN, ISSUE_CODE_LEN);
    let (bid_price, bid_qty) = read_levels(packet_contents, quote_start + BID_OFFSET);
    let (ask_price, ask_qty) = read_levels(packet_contents, quote_start + ASK_OFFSET);
    proof {
        assert(issue_code@ =~= p.subrange(QUOTE_START + MARKER_LEN, QUOTE_START + MARKER_LEN + ISSUE_CODE_LEN));
        assert forall|k: int| 0 <= k < LEVEL_COUNT implies {
            &&& price_field(packet_contents@, bid_start(), k) == price_field(p, bid_start(), k)
            &&& qty_field(packet_contents@, bid_start(), k) == qty_field(p, bid_start(), k)
            &&& price_field(packet_contents@, ask_start(), k) == price_field(p, ask_start(), k)
            &&& qty_field(packet_contents@, ask_start(), k) == qty_field(p, ask_start(), k)
        } by {
            lemma_level_in_side(k);
            assert(price_field(packet_contents@, bid_start(), k) =~= price_field(p, bid_start(), k));
            assert(qty_field(packet_contents@, bid_start(), k) =~= qty_field(p, bid_start(), k));
            assert(price_field(packet_contents@, ask_start(), k) =~= price_field(p, ask_start(), k));
            assert(qty_field(packet_contents@, ask_start(), k) =~= qty_field(p, ask_start(), k));
        }
        assert(side_prices(packet_contents@, bid_start()) =~= side_prices(p, bid_start()));
        assert(side_qtys(packet_contents@, bid_start()) =~= side_qtys(p, bid_start()));
        assert(side_prices(packet_contents@, ask_start()) =~= side_prices(p, ask_start()));
        assert(side_qtys(packet_contents@, ask_start()) =~= side_qtys(p, ask_start()));
    }

    proof {
        lemma_payload_fields_well_formed(quote_packet@, p);
    }
    quote_packet.accept_time_hours = hours;
    quote_packet.accept_time_minutes = minutes;
    quote_packet.accept_time_seconds = seconds;
    quote_packet.accept_time_microseconds = sub;
    quote_packet.accept_time_microseconds_total = hours as u64 * 3_600_000_000
        + minutes as u64 * 60_000_000 + seconds as u64 * 1_000_000 + sub as u64;
    quote_packet.issue_code = issue_code;
    quote_packet.bid_price = bid_price;
    quote_packet.bid_qty = bid_qty;
    quote_packet.ask_price = ask_price;
    quote_packet.ask_qty = ask_qty;
    Ok(())
}

} // verus!
