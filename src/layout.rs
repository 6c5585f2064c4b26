//! Byte layout of the capture trace and of the quote message it carries.
//! Offsets into a quote message are counted from `QUOTE_START`.

use vstd::prelude::*;

verus! {

/// Length of the global header at the start of a trace.
pub const TRACE_HEADER_LEN: usize = 24;

/// Length of the header in front of each captured record.
pub const RECORD_HEADER_LEN: usize = 16;

/// Offset of the quote message inside a record payload (past the Ethernet,
/// IP and UDP headers).
pub const QUOTE_START: usize = 42;

/// Length of the message-type marker that opens a quote message.
pub const MARKER_LEN: usize = 5;

/// Length of the issue code that follows the marker.
pub const ISSUE_CODE_LEN: usize = 12;

/// Offset of the first bid level from `QUOTE_START`.
pub const BID_OFFSET: usize = 29;

/// Offset of the first ask level from `QUOTE_START`.
pub const ASK_OFFSET: usize = 96;

/// Number of price levels on each side of the book.
pub const LEVEL_COUNT: usize = 5;

/// Bytes of one level: a price followed by a quantity.
pub const LEVEL_WIDTH: usize = 12;

/// Bytes of the price of one level.
pub const PRICE_WIDTH: usize = 5;

/// Bytes of the quantity of one level.
pub const QTY_WIDTH: usize = 7;

/// Bytes of the accept-time field (`HHMMSSuu`).
pub const ACCEPT_TIME_LEN: usize = 8;

/// Bytes after the accept-time field: the message terminator.
pub const TERMINATOR_LEN: usize = 1;

/// The shortest payload that holds a whole quote message.
pub const MIN_QUOTE_PAYLOAD: usize = QUOTE_START + ASK_OFFSET + LEVEL_COUNT * LEVEL_WIDTH;

/// The marker of a quote message: `B6034` in ASCII.
pub open spec fn quote_marker() -> Seq<u8> {
    seq![66u8, 54u8, 48u8, 51u8, 52u8]
}

} // verus!
