//! Decoding of captured exchange quote packets and their re-sequencing by
//! exchange accept time through a bounded-delay buffer.

pub mod args;
pub mod emit;
pub mod layout;
pub mod quote;
pub mod record;
pub mod reorder;
pub mod text;
pub mod trace;
