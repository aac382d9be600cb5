//! The log-structured storage core: an append-only byte log of framed records,
//! with reservations, stable-offset tracking, hole punching and a forward
//! iterator for recovery.
use vstd::prelude::*;

pub mod record;
pub mod codec;
pub mod log;
pub mod mem;
pub mod lemmas;
pub mod iobuf;
pub mod lss;

verus! {

/// A byte offset into the log; also the identifier of the record that starts there.
pub type LogID = u64;

/// Size of the header that prefixes every record: one flag byte and a
/// four-byte little-endian payload length.
pub const HEADER_LEN: usize = 5;

} // verus!
