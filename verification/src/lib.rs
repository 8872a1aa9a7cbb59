//! An append-only link store with a fixed storage budget.
//!
//! The store is a single persistent record holding a counter and an ordered
//! list of submitted links, each paired with the 32-byte address of its
//! submitter. It is created once by an initialization operation and grows
//! only through an append operation, which refuses to grow the record past
//! the byte budget reserved for it at creation time.
//!
//! The record has a fixed binary encoding (an 8-byte little-endian counter
//! followed by a length-prefixed list of length-prefixed entries); the
//! `codec` module implements and verifies that encoding.

pub mod codec;
pub mod store;
