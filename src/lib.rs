//! A fixed-capacity ring buffer of bytes with a read cursor and a write cursor.
//!
//! A slot holding the byte 0 counts as empty: the buffer keeps no separate
//! occupancy flag, so a zero byte that was written reads back as a free slot.

pub mod model;
pub mod buffer;
pub mod laws;

pub use buffer::{NoSpaceLeft, RingBuffer};
