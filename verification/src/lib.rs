//! Bit-level buffer engine: primitives that read, write, copy and clear
//! arbitrary-width, arbitrarily-offset bit spans inside byte buffers,
//! using most-significant-bit-first packing.

pub mod laws;
pub mod model;
pub mod ops;

pub use ops::bit_clean;
pub use ops::bit_read;
pub use ops::bit_write;
pub use ops::bits_to_max_hold;
pub use ops::is_in_range;
pub use ops::membitcpy;
