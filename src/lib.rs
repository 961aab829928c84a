//! Packed integer arrays: `LEN` unsigned integers of `BITS` bits each (1 to 8),
//! stored back to back in the fewest bytes that can hold them.
//!
//! Item `i` occupies the bits `i * BITS .. (i + 1) * BITS` of the storage, where
//! bit 0 is the most significant bit of byte 0. An item may straddle two bytes.

mod layout;
mod packed;
pub mod laws;

pub use layout::{array_length_spec, bit_at, field, get_array_length, msb_bit, stored, unpacked};
pub use packed::{valid_shape, PackedIntegerArray, PackedIntegerArrayIterator};
