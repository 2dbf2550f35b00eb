//! A pair of single-precision extents (`x`, `y`), each held as its IEEE-754
//! binary32 encoding, with exactly specified conversions from and to `i32`.

pub mod binary32;
pub mod dimensions;

pub use dimensions::Dimensions;
