//! The extension of a liquidity-book pair's bin array bitmap: two sets of
//! 512-bit bitmaps recording which bin arrays far from the active range hold
//! liquidity, with lookups for the next such bin array in either direction.
pub mod bin_array_bitmap_extension;
pub mod constants;
pub mod errors;
pub mod u512;
pub mod properties;
