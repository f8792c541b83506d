use vstd::prelude::*;

verus! {

/// Number of bin arrays tracked by one 512-bit bitmap.
pub const BIN_ARRAY_BITMAP_SIZE: i32 = 512;

/// Number of 512-bit bitmaps on each side of the extension.
pub const EXTENSION_BINARRAY_BITMAP_SIZE: usize = 12;

/// Largest bin id of a pair.
pub const MAX_BIN_ID: i32 = 443636;

/// Number of bins held by one bin array.
pub const MAX_BIN_PER_ARRAY: usize = 70;

} // verus!
