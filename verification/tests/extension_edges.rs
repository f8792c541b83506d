use lb_clmm::bin_array_bitmap_extension::BinArrayBitmapExtension;
use lb_clmm::constants::BIN_ARRAY_BITMAP_SIZE;
use lb_clmm::errors::LBError;

#[test]
fn default_is_empty_with_the_zero_pair() {
    let extension = BinArrayBitmapExtension::default();
    assert_eq!(extension.lb_pair, [0u8; 32]);
    assert_eq!(extension.positive_bin_array_bitmap, [[0u64; 8]; 12]);
    assert_eq!(extension.negative_bin_array_bitmap, [[0u64; 8]; 12]);
}

#[test]
fn bitmap_range_values() {
    assert_eq!(BinArrayBitmapExtension::bitmap_range(), (-6656, 6655));
}

#[test]
fn offsets_of_internal_indices_wrap() {
    assert_eq!(BinArrayBitmapExtension::get_bitmap_offset(0).unwrap(), usize::MAX);
    assert_eq!(BinArrayBitmapExtension::get_bitmap_offset(511).unwrap(), usize::MAX);
    assert_eq!(BinArrayBitmapExtension::get_bitmap_offset(-512).unwrap(), usize::MAX);
    assert_eq!(BinArrayBitmapExtension::bin_array_offset_in_bitmap(0).unwrap(), usize::MAX);
    assert_eq!(BinArrayBitmapExtension::get_bitmap_offset(6655).unwrap(), 11);
    assert_eq!(BinArrayBitmapExtension::get_bitmap_offset(-6656).unwrap(), 11);
    assert_eq!(BinArrayBitmapExtension::bin_array_offset_in_bitmap(-6656).unwrap(), 511);
    assert_eq!(BinArrayBitmapExtension::bin_array_offset_in_bitmap(1537).unwrap(), 1);
}

#[test]
fn to_bin_array_index_inverts_the_offsets() {
    for idx in (-6656..=-513).chain(512..=6655) {
        let offset = BinArrayBitmapExtension::get_bitmap_offset(idx).unwrap();
        let bit = BinArrayBitmapExtension::bin_array_offset_in_bitmap(idx).unwrap();
        assert_eq!(
            BinArrayBitmapExtension::to_bin_array_index(offset, bit, idx > 0).unwrap(),
            idx
        );
    }
    assert_eq!(BinArrayBitmapExtension::to_bin_array_index(0, 0, true).unwrap(), 512);
    assert_eq!(BinArrayBitmapExtension::to_bin_array_index(0, 0, false).unwrap(), -513);
    assert_eq!(BinArrayBitmapExtension::to_bin_array_index(11, 511, false).unwrap(), -6656);
}

#[test]
fn get_bitmap_returns_the_stored_limbs() {
    let mut extension = BinArrayBitmapExtension::default();
    extension.flip_bin_array_bit(1024 + 65).unwrap();
    let (offset, limbs) = extension.get_bitmap(1024 + 65).unwrap();
    assert_eq!(offset, 1);
    assert_eq!(limbs, [0, 2, 0, 0, 0, 0, 0, 0]);
    extension.flip_bin_array_bit(-513 - 511).unwrap();
    let (offset, limbs) = extension.get_bitmap(-1024).unwrap();
    assert_eq!(offset, 0);
    assert_eq!(limbs, [0, 0, 0, 0, 0, 0, 0, 1u64 << 63]);
}

#[test]
fn flip_twice_restores_every_bit() {
    let mut extension = BinArrayBitmapExtension::default();
    extension.flip_bin_array_bit(777).unwrap();
    extension.flip_bin_array_bit(-777).unwrap();
    extension.flip_bin_array_bit(777).unwrap();
    assert_eq!(extension.bit(777).unwrap(), false);
    assert_eq!(extension.bit(-777).unwrap(), true);
    assert_eq!(extension.positive_bin_array_bitmap, [[0u64; 8]; 12]);
}

#[test]
fn initialize_clears_and_records_the_pair() {
    let mut extension = BinArrayBitmapExtension::default();
    extension.flip_bin_array_bit(600).unwrap();
    extension.flip_bin_array_bit(-600).unwrap();
    let key = [7u8; 32];
    extension.initialize(key);
    assert_eq!(extension.lb_pair, key);
    assert_eq!(extension.bit(600).unwrap(), false);
    assert_eq!(extension.bit(-600).unwrap(), false);
}

#[test]
fn iter_from_the_pair_range_finds_nothing() {
    let mut extension = BinArrayBitmapExtension::default();
    extension.flip_bin_array_bit(600).unwrap();
    extension.flip_bin_array_bit(-600).unwrap();
    assert_eq!(extension.iter_bitmap(100, 6655).unwrap(), None);
    assert_eq!(extension.iter_bitmap(-100, -6656).unwrap(), None);
    assert_eq!(extension.iter_bitmap(7000, 8000).unwrap(), None);
    assert_eq!(extension.iter_bitmap(-7000, -8000).unwrap(), None);
}

#[test]
fn iter_crosses_bitmaps() {
    let mut extension = BinArrayBitmapExtension::default();
    extension.flip_bin_array_bit(6655).unwrap();
    extension.flip_bin_array_bit(512).unwrap();
    extension.flip_bin_array_bit(-6656).unwrap();
    extension.flip_bin_array_bit(-513).unwrap();
    assert_eq!(extension.iter_bitmap(513, 600).unwrap(), Some(6655));
    assert_eq!(extension.iter_bitmap(6654, 600).unwrap(), Some(512));
    assert_eq!(extension.iter_bitmap(-6655, -600).unwrap(), Some(-513));
    assert_eq!(extension.iter_bitmap(-514, -600).unwrap(), Some(-6656));
    assert_eq!(extension.iter_bitmap(6655, 6655).unwrap(), Some(6655));
}

#[test]
fn next_reports_the_missing_liquidity_error() {
    let extension = BinArrayBitmapExtension::default();
    assert_eq!(
        extension.next_bin_array_index_with_liquidity(false, 700),
        Err(LBError::CannotFindNonZeroLiquidityBinArrayId)
    );
    assert_eq!(
        extension.next_bin_array_index_with_liquidity(true, -700),
        Err(LBError::CannotFindNonZeroLiquidityBinArrayId)
    );
    assert_eq!(extension.next_bin_array_index_with_liquidity(true, 700), Ok((511, false)));
    assert_eq!(extension.next_bin_array_index_with_liquidity(false, -700), Ok((-512, false)));
    assert_eq!(extension.next_bin_array_index_with_liquidity(false, 300), Err(LBError::CannotFindNonZeroLiquidityBinArrayId));
    assert_eq!(extension.next_bin_array_index_with_liquidity(true, 300), Ok((BIN_ARRAY_BITMAP_SIZE - 1, false)));
}

#[test]
fn swap_for_y_from_the_first_bin_array_searches_downwards() {
    let mut extension = BinArrayBitmapExtension::default();
    extension.flip_bin_array_bit(600).unwrap();
    assert_eq!(extension.next_bin_array_index_with_liquidity(true, 512), Ok((511, false)));
    extension.flip_bin_array_bit(-600).unwrap();
    assert_eq!(
        extension.next_bin_array_index_with_liquidity(true, -6656),
        Err(LBError::CannotFindNonZeroLiquidityBinArrayId)
    );
}
