use lb_clmm::bin_array_bitmap_extension::BinArrayBitmapExtension;
use lb_clmm::constants::{BIN_ARRAY_BITMAP_SIZE, MAX_BIN_ID, MAX_BIN_PER_ARRAY};
use lb_clmm::errors::LBError;

/// The range of bin array indices of the pair's own bitmap.
fn lb_pair_bitmap_range() -> (i32, i32) {
    (-BIN_ARRAY_BITMAP_SIZE, BIN_ARRAY_BITMAP_SIZE - 1)
}

#[test]
fn test_flip_bin_array_bit_extension() {
    let mut extension = BinArrayBitmapExtension::default();
    let bin_array_index = BIN_ARRAY_BITMAP_SIZE;
    extension.flip_bin_array_bit(bin_array_index).unwrap();
    assert_eq!(extension.bit(bin_array_index).unwrap(), true);
    extension.flip_bin_array_bit(bin_array_index).unwrap();
    assert_eq!(extension.bit(bin_array_index).unwrap(), false);

    let bin_array_index = -BIN_ARRAY_BITMAP_SIZE - 1;
    extension.flip_bin_array_bit(bin_array_index).unwrap();
    assert_eq!(extension.bit(bin_array_index).unwrap(), true);
    extension.flip_bin_array_bit(bin_array_index).unwrap();
    assert_eq!(extension.bit(bin_array_index).unwrap(), false);

    // max range
    let bin_array_index = MAX_BIN_ID / (MAX_BIN_PER_ARRAY as i32) + 1;
    extension.flip_bin_array_bit(bin_array_index).unwrap();
    assert_eq!(extension.bit(bin_array_index).unwrap(), true);

    let bin_array_index = -MAX_BIN_ID / (MAX_BIN_PER_ARRAY as i32) - 1;
    extension.flip_bin_array_bit(bin_array_index).unwrap();
    assert_eq!(extension.bit(bin_array_index).unwrap(), true);
}

#[test]
fn test_flip_all_bin_array_bit_extension() {
    let mut extension = BinArrayBitmapExtension::default();
    let max_bin_array_index = MAX_BIN_ID / (MAX_BIN_PER_ARRAY as i32) + 1;
    let min_bin_array_index = -MAX_BIN_ID / (MAX_BIN_PER_ARRAY as i32) - 1;

    for i in BIN_ARRAY_BITMAP_SIZE..max_bin_array_index {
        extension.flip_bin_array_bit(i).unwrap();
        assert_eq!(extension.bit(i).unwrap(), true);
    }
    for i in min_bin_array_index..(-BIN_ARRAY_BITMAP_SIZE) {
        extension.flip_bin_array_bit(i).unwrap();
        assert_eq!(extension.bit(i).unwrap(), true);
    }

    for i in BIN_ARRAY_BITMAP_SIZE..max_bin_array_index {
        extension.flip_bin_array_bit(i).unwrap();
        assert_eq!(extension.bit(i).unwrap(), false);
    }
    for i in min_bin_array_index..(-BIN_ARRAY_BITMAP_SIZE) {
        extension.flip_bin_array_bit(i).unwrap();
        assert_eq!(extension.bit(i).unwrap(), false);
    }
}

#[test]
fn test_next_id_to_initialized_bin_array_from_internal_to_extension_swap_for_x() {
    let mut extension = BinArrayBitmapExtension::default();

    let (_, max_bin_array_index) = BinArrayBitmapExtension::bitmap_range();
    let start_index = BIN_ARRAY_BITMAP_SIZE;

    let index = 2000;
    // deposit liquidity at index 2000
    extension.flip_bin_array_bit(index).unwrap();
    assert_eq!(extension.bit(index).unwrap(), true);
    let (bin_array_id, ok) = extension
        .next_bin_array_index_with_liquidity(false, start_index)
        .unwrap();
    assert_eq!(index, bin_array_id);

    assert_eq!(ok, true);
    // swap for x
    let (bin_array_id, ok) = extension
        .next_bin_array_index_with_liquidity(false, start_index)
        .unwrap();
    assert_eq!(index, bin_array_id);
    assert_eq!(ok, true);
    // withdraw liquidity at index 2000
    extension.flip_bin_array_bit(index).unwrap();

    let index = max_bin_array_index;
    // deposit liquidity at index max_bin_array_index
    extension.flip_bin_array_bit(index).unwrap();
    assert_eq!(extension.bit(index).unwrap(), true);

    // swap for x
    let (bin_array_id, ok) = extension
        .next_bin_array_index_with_liquidity(false, start_index)
        .unwrap();
    assert_eq!(index, bin_array_id);
    assert_eq!(ok, true);

    // if we dont find non zero liquidity, then we have to return error
    extension.flip_bin_array_bit(index).unwrap();
    assert_eq!(extension.bit(index).unwrap(), false);

    match extension.next_bin_array_index_with_liquidity(false, start_index) {
        Ok(_value) => panic!("should panic"),
        Err(_err) => {}
    };
}

#[test]
fn test_next_id_to_initialized_bin_array_from_internal_to_extension_swap_for_y() {
    let mut extension = BinArrayBitmapExtension::default();
    let (min_bin_array_index, _) = BinArrayBitmapExtension::bitmap_range();
    let start_index = -BIN_ARRAY_BITMAP_SIZE - 1;
    let index = -2000;
    // deposit liquidity at index -2000
    extension.flip_bin_array_bit(index).unwrap();
    assert_eq!(extension.bit(index).unwrap(), true);

    // swap for x
    let (bin_array_id, ok) = extension
        .next_bin_array_index_with_liquidity(true, start_index)
        .unwrap();
    assert_eq!(index, bin_array_id);
    assert_eq!(ok, true);

    // withdraw liquidity at index -2000
    extension.flip_bin_array_bit(index).unwrap();
    assert_eq!(extension.bit(index).unwrap(), false);

    let index = min_bin_array_index;
    // deposit liquidity at index min_bin_array_index
    extension.flip_bin_array_bit(index).unwrap();
    assert_eq!(extension.bit(index).unwrap(), true);

    // swap for x
    let (bin_array_id, ok) = extension
        .next_bin_array_index_with_liquidity(true, start_index)
        .unwrap();

    assert_eq!(index, bin_array_id);
    assert_eq!(ok, true);

    // if we dont find non zero liquidity, then we have to return error
    extension.flip_bin_array_bit(index).unwrap();
    assert_eq!(extension.bit(index).unwrap(), false);
    match extension.next_bin_array_index_with_liquidity(true, start_index) {
        Ok(_value) => panic!("should panic"),
        Err(_err) => {}
    };
}

#[test]
fn test_next_id_to_initialized_bin_array_from_extension_to_internal_swap_for_y() {
    let mut extension = BinArrayBitmapExtension::default();
    let index: i32 = 2000;
    let start_index = index - 1;
    // deposit liquidity at index 2000
    extension.flip_bin_array_bit(index).unwrap();
    assert_eq!(extension.bit(index).unwrap(), true);

    let (bin_array_id, ok) = extension
        .next_bin_array_index_with_liquidity(true, start_index)
        .unwrap();
    assert_eq!(ok, false);
    assert_eq!(bin_array_id, BIN_ARRAY_BITMAP_SIZE - 1);
}

#[test]
fn test_next_id_to_initialized_bin_array_from_extension_to_internal_swap_for_x() {
    let mut extension = BinArrayBitmapExtension::default();
    let index: i32 = -2000;
    let start_index = index + 1;
    // deposit liquidity at index 2000
    extension.flip_bin_array_bit(index).unwrap();
    assert_eq!(extension.bit(index).unwrap(), true);

    let (bin_array_id, ok) = extension
        .next_bin_array_index_with_liquidity(false, start_index)
        .unwrap();
    assert_eq!(ok, false);
    assert_eq!(bin_array_id, -BIN_ARRAY_BITMAP_SIZE);
}

#[test]
fn test_bin_array_offset() {
    let (min_bin_id, max_bin_id) = lb_pair_bitmap_range();

    let next_max_bin_id = max_bin_id + 1;
    let bitmap_offset = BinArrayBitmapExtension::get_bitmap_offset(next_max_bin_id).unwrap();
    assert_eq!(bitmap_offset, 0);
    let bin_array_offset =
        BinArrayBitmapExtension::bin_array_offset_in_bitmap(next_max_bin_id).unwrap();
    assert_eq!(bin_array_offset, 0);

    let end_nex_max_bin_id = next_max_bin_id + 511;
    let bitmap_offset = BinArrayBitmapExtension::get_bitmap_offset(end_nex_max_bin_id).unwrap();
    assert_eq!(bitmap_offset, 0);
    let bin_array_offset =
        BinArrayBitmapExtension::bin_array_offset_in_bitmap(end_nex_max_bin_id).unwrap();
    assert_eq!(bin_array_offset, 511);

    let next_min_bin_id = min_bin_id - 1;
    let bitmap_offset = BinArrayBitmapExtension::get_bitmap_offset(next_min_bin_id).unwrap();
    assert_eq!(bitmap_offset, 0);
    let bin_array_offset =
        BinArrayBitmapExtension::bin_array_offset_in_bitmap(next_min_bin_id).unwrap();
    assert_eq!(bin_array_offset, 0);

    let end_nex_min_bin_id = next_min_bin_id - 511;
    let bitmap_offset = BinArrayBitmapExtension::get_bitmap_offset(end_nex_min_bin_id).unwrap();
    assert_eq!(bitmap_offset, 0);
    let bin_array_offset =
        BinArrayBitmapExtension::bin_array_offset_in_bitmap(end_nex_min_bin_id).unwrap();
    assert_eq!(bin_array_offset, 511);
}

#[test]
fn test_iter_map() {
    let mut extension = BinArrayBitmapExtension::default();
    extension.flip_bin_array_bit(-1111).unwrap();
    extension.flip_bin_array_bit(-2222).unwrap();
    extension.flip_bin_array_bit(-2225).unwrap();

    extension.flip_bin_array_bit(1111).unwrap();
    extension.flip_bin_array_bit(2222).unwrap();
    extension.flip_bin_array_bit(2225).unwrap();

    assert_eq!(extension.iter_bitmap(-513, -5555).unwrap().unwrap(), -1111);
    assert_eq!(extension.iter_bitmap(-5555, -513).unwrap().unwrap(), -2225);

    assert_eq!(extension.iter_bitmap(513, 5555).unwrap().unwrap(), 1111);
    assert_eq!(extension.iter_bitmap(5555, 513).unwrap().unwrap(), 2225);
}

#[test]
fn test_iter_map_ajacent_items_negative_index() {
    let mut extension = BinArrayBitmapExtension::default();
    extension.flip_bin_array_bit(-1111).unwrap();
    extension.flip_bin_array_bit(-1113).unwrap();
    extension.flip_bin_array_bit(-1115).unwrap();
    assert_eq!(extension.iter_bitmap(-1115, -1111).unwrap().unwrap(), -1115);
    assert_eq!(extension.iter_bitmap(-1114, -1111).unwrap().unwrap(), -1113);
    assert_eq!(extension.iter_bitmap(-1111, -1115).unwrap().unwrap(), -1111);
    assert_eq!(extension.iter_bitmap(-1112, -1115).unwrap().unwrap(), -1113);
}

#[test]
fn test_iter_map_ajacent_items_possitive_index() {
    let mut extension = BinArrayBitmapExtension::default();
    extension.flip_bin_array_bit(1111).unwrap();
    extension.flip_bin_array_bit(1113).unwrap();
    extension.flip_bin_array_bit(1115).unwrap();

    assert_eq!(extension.iter_bitmap(1111, 1115).unwrap().unwrap(), 1111);
    assert_eq!(extension.iter_bitmap(1112, 1115).unwrap().unwrap(), 1113);
    assert_eq!(extension.iter_bitmap(1115, 1111).unwrap().unwrap(), 1115);
    assert_eq!(extension.iter_bitmap(1114, 1111).unwrap().unwrap(), 1113);
}

/// One positive bin array marked, searched for from positive starts.
fn check_single_positive(swap_for_y: bool, start_index: i32, flip_id: i32) {
    let mut extension = BinArrayBitmapExtension::default();
    extension.flip_bin_array_bit(flip_id).unwrap();
    assert_eq!(extension.bit(flip_id).unwrap(), true);
    let result = extension.next_bin_array_index_with_liquidity(swap_for_y, start_index);
    if swap_for_y {
        let (bin_id, ok) = result.unwrap();
        if start_index >= flip_id {
            assert_eq!(bin_id, flip_id);
            assert_eq!(ok, true);
        } else {
            assert_eq!(bin_id, 511);
            assert_eq!(ok, false);
        }
    } else {
        if start_index > flip_id {
            assert_eq!(result.is_err(), true);
        } else {
            let (bin_id, ok) = result.unwrap();
            assert_eq!(bin_id, flip_id);
            assert_eq!(ok, true);
        }
    }
}

/// One negative bin array marked, searched for from negative starts.
fn check_single_negative(swap_for_y: bool, start_index: i32, flip_id: i32) {
    let mut extension = BinArrayBitmapExtension::default();
    extension.flip_bin_array_bit(flip_id).unwrap();
    assert_eq!(extension.bit(flip_id).unwrap(), true);
    let result = extension.next_bin_array_index_with_liquidity(swap_for_y, start_index);
    if swap_for_y {
        if start_index < flip_id {
            assert_eq!(result.is_err(), true);
        } else {
            let (bin_id, ok) = result.unwrap();
            assert_eq!(bin_id, flip_id);
            assert_eq!(ok, true);
        }
    } else {
        let (bin_id, ok) = result.unwrap();
        if start_index <= flip_id {
            assert_eq!(bin_id, flip_id);
            assert_eq!(ok, true);
        } else {
            assert_eq!(bin_id, -512);
            assert_eq!(ok, false);
        }
    }
}

#[test]
fn test_next_possitive_bin_array_index_with_liquidity() {
    let mut starts: Vec<i32> = (512..6655).step_by(97).collect();
    starts.extend_from_slice(&[512, 513, 1023, 1024, 6654]);
    let mut flips: Vec<i32> = (512..6655).step_by(89).collect();
    flips.extend_from_slice(&[512, 513, 1023, 1024, 6654]);
    for &swap_for_y in &[false, true] {
        for &start_index in &starts {
            for &flip_id in &flips {
                check_single_positive(swap_for_y, start_index, flip_id);
            }
        }
    }
}

#[test]
fn test_next_negative_bin_array_index_with_liquidity() {
    let mut starts: Vec<i32> = (-6656..-513).step_by(97).collect();
    starts.extend_from_slice(&[-6656, -6655, -1025, -1024, -514]);
    let mut flips: Vec<i32> = (-6656..-513).step_by(89).collect();
    flips.extend_from_slice(&[-6656, -6655, -1025, -1024, -514]);
    for &swap_for_y in &[false, true] {
        for &start_index in &starts {
            for &flip_id in &flips {
                check_single_negative(swap_for_y, start_index, flip_id);
            }
        }
    }
}
