//! Properties of the extension that span its operations.
use vstd::prelude::*;
use crate::bin_array_bitmap_extension::{
    BinArrayBitmapExtension, bin_array_index_of, bitmap_offset_as_usize, in_extension,
    in_negative_extension, in_positive_extension, inner_boundary, is_iter_bitmap_result,
    next_falls_back_inside, next_search_finds, offset_in_bitmap_as_usize,
    to_bin_array_index_fits, toggled,
};
use crate::u512;

verus! {

/// Flipping the same bin array twice leaves the marked set as it was.
pub proof fn lemma_flip_twice_restores(s: Set<int>, idx: int)
    ensures
        toggled(toggled(s, idx), idx) == s,
{
    assert(toggled(toggled(s, idx), idx) =~= s);
}

/// After a flip, reading the flipped bin array gives the opposite of what it
/// gave before, and reading any other bin array gives what it gave before.
pub proof fn lemma_flip_then_read(s: Set<int>, idx: int, other: int)
    ensures
        toggled(s, idx).contains(idx) == !s.contains(idx),
        other != idx ==> toggled(s, idx).contains(other) == s.contains(other),
{
}

/// Only tracked bin arrays are ever marked.
pub proof fn lemma_marked_are_tracked(ext: BinArrayBitmapExtension, idx: int)
    ensures
        ext@.contains(idx) ==> in_extension(idx),
{
}

/// The extension tracks exactly the indices of `bitmap_range` that lie
/// outside the pair's own range `[-512, 511]`.
pub proof fn lemma_extension_is_range_outside_pair(idx: int)
    ensures
        in_extension(idx) <==> (-6656 <= idx <= 6655 && !(-512 <= idx <= 511)),
{
}

/// With no bin array marked, every search finds nothing.
pub proof fn lemma_empty_search_finds_nothing(swap_for_y: bool, start: int)
    ensures
        next_search_finds(Set::<int>::empty(), swap_for_y, start, None),
{
}

/// With exactly one positive bin array `flip_id` marked, a search from a
/// positive bin array `start` finds it exactly when it lies in the direction
/// of the search: at or below `start` for a swap for y, at or above it
/// otherwise.
pub proof fn lemma_single_positive_search(flip_id: i32, start: int, swap_for_y: bool)
    requires
        in_positive_extension(flip_id as int),
        in_positive_extension(start),
    ensures
        next_search_finds(
            Set::<int>::empty().insert(flip_id as int),
            swap_for_y,
            start,
            if (swap_for_y && start >= flip_id) || (!swap_for_y && start <= flip_id) {
                Some(flip_id)
            } else {
                None
            },
        ),
{
}

/// With exactly one negative bin array `flip_id` marked, a search from a
/// negative bin array `start` finds it exactly when it lies in the direction
/// of the search: at or below `start` for a swap for y, at or above it
/// otherwise.
pub proof fn lemma_single_negative_search(flip_id: i32, start: int, swap_for_y: bool)
    requires
        in_negative_extension(flip_id as int),
        in_negative_extension(start),
    ensures
        next_search_finds(
            Set::<int>::empty().insert(flip_id as int),
            swap_for_y,
            start,
            if (swap_for_y && start >= flip_id) || (!swap_for_y && start <= flip_id) {
                Some(flip_id)
            } else {
                None
            },
        ),
{
}

/// What `iter_bitmap` finds is a marked bin array on the side of the start,
/// lying in the direction of the search.
pub proof fn lemma_iter_finds_marked(ext: BinArrayBitmapExtension, start: int, end: int, v: i32)
    requires
        is_iter_bitmap_result(ext@, start, end, Some(v)),
    ensures
        ext@.contains(v as int),
        start < 0 ==> in_negative_extension(v as int),
        start >= 0 ==> in_positive_extension(v as int),
        start <= end ==> start <= v,
        start > end ==> v <= start,
{
}

/// What the search for the next bin array with liquidity finds is a marked
/// bin array on the side of the start: at or below the start for a swap for
/// y, at or above it otherwise.
pub proof fn lemma_next_finds_marked(
    ext: BinArrayBitmapExtension,
    swap_for_y: bool,
    start: int,
    v: i32,
)
    requires
        next_search_finds(ext@, swap_for_y, start, Some(v)),
    ensures
        ext@.contains(v as int),
        start > 0 ==> in_positive_extension(v as int),
        start <= 0 ==> in_negative_extension(v as int),
        swap_for_y ==> v <= start,
        !swap_for_y ==> start <= v,
{
}

/// The marked set reads the stored fields: a positive bin array `idx` is
/// marked exactly when bit `idx % 512` of `positive_bin_array_bitmap[idx / 512
/// - 1]` is set, a negative one exactly when bit `m % 512` of
/// `negative_bin_array_bitmap[m / 512 - 1]` is set, for `m = -(idx + 1)`, and
/// no other index is marked. Bit `p` of a bitmap is bit `p % 64` of its limb
/// `p / 64`.
pub proof fn lemma_view_reads_fields(ext: BinArrayBitmapExtension, idx: int)
    ensures
        ext@.contains(idx) == (if 512 <= idx <= 6655 {
            ((ext.positive_bin_array_bitmap[idx / 512 - 1][(idx % 512) / 64] >> ((idx % 64) as u64))
                & 1u64) == 1u64
        } else if -6656 <= idx <= -513 {
            let m = -(idx + 1);
            ((ext.negative_bin_array_bitmap[m / 512 - 1][(m % 512) / 64] >> ((m % 64) as u64))
                & 1u64) == 1u64
        } else {
            false
        }),
{
}

/// `get_bitmap` hands back the stored bitmap of the side asked for.
pub proof fn lemma_bitmap_at_reads_field(ext: BinArrayBitmapExtension, offset: int)
    ensures
        ext.bitmap_at(true, offset) == ext.positive_bin_array_bitmap[offset],
        ext.bitmap_at(false, offset) == ext.negative_bin_array_bitmap[offset],
{
}

/// The word of bitmap `i` of the given side at limb `j` after a flip of `idx`:
/// unchanged unless it holds the bit of `idx`, which is toggled.
proof fn lemma_word_after_flip(
    a: BinArrayBitmapExtension,
    b: BinArrayBitmapExtension,
    idx: int,
    is_positive: bool,
    i: int,
    j: int,
)
    requires
        b@ == toggled(a@, idx),
        512 <= idx <= 6655 || -6656 <= idx <= -513,
        0 <= i < 12,
        0 <= j < 8,
    ensures
        ({
            let m = if idx > 0 { idx } else { -(idx + 1) };
            let here = (idx > 0) == is_positive && i == m / 512 - 1 && j == (m % 512) / 64;
            b.bitmap_at(is_positive, i)[j] == (if here {
                a.bitmap_at(is_positive, i)[j] ^ (1u64 << ((m % 64) as u64))
            } else {
                a.bitmap_at(is_positive, i)[j]
            })
        }),
{
    let m = if idx > 0 { idx } else { -(idx + 1) };
    let here = (idx > 0) == is_positive && i == m / 512 - 1 && j == (m % 512) / 64;
    let wa = a.bitmap_at(is_positive, i)[j];
    let wb = b.bitmap_at(is_positive, i)[j];
    let target = if here { wa ^ (1u64 << ((m % 64) as u64)) } else { wa };
    assert forall|s: int| 0 <= s < 64 implies #[trigger] u512::word_bit(wb, s) == u512::word_bit(
        target,
        s,
    ) by {
        let p = 64 * j + s;
        a.lemma_bit_of_index(i, p, is_positive);
        b.lemma_bit_of_index(i, p, is_positive);
        let k = bin_array_index_of(i, p, is_positive);
        assert(p / 64 == j && p % 64 == s);
        if here {
            u512::lemma_word_bit_xor_one(wa, m % 64, s);
            assert((k == idx) == (s == m % 64));
        } else {
            assert(k != idx);
        }
    }
    u512::lemma_word_eq_from_bits(wb, target);
}

/// A flip of `idx` changes exactly one stored word: the limb `(m % 512) / 64`
/// of bitmap `m / 512 - 1` on the side of `idx` (with `m = idx` for a
/// positive index and `m = -(idx + 1)` for a negative one), which is xored
/// with `1 << (m % 64)`. The bitmaps of the other side are left as they were.
pub proof fn lemma_flip_changes_one_word(
    a: BinArrayBitmapExtension,
    b: BinArrayBitmapExtension,
    idx: int,
)
    requires
        b@ == toggled(a@, idx),
        512 <= idx <= 6655 || -6656 <= idx <= -513,
    ensures
        ({
            let m = if idx > 0 { idx } else { -(idx + 1) };
            let o = m / 512 - 1;
            let w = (m % 512) / 64;
            let mask = 1u64 << ((m % 64) as u64);
            &&& idx > 0 ==> b.negative_bin_array_bitmap == a.negative_bin_array_bitmap
            &&& idx < 0 ==> b.positive_bin_array_bitmap == a.positive_bin_array_bitmap
            &&& idx > 0 ==> b.positive_bin_array_bitmap[o][w] == a.positive_bin_array_bitmap[o][w]
                ^ mask
            &&& idx < 0 ==> b.negative_bin_array_bitmap[o][w] == a.negative_bin_array_bitmap[o][w]
                ^ mask
            &&& idx > 0 ==> forall|i: int, j: int|
                0 <= i < 12 && 0 <= j < 8 && !(i == o && j == w)
                    ==> #[trigger] b.positive_bin_array_bitmap[i][j]
                    == a.positive_bin_array_bitmap[i][j]
            &&& idx < 0 ==> forall|i: int, j: int|
                0 <= i < 12 && 0 <= j < 8 && !(i == o && j == w)
                    ==> #[trigger] b.negative_bin_array_bitmap[i][j]
                    == a.negative_bin_array_bitmap[i][j]
        }),
{
    let m = if idx > 0 { idx } else { -(idx + 1) };
    let o = m / 512 - 1;
    let w = (m % 512) / 64;
    lemma_word_after_flip(a, b, idx, idx > 0, o, w);
    if idx > 0 {
        assert forall|i: int, j: int| 0 <= i < 12 && 0 <= j < 8 && !(i == o && j == w) implies
            #[trigger] b.positive_bin_array_bitmap[i][j] == a.positive_bin_array_bitmap[i][j] by {
            lemma_word_after_flip(a, b, idx, true, i, j);
        }
        assert forall|i: int| 0 <= i < 12 implies #[trigger] b.negative_bin_array_bitmap[i]
            == a.negative_bin_array_bitmap[i] by {
            assert forall|j: int| 0 <= j < 8 implies #[trigger] b.negative_bin_array_bitmap[i][j]
                == a.negative_bin_array_bitmap[i][j] by {
                lemma_word_after_flip(a, b, idx, false, i, j);
            }
            assert(b.negative_bin_array_bitmap[i] =~= a.negative_bin_array_bitmap[i]);
        }
        assert(b.negative_bin_array_bitmap =~= a.negative_bin_array_bitmap);
    } else {
        assert forall|i: int, j: int| 0 <= i < 12 && 0 <= j < 8 && !(i == o && j == w) implies
            #[trigger] b.negative_bin_array_bitmap[i][j] == a.negative_bin_array_bitmap[i][j] by {
            lemma_word_after_flip(a, b, idx, false, i, j);
        }
        assert forall|i: int| 0 <= i < 12 implies #[trigger] b.positive_bin_array_bitmap[i]
            == a.positive_bin_array_bitmap[i] by {
            assert forall|j: int| 0 <= j < 8 implies #[trigger] b.positive_bin_array_bitmap[i][j]
                == a.positive_bin_array_bitmap[i][j] by {
                lemma_word_after_flip(a, b, idx, true, i, j);
            }
            assert(b.positive_bin_array_bitmap[i] =~= a.positive_bin_array_bitmap[i]);
        }
        assert(b.positive_bin_array_bitmap =~= a.positive_bin_array_bitmap);
    }
}

/// The offsets that `get_bitmap_offset` (`o`) and `bin_array_offset_in_bitmap`
/// (`b`) hand back locate the index: `idx = 512 * (o + 1) + b` with
/// `b < 512` on the positive side, `-(idx + 1) = 512 * (o + 1) + b` on the
/// negative side; inside the pair's own range `o` is `usize::MAX`, and `b` the
/// distance from the range's middle, or `usize::MAX` for index 0.
pub proof fn lemma_offsets_locate_index(idx: int)
    requires
        i32::MIN <= idx <= i32::MAX,
    ensures
        ({
            let o = bitmap_offset_as_usize(idx);
            let b = offset_in_bitmap_as_usize(idx);
            &&& idx >= 512 ==> b < 512 && idx == 512 * (o + 1) + b
            &&& 0 < idx < 512 ==> o == usize::MAX && b == idx
            &&& idx == 0 ==> o == usize::MAX && b == usize::MAX
            &&& -512 <= idx < 0 ==> o == usize::MAX && b == -(idx + 1)
            &&& idx <= -513 ==> b < 512 && -(idx + 1) == 512 * (o + 1) + b
        }),
{
}

/// `to_bin_array_index` accepts every bitmap offset and bit of the extension,
/// and inverts the offsets: the index it builds has that bitmap offset and
/// that bit, and the sign of its side.
pub proof fn lemma_index_of_offsets(offset: int, bin_array_offset: int, is_positive: bool)
    requires
        0 <= offset < 12,
        0 <= bin_array_offset < 512,
    ensures
        to_bin_array_index_fits(offset, bin_array_offset, is_positive),
        ({
            let idx = bin_array_index_of(offset, bin_array_offset, is_positive);
            &&& (idx > 0) == is_positive
            &&& bitmap_offset_as_usize(idx) == offset
            &&& offset_in_bitmap_as_usize(idx) == bin_array_offset
        }),
{
}

/// What `iter_bitmap(start, end)` finds, among the marked set `s`:
/// - from a negative start with `start <= end`, the nearest marked index at
///   or above `start`, up to -513;
/// - from a negative start with `start > end`, the nearest marked index at
///   or below `start`, down to -6656 (nothing when `start` lies in the pair's
///   own range);
/// - from a non-negative start with `start <= end`, the nearest marked index
///   at or above `start`, up to 6655 (nothing when `start` lies in the pair's
///   own range);
/// - from a non-negative start with `start > end`, the nearest marked index
///   at or below `start`, down to 512.
pub proof fn lemma_iter_result_meaning(s: Set<int>, start: int, end: int, r: Option<i32>)
    requires
        is_iter_bitmap_result(s, start, end, r),
    ensures
        (start < 0 && start <= end) ==> (match r {
            Some(v) => start <= v <= -513 && s.contains(v as int) && (forall|k: int|
                start <= k < v ==> !#[trigger] s.contains(k)),
            None => forall|k: int| start <= k <= -513 ==> !#[trigger] s.contains(k),
        }),
        (start < 0 && start > end && start > -513) ==> r is None,
        (start < 0 && start > end && start <= -513) ==> (match r {
            Some(v) => -6656 <= v <= start && s.contains(v as int) && (forall|k: int|
                v < k <= start ==> !#[trigger] s.contains(k)),
            None => forall|k: int| -6656 <= k <= start ==> !#[trigger] s.contains(k),
        }),
        (start >= 0 && start <= end && start < 512) ==> r is None,
        (start >= 0 && start <= end && start >= 512) ==> (match r {
            Some(v) => start <= v <= 6655 && s.contains(v as int) && (forall|k: int|
                start <= k < v ==> !#[trigger] s.contains(k)),
            None => forall|k: int| start <= k <= 6655 ==> !#[trigger] s.contains(k),
        }),
        (start >= 0 && start > end) ==> (match r {
            Some(v) => 512 <= v <= start && s.contains(v as int) && (forall|k: int|
                v < k <= start ==> !#[trigger] s.contains(k)),
            None => forall|k: int| 512 <= k <= start ==> !#[trigger] s.contains(k),
        }),
{
}

/// What the search of `next_bin_array_index_with_liquidity` finds, among the
/// marked set `s`: a swap for y takes the nearest marked index at or below
/// `start` (down to 512, or to -6656), a swap for x the nearest at or above
/// it (up to 6655, or to -513); a start inside the pair's own range finds
/// nothing.
pub proof fn lemma_next_result_meaning(s: Set<int>, swap_for_y: bool, start: int, r: Option<i32>)
    requires
        next_search_finds(s, swap_for_y, start, r),
    ensures
        (-513 < start < 512) ==> r is None,
        (start >= 512 && swap_for_y) ==> (match r {
            Some(v) => 512 <= v <= start && s.contains(v as int) && (forall|k: int|
                v < k <= start ==> !#[trigger] s.contains(k)),
            None => forall|k: int| 512 <= k <= start ==> !#[trigger] s.contains(k),
        }),
        (start >= 512 && !swap_for_y) ==> (match r {
            Some(v) => start <= v <= 6655 && s.contains(v as int) && (forall|k: int|
                start <= k < v ==> !#[trigger] s.contains(k)),
            None => forall|k: int| start <= k <= 6655 ==> !#[trigger] s.contains(k),
        }),
        (start <= -513 && swap_for_y) ==> (match r {
            Some(v) => -6656 <= v <= start && s.contains(v as int) && (forall|k: int|
                v < k <= start ==> !#[trigger] s.contains(k)),
            None => forall|k: int| -6656 <= k <= start ==> !#[trigger] s.contains(k),
        }),
        (start <= -513 && !swap_for_y) ==> (match r {
            Some(v) => start <= v <= -513 && s.contains(v as int) && (forall|k: int|
                start <= k < v ==> !#[trigger] s.contains(k)),
            None => forall|k: int| start <= k <= -513 ==> !#[trigger] s.contains(k),
        }),
{
}

/// When the search finds nothing, a swap for y from the positive side and a
/// swap for x from the negative side land on the edge of the pair's own range
/// next to the side, 511 or -512; the other two report that no bin array with
/// liquidity can be found.
pub proof fn lemma_next_fallback_meaning(swap_for_y: bool, start: int)
    ensures
        next_falls_back_inside(swap_for_y, start) <==> ((start > 0 && swap_for_y) || (start <= 0
            && !swap_for_y)),
        start > 0 ==> inner_boundary(start) == 511,
        start <= 0 ==> inner_boundary(start) == -512,
{
}

} // verus!
