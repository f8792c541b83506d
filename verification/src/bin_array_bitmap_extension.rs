//! The bitmap extension: bin arrays with index in `[512, 6655]` are tracked
//! by `positive_bin_array_bitmap`, those with index in `[-6656, -513]` by
//! `negative_bin_array_bitmap`, twelve 512-bit bitmaps on each side.
use vstd::prelude::*;
use crate::constants::{BIN_ARRAY_BITMAP_SIZE, EXTENSION_BINARRAY_BITMAP_SIZE};
use crate::errors::LBError;
use crate::u512;
use crate::u512::{
    one, u512_bit, u512_bitxor, u512_is_zero, u512_leading_zeros, u512_shl, u512_shr,
    u512_trailing_zeros, zero,
};

verus! {

// ---------------------------------------------------------------------------
// The index arithmetic, as mathematics.
// ---------------------------------------------------------------------------

/// Which of the twelve bitmaps of its side holds the bin array `idx`. On the
/// positive side the first bitmap starts at index 512; on the negative side
/// it starts at index -513 and runs downwards. Indices of the pair's own
/// range give -1 (for 0, Rust's division of -1 by 512 truncates towards
/// zero).
pub open spec fn bitmap_offset_of(idx: int) -> int {
    if idx > 0 {
        idx / 512 - 1
    } else if idx == 0 {
        -1
    } else {
        (-(idx + 1)) / 512 - 1
    }
}

/// The bit that stands for the bin array `idx` inside its bitmap (for 0,
/// Rust's remainder of -1 by 512, which is -1).
pub open spec fn offset_in_bitmap_of(idx: int) -> int {
    if idx > 0 {
        idx % 512
    } else if idx == 0 {
        -1
    } else {
        (-(idx + 1)) % 512
    }
}

/// The bin array index that bit `bin_array_offset` of bitmap `offset` stands
/// for, on the positive side or on the negative side.
pub open spec fn bin_array_index_of(offset: int, bin_array_offset: int, is_positive: bool) -> int {
    if is_positive {
        (offset + 1) * 512 + bin_array_offset
    } else {
        -((offset + 1) * 512 + bin_array_offset) - 1
    }
}

/// The `i32` arithmetic of `to_bin_array_index` on the cast offset `offset`
/// and the cast bit `bin_array_offset` stays in range.
pub open spec fn to_bin_array_index_fits(offset: int, bin_array_offset: int, is_positive: bool) -> bool {
    &&& offset + 1 <= i32::MAX
    &&& i32::MIN <= (offset + 1) * 512 <= i32::MAX
    &&& i32::MIN <= (offset + 1) * 512 + bin_array_offset <= i32::MAX
    &&& !is_positive ==> (offset + 1) * 512 + bin_array_offset != i32::MIN
}

/// The bin array indices that the positive bitmaps track.
pub open spec fn in_positive_extension(idx: int) -> bool {
    512 <= idx <= 6655
}

/// The bin array indices that the negative bitmaps track.
pub open spec fn in_negative_extension(idx: int) -> bool {
    -6656 <= idx <= -513
}

/// The bin array indices that the extension tracks.
pub open spec fn in_extension(idx: int) -> bool {
    in_positive_extension(idx) || in_negative_extension(idx)
}

/// The offset that `get_bitmap_offset` hands back: the bitmap's offset, or,
/// for an index of the internal range (offset -1), that offset cast to
/// `usize`.
pub open spec fn bitmap_offset_as_usize(idx: int) -> usize {
    if bitmap_offset_of(idx) < 0 {
        usize::MAX
    } else {
        bitmap_offset_of(idx) as usize
    }
}

/// The bit that `bin_array_offset_in_bitmap` hands back: the bit, or, for
/// index 0 (bit -1), that bit cast to `usize`.
pub open spec fn offset_in_bitmap_as_usize(idx: int) -> usize {
    if offset_in_bitmap_of(idx) < 0 {
        usize::MAX
    } else {
        offset_in_bitmap_of(idx) as usize
    }
}

/// `s` with the membership of `idx` reversed.
pub open spec fn toggled(s: Set<int>, idx: int) -> Set<int> {
    if s.contains(idx) {
        s.remove(idx)
    } else {
        s.insert(idx)
    }
}

/// `r` is the lowest member of `s` in `[lo, hi]`, or `None` when there is
/// none.
pub open spec fn lowest_in(s: Set<int>, lo: int, hi: int, r: Option<i32>) -> bool {
    match r {
        Some(v) => {
            &&& lo <= v <= hi
            &&& s.contains(v as int)
            &&& forall|k: int| lo <= k < v ==> !#[trigger] s.contains(k)
        },
        None => forall|k: int| lo <= k <= hi ==> !#[trigger] s.contains(k),
    }
}

/// `r` is the highest member of `s` in `[lo, hi]`, or `None` when there is
/// none.
pub open spec fn highest_in(s: Set<int>, lo: int, hi: int, r: Option<i32>) -> bool {
    match r {
        Some(v) => {
            &&& lo <= v <= hi
            &&& s.contains(v as int)
            &&& forall|k: int| v < k <= hi ==> !#[trigger] s.contains(k)
        },
        None => forall|k: int| lo <= k <= hi ==> !#[trigger] s.contains(k),
    }
}

/// The searches that `iter_bitmap` can carry out: the start of a search
/// towards index zero on the negative side, and the start of a search
/// towards index zero on the positive side, must be tracked indices.
pub open spec fn iter_bitmap_accepts(start: int, end: int) -> bool {
    &&& (start < 0 && start <= end) ==> in_negative_extension(start)
    &&& (start >= 0 && start > end) ==> in_positive_extension(start)
}

/// What `iter_bitmap(start, end)` finds among the marked indices `s`. The
/// sign of `start` picks the side and `start <= end` the direction (upwards
/// when it holds); the search begins at `start` and runs to the end of that
/// side's bitmaps, whatever `end` is. A search that begins in the pair's own
/// range finds nothing.
pub open spec fn is_iter_bitmap_result(s: Set<int>, start: int, end: int, r: Option<i32>) -> bool {
    if start < 0 {
        if start <= end {
            lowest_in(s, start, -513, r)
        } else if start > -513 {
            r is None
        } else {
            highest_in(s, -6656, start, r)
        }
    } else {
        if start <= end {
            if start < 512 {
                r is None
            } else {
                lowest_in(s, start, 6655, r)
            }
        } else {
            highest_in(s, 512, start, r)
        }
    }
}

/// The bit that stands for index `idx` in bitmap `offset` of the given side,
/// when `idx` lies in that bitmap.
pub open spec fn bit_in_bitmap(idx: int, offset: int, is_positive: bool) -> int {
    if is_positive {
        idx - (offset + 1) * 512
    } else {
        -(idx + 1) - (offset + 1) * 512
    }
}

/// The indices that bitmap `offset` of the given side tracks.
pub open spec fn in_bitmap(idx: int, offset: int, is_positive: bool) -> bool {
    0 <= bit_in_bitmap(idx, offset, is_positive) < 512
}

/// What the search of `next_bin_array_index_with_liquidity` finds among the
/// marked indices `s`, as `iter_bitmap` carries it out: from `start`,
/// downwards when `swap_for_y`, upwards otherwise, within the extension side
/// of `start`, up to the end of that side when moving away from index zero
/// and up to the pair's own range when moving towards it. A start inside the
/// pair's own range finds nothing.
pub open spec fn next_search_finds(s: Set<int>, swap_for_y: bool, start: int, r: Option<i32>) -> bool {
    if start > 0 {
        if start < 512 {
            r is None
        } else if swap_for_y {
            highest_in(s, 512, start, r)
        } else {
            lowest_in(s, start, 6655, r)
        }
    } else {
        if start > -513 {
            r is None
        } else if swap_for_y {
            highest_in(s, -6656, start, r)
        } else {
            lowest_in(s, start, -513, r)
        }
    }
}

/// When the search finds nothing, whether the answer is the first bin array
/// of the pair's own range in the direction of the search (`true`) or the
/// error that there is no bin array with liquidity (`false`): it is the
/// former exactly when the search ran towards index zero.
pub open spec fn next_falls_back_inside(swap_for_y: bool, start: int) -> bool {
    (start > 0) == swap_for_y
}

/// The first bin array of the pair's own range next to the side of `start`.
pub open spec fn inner_boundary(start: int) -> int {
    if start > 0 {
        511
    } else {
        -512
    }
}

/// Every tracked index is the composition of its bitmap offset and its bit.
pub proof fn lemma_index_decomposes(idx: int)
    requires
        in_extension(idx),
    ensures
        0 <= bitmap_offset_of(idx) < 12,
        0 <= offset_in_bitmap_of(idx) < 512,
        bin_array_index_of(bitmap_offset_of(idx), offset_in_bitmap_of(idx), idx > 0) == idx,
{
}

/// Each bit of each bitmap stands for one tracked index, whose bitmap offset
/// and bit are the ones it came from.
pub proof fn lemma_index_composes(offset: int, bin_array_offset: int, is_positive: bool)
    requires
        0 <= offset < 12,
        0 <= bin_array_offset < 512,
    ensures
        ({
            let idx = bin_array_index_of(offset, bin_array_offset, is_positive);
            &&& is_positive ==> in_positive_extension(idx)
            &&& !is_positive ==> in_negative_extension(idx)
            &&& (idx > 0) == is_positive
            &&& bitmap_offset_of(idx) == offset
            &&& offset_in_bitmap_of(idx) == bin_array_offset
        }),
{
}

// ---------------------------------------------------------------------------
// The extension itself.
// ---------------------------------------------------------------------------

/// Which bin arrays outside the pair's own bitmap hold liquidity.
pub struct BinArrayBitmapExtension {
    /// The address of the pair that owns the extension, as its 32 bytes.
    pub lb_pair: [u8; 32],
    /// Packed initialized bin array state for start_bin_index is positive
    pub positive_bin_array_bitmap: [[u64; 8]; EXTENSION_BINARRAY_BITMAP_SIZE],
    /// Packed initialized bin array state for start_bin_index is negative
    pub negative_bin_array_bitmap: [[u64; 8]; EXTENSION_BINARRAY_BITMAP_SIZE],
}

impl BinArrayBitmapExtension {
    /// The bitmap of the given side at the given offset.
    pub open spec fn bitmap_at(&self, is_positive: bool, offset: int) -> [u64; 8] {
        if is_positive {
            self.positive_bin_array_bitmap[offset]
        } else {
            self.negative_bin_array_bitmap[offset]
        }
    }

    /// Whether the bin array `idx` is marked as holding liquidity.
    pub open spec fn has_liquidity(&self, idx: int) -> bool {
        in_extension(idx) && u512::bit_at(
            self.bitmap_at(idx > 0, bitmap_offset_of(idx)),
            offset_in_bitmap_of(idx),
        )
    }

    /// The bit that stands for an index is the bit it came from.
    pub proof fn lemma_bit_of_index(&self, offset: int, bin_array_offset: int, is_positive: bool)
        requires
            0 <= offset < 12,
            0 <= bin_array_offset < 512,
        ensures
            self@.contains(bin_array_index_of(offset, bin_array_offset, is_positive)) == u512::bit_at(
                self.bitmap_at(is_positive, offset),
                bin_array_offset,
            ),
    {
        lemma_index_composes(offset, bin_array_offset, is_positive);
    }

    /// An index of bitmap `offset` is marked exactly when its bit is set.
    pub proof fn lemma_liquidity_in_bitmap(&self, idx: int, offset: int, is_positive: bool)
        requires
            0 <= offset < 12,
            in_bitmap(idx, offset, is_positive),
        ensures
            idx == bin_array_index_of(offset, bit_in_bitmap(idx, offset, is_positive), is_positive),
            self@.contains(idx) == u512::bit_at(
                self.bitmap_at(is_positive, offset),
                bit_in_bitmap(idx, offset, is_positive),
            ),
    {
        self.lemma_bit_of_index(offset, bit_in_bitmap(idx, offset, is_positive), is_positive);
    }
}

impl View for BinArrayBitmapExtension {
    type V = Set<int>;

    /// The set of bin array indices marked as holding liquidity.
    open spec fn view(&self) -> Set<int> {
        Set::new(|idx: int| self.has_liquidity(idx))
    }
}

impl Default for BinArrayBitmapExtension {
    #[inline]
    fn default() -> (r: BinArrayBitmapExtension)
        ensures
            r@ == Set::<int>::empty(),
            forall|i: int| 0 <= i < 32 ==> r.lb_pair[i] == 0,
    {
        let z = zero();
        let r = BinArrayBitmapExtension {
            lb_pair: [0u8; 32],
            positive_bin_array_bitmap: [z; EXTENSION_BINARRAY_BITMAP_SIZE],
            negative_bin_array_bitmap: [z; EXTENSION_BINARRAY_BITMAP_SIZE],
        };
        assert(r@ =~= Set::<int>::empty());
        r
    }
}

impl BinArrayBitmapExtension {
    /// Records the owning pair and clears every bitmap.
    pub fn initialize(&mut self, lb_pair: [u8; 32])
        ensures
            final(self).lb_pair == lb_pair,
            final(self)@ == Set::<int>::empty(),
    {
        self.lb_pair = lb_pair;
        let z = zero();
        self.positive_bin_array_bitmap = [z; EXTENSION_BINARRAY_BITMAP_SIZE];
        self.negative_bin_array_bitmap = [z; EXTENSION_BINARRAY_BITMAP_SIZE];
        assert(self@ =~= Set::<int>::empty());
    }

    /// The bitmap that holds `bin_array_index`: bin array index starts from
    /// 512 on the positive side and from -513 on the negative side. An index
    /// of the pair's own range gives offset -1, which comes back cast to
    /// `usize`.
    pub fn get_bitmap_offset(bin_array_index: i32) -> (r: Result<usize, LBError>)
        ensures
            r == Ok::<usize, LBError>(bitmap_offset_as_usize(bin_array_index as int)),
    {
        let offset: i32 = if bin_array_index > 0 {
            bin_array_index / BIN_ARRAY_BITMAP_SIZE - 1
        } else {
            -(bin_array_index + 1) / BIN_ARRAY_BITMAP_SIZE - 1
        };
        if offset < 0 {
            Ok(usize::MAX)
        } else {
            Ok(offset as usize)
        }
    }

    /// According to the given bin array index, calculate its corresponding
    /// binarray and then find the bitmap it belongs to.
    pub fn get_bitmap(&self, bin_array_index: i32) -> (r: Result<(usize, [u64; 8]), LBError>)
        requires
            in_extension(bin_array_index as int),
        ensures
            r == Ok::<(usize, [u64; 8]), LBError>(
                (
                    bitmap_offset_of(bin_array_index as int) as usize,
                    self.bitmap_at(bin_array_index > 0, bitmap_offset_of(bin_array_index as int)),
                ),
            ),
    {
        let offset = Self::get_bitmap_offset(bin_array_index)?;
        if bin_array_index < 0 {
            Ok((offset, self.negative_bin_array_bitmap[offset]))
        } else {
            Ok((offset, self.positive_bin_array_bitmap[offset]))
        }
    }

    /// The bit that stands for `bin_array_index` inside its bitmap.
    pub fn bin_array_offset_in_bitmap(bin_array_index: i32) -> (r: Result<usize, LBError>)
        ensures
            r == Ok::<usize, LBError>(offset_in_bitmap_as_usize(bin_array_index as int)),
    {
        let rem = if bin_array_index > 0 {
            bin_array_index.checked_rem(BIN_ARRAY_BITMAP_SIZE)
        } else {
            (-(bin_array_index + 1)).checked_rem(BIN_ARRAY_BITMAP_SIZE)
        };
        proof {
            let x: int = if bin_array_index > 0 { bin_array_index as int } else { -(bin_array_index + 1) };
            if x >= 0 {
                assert(rem == Some((x % 512) as i32));
            } else {
                assert(x == -1);
                assert(rem == Some(-1i32));
            }
        }
        match rem {
            Some(v) => {
                if v < 0 {
                    Ok(usize::MAX)
                } else {
                    Ok(v as usize)
                }
            },
            None => Err(LBError::MathOverflow),
        }
    }

    /// The bin array index that bit `bin_array_offset` of bitmap `offset`
    /// stands for, on the given side. Both arguments are first cast to `i32`;
    /// the arithmetic on the casts must not overflow.
    pub fn to_bin_array_index(offset: usize, bin_array_offset: usize, is_positive: bool) -> (r:
        Result<i32, LBError>)
        requires
            to_bin_array_index_fits(
                offset as i32 as int,
                bin_array_offset as i32 as int,
                is_positive,
            ),
        ensures
            r == Ok::<i32, LBError>(
                bin_array_index_of(
                    offset as i32 as int,
                    bin_array_offset as i32 as int,
                    is_positive,
                ) as i32,
            ),
    {
        let offset = offset as i32;
        let bin_array_offset = bin_array_offset as i32;
        if is_positive {
            Ok((offset + 1) * BIN_ARRAY_BITMAP_SIZE + bin_array_offset)
        } else {
            Ok(-((offset + 1) * BIN_ARRAY_BITMAP_SIZE + bin_array_offset) - 1)
        }
    }

    /// Flip the value of bin in the bitmap.
    pub fn flip_bin_array_bit(&mut self, bin_array_index: i32) -> (r: Result<(), LBError>)
        requires
            in_extension(bin_array_index as int),
        ensures
            r == Ok::<(), LBError>(()),
            final(self)@ == toggled(old(self)@, bin_array_index as int),
            final(self).lb_pair == old(self).lb_pair,
    {
        let ghost idx = bin_array_index as int;
        let (offset, bin_array_bitmap) = self.get_bitmap(bin_array_index).unwrap();
        let bin_array_offset_in_bitmap = Self::bin_array_offset_in_bitmap(bin_array_index).unwrap();
        let mask = u512_shl(one(), bin_array_offset_in_bitmap);
        let flipped = u512_bitxor(bin_array_bitmap, mask);
        proof {
            lemma_index_decomposes(idx);
        }
        if bin_array_index < 0 {
            self.negative_bin_array_bitmap[offset] = flipped;
        } else {
            self.positive_bin_array_bitmap[offset] = flipped;
        }
        proof {
            let old_s = old(self)@;
            let new_s = self@;
            assert forall|j: int| #[trigger] new_s.contains(j) == toggled(old_s, idx).contains(j) by {
                if in_extension(j) {
                    lemma_index_decomposes(j);
                    let bj = offset_in_bitmap_of(j);
                    if (j > 0) == (idx > 0) && bitmap_offset_of(j) == offset {
                        assert(u512::bit_at(mask, bj) == (bj == offset_in_bitmap_of(idx)));
                        assert((bj == offset_in_bitmap_of(idx)) == (j == idx));
                    }
                }
            }
            assert(new_s =~= toggled(old_s, idx));
        }
        Ok(())
    }

    /// Whether the bin array `bin_array_index` is marked as holding liquidity.
    pub fn bit(&self, bin_array_index: i32) -> (r: Result<bool, LBError>)
        requires
            in_extension(bin_array_index as int),
        ensures
            r == Ok::<bool, LBError>(self@.contains(bin_array_index as int)),
    {
        let (_, bin_array_bitmap) = self.get_bitmap(bin_array_index)?;
        let bin_array_offset_in_bitmap = Self::bin_array_offset_in_bitmap(bin_array_index)?;
        return Ok(u512_bit(bin_array_bitmap, bin_array_offset_in_bitmap));
    }

    /// The nearest bin array with liquidity from `start_index` on, within the
    /// extension side of `start_index`: searching upwards when
    /// `start_index <= end_index` and downwards otherwise, up to the end of
    /// that side in the direction of the search (the pair's own range or the
    /// outermost bitmap). `end_index` only picks the direction.
    pub fn iter_bitmap(&self, start_index: i32, end_index: i32) -> (r: Result<Option<i32>, LBError>)
        requires
            iter_bitmap_accepts(start_index as int, end_index as int),
        ensures
            r matches Ok(res) && is_iter_bitmap_result(
                self@,
                start_index as int,
                end_index as int,
                res,
            ),
    {
        let offset: usize = Self::get_bitmap_offset(start_index)?;
        let bin_array_offset = Self::bin_array_offset_in_bitmap(start_index)?;
        let ghost s = self@;
        let ghost start = start_index as int;
        proof {
            if in_extension(start) {
                lemma_index_decomposes(start);
            }
        }
        if start_index < 0 {
            // iter in negative_bin_array_bitmap
            if start_index <= end_index {
                let mut j: usize = offset + 1;
                while j > 0
                    invariant
                        start_index <= end_index,
                        in_negative_extension(start),
                        start == start_index as int,
                        s == self@,
                        offset as int == bitmap_offset_of(start),
                        bin_array_offset as int == offset_in_bitmap_of(start),
                        offset < 12,
                        bin_array_offset < 512,
                        j <= offset + 1,
                        forall|k: int| start <= k < -(j + 1) * 512 ==> !#[trigger] s.contains(k),
                    decreases j,
                {
                    let i = j - 1;
                    let mut bin_array_bitmap = self.negative_bin_array_bitmap[i];
                    let ghost stored = bin_array_bitmap;
                    if i == offset {
                        bin_array_bitmap = u512_shl(
                            bin_array_bitmap,
                            BIN_ARRAY_BITMAP_SIZE as usize - bin_array_offset - 1,
                        );
                        if u512_is_zero(bin_array_bitmap) {
                            proof {
                                assert forall|k: int| start <= k < -(i + 1) * 512 implies !#[trigger] s.contains(k) by {
                                    if k >= -(j + 1) * 512 {
                                        self.lemma_liquidity_in_bitmap(k, i as int, false);
                                        let b = bit_in_bitmap(k, i as int, false);
                                        assert(!u512::bit_at(bin_array_bitmap, b + (511 - bin_array_offset)));
                                    }
                                }
                            }
                            j = i;
                            continue;
                        }
                        let lz = u512_leading_zeros(bin_array_bitmap);
                        proof {
                            u512::lemma_highest_at_or_below(stored, bin_array_bitmap, bin_array_offset as int, lz as int);
                        }
                        let bin_array_offset_in_bitmap = bin_array_offset - lz;
                        let v = BinArrayBitmapExtension::to_bin_array_index(
                            i,
                            bin_array_offset_in_bitmap,
                            false,
                        )?;
                        proof {
                            self.lemma_bit_of_index(i as int, bin_array_offset_in_bitmap as int, false);
                            assert forall|k: int| start <= k < v implies !#[trigger] s.contains(k) by {
                                self.lemma_liquidity_in_bitmap(k, i as int, false);
                            }
                        }
                        return Ok(Some(v));
                    }
                    if u512_is_zero(bin_array_bitmap) {
                        proof {
                            assert forall|k: int| start <= k < -(i + 1) * 512 implies !#[trigger] s.contains(k) by {
                                if k >= -(j + 1) * 512 {
                                    self.lemma_liquidity_in_bitmap(k, i as int, false);
                                }
                            }
                        }
                        j = i;
                        continue;
                    }
                    let lz = u512_leading_zeros(bin_array_bitmap);
                    proof {
                        if lz == 512 {
                            assert(u512::all_clear(bin_array_bitmap));
                        }
                    }
                    let bin_array_offset_in_bitmap = BIN_ARRAY_BITMAP_SIZE as usize - lz - 1;
                    let v = BinArrayBitmapExtension::to_bin_array_index(
                        i,
                        bin_array_offset_in_bitmap,
                        false,
                    )?;
                    proof {
                        self.lemma_bit_of_index(i as int, bin_array_offset_in_bitmap as int, false);
                        assert forall|k: int| start <= k < v implies !#[trigger] s.contains(k) by {
                            if k >= -(j + 1) * 512 {
                                self.lemma_liquidity_in_bitmap(k, i as int, false);
                            }
                        }
                    }
                    return Ok(Some(v));
                }
            } else {
                let mut i: usize = offset;
                while i < EXTENSION_BINARRAY_BITMAP_SIZE
                    invariant
                        start_index > end_index,
                        start < 0,
                        start == start_index as int,
                        s == self@,
                        offset == bitmap_offset_as_usize(start),
                        bin_array_offset == offset_in_bitmap_as_usize(start),
                        offset < 12 ==> in_negative_extension(start),
                        offset >= 12 ==> i == offset,
                        offset < 12 ==> offset <= i <= 12,
                        offset < i ==> forall|k: int|
                            -(i + 1) * 512 <= k <= start ==> !#[trigger] s.contains(k),
                    decreases 12 - i,
                {
                    let mut bin_array_bitmap = self.negative_bin_array_bitmap[i];
                    let ghost stored = bin_array_bitmap;
                    if i == offset {
                        bin_array_bitmap = u512_shr(bin_array_bitmap, bin_array_offset);
                        if u512_is_zero(bin_array_bitmap) {
                            proof {
                                assert forall|k: int| -(i + 2) * 512 <= k <= start implies !#[trigger] s.contains(k) by {
                                    self.lemma_liquidity_in_bitmap(k, i as int, false);
                                    let b = bit_in_bitmap(k, i as int, false);
                                    assert(!u512::bit_at(bin_array_bitmap, b - bin_array_offset));
                                }
                            }
                            i = i + 1;
                            continue;
                        }
                        let tz = u512_trailing_zeros(bin_array_bitmap);
                        proof {
                            u512::lemma_lowest_at_or_above(stored, bin_array_bitmap, bin_array_offset as int, tz as int);
                        }
                        let bin_array_offset_in_bitmap = bin_array_offset + tz;
                        let v = BinArrayBitmapExtension::to_bin_array_index(
                            i,
                            bin_array_offset_in_bitmap,
                            false,
                        )?;
                        proof {
                            self.lemma_bit_of_index(i as int, bin_array_offset_in_bitmap as int, false);
                            assert forall|k: int| v < k <= start implies !#[trigger] s.contains(k) by {
                                self.lemma_liquidity_in_bitmap(k, i as int, false);
                            }
                        }
                        return Ok(Some(v));
                    }
                    if u512_is_zero(bin_array_bitmap) {
                        proof {
                            assert forall|k: int| -(i + 2) * 512 <= k <= start implies !#[trigger] s.contains(k) by {
                                if k < -(i + 1) * 512 {
                                    self.lemma_liquidity_in_bitmap(k, i as int, false);
                                }
                            }
                        }
                        i = i + 1;
                        continue;
                    }
                    let tz = u512_trailing_zeros(bin_array_bitmap);
                    proof {
                        if tz == 512 {
                            assert(u512::all_clear(bin_array_bitmap));
                        }
                    }
                    let bin_array_offset_in_bitmap = tz;
                    let v = BinArrayBitmapExtension::to_bin_array_index(
                        i,
                        bin_array_offset_in_bitmap,
                        false,
                    )?;
                    proof {
                        self.lemma_bit_of_index(i as int, bin_array_offset_in_bitmap as int, false);
                        assert forall|k: int| v < k <= start implies !#[trigger] s.contains(k) by {
                            if k < -(i + 1) * 512 {
                                self.lemma_liquidity_in_bitmap(k, i as int, false);
                            }
                        }
                    }
                    return Ok(Some(v));
                }
            }
        } else {
            // iter in possitive_bin_array_bitmap
            if start_index <= end_index {
                let mut i: usize = offset;
                while i < EXTENSION_BINARRAY_BITMAP_SIZE
                    invariant
                        start_index <= end_index,
                        start >= 0,
                        start == start_index as int,
                        s == self@,
                        offset == bitmap_offset_as_usize(start),
                        bin_array_offset == offset_in_bitmap_as_usize(start),
                        offset < 12 ==> in_positive_extension(start),
                        offset >= 12 ==> i == offset,
                        offset < 12 ==> offset <= i <= 12,
                        offset < i ==> forall|k: int|
                            start <= k < (i + 1) * 512 ==> !#[trigger] s.contains(k),
                    decreases 12 - i,
                {
                    let mut bin_array_bitmap = self.positive_bin_array_bitmap[i];
                    let ghost stored = bin_array_bitmap;
                    if i == offset {
                        bin_array_bitmap = u512_shr(bin_array_bitmap, bin_array_offset);
                        if u512_is_zero(bin_array_bitmap) {
                            proof {
                                assert forall|k: int| start <= k < (i + 2) * 512 implies !#[trigger] s.contains(k) by {
                                    self.lemma_liquidity_in_bitmap(k, i as int, true);
                                    let b = bit_in_bitmap(k, i as int, true);
                                    assert(!u512::bit_at(bin_array_bitmap, b - bin_array_offset));
                                }
                            }
                            i = i + 1;
                            continue;
                        }
                        let tz = u512_trailing_zeros(bin_array_bitmap);
                        proof {
                            u512::lemma_lowest_at_or_above(stored, bin_array_bitmap, bin_array_offset as int, tz as int);
                        }
                        let bin_array_offset_in_bitmap = bin_array_offset + tz;
                        let v = BinArrayBitmapExtension::to_bin_array_index(
                            i,
                            bin_array_offset_in_bitmap,
                            true,
                        )?;
                        proof {
                            self.lemma_bit_of_index(i as int, bin_array_offset_in_bitmap as int, true);
                            assert forall|k: int| start <= k < v implies !#[trigger] s.contains(k) by {
                                self.lemma_liquidity_in_bitmap(k, i as int, true);
                            }
                        }
                        return Ok(Some(v));
                    }
                    if u512_is_zero(bin_array_bitmap) {
                        proof {
                            assert forall|k: int| start <= k < (i + 2) * 512 implies !#[trigger] s.contains(k) by {
                                if k >= (i + 1) * 512 {
                                    self.lemma_liquidity_in_bitmap(k, i as int, true);
                                }
                            }
                        }
                        i = i + 1;
                        continue;
                    }
                    let tz = u512_trailing_zeros(bin_array_bitmap);
                    proof {
                        if tz == 512 {
                            assert(u512::all_clear(bin_array_bitmap));
                        }
                    }
                    let bin_array_offset_in_bitmap = tz;
                    let v = BinArrayBitmapExtension::to_bin_array_index(
                        i,
                        bin_array_offset_in_bitmap,
                        true,
                    )?;
                    proof {
                        self.lemma_bit_of_index(i as int, bin_array_offset_in_bitmap as int, true);
                        assert forall|k: int| start <= k < v implies !#[trigger] s.contains(k) by {
                            if k >= (i + 1) * 512 {
                                self.lemma_liquidity_in_bitmap(k, i as int, true);
                            }
                        }
                    }
                    return Ok(Some(v));
                }
            } else {
                let mut j: usize = offset + 1;
                while j > 0
                    invariant
                        start_index > end_index,
                        in_positive_extension(start),
                        start == start_index as int,
                        s == self@,
                        offset as int == bitmap_offset_of(start),
                        bin_array_offset as int == offset_in_bitmap_of(start),
                        offset < 12,
                        bin_array_offset < 512,
                        j <= offset + 1,
                        forall|k: int| (j + 1) * 512 <= k <= start ==> !#[trigger] s.contains(k),
                    decreases j,
                {
                    let i = j - 1;
                    let mut bin_array_bitmap = self.positive_bin_array_bitmap[i];
                    let ghost stored = bin_array_bitmap;
                    if i == offset {
                        bin_array_bitmap = u512_shl(
                            bin_array_bitmap,
                            BIN_ARRAY_BITMAP_SIZE as usize - bin_array_offset - 1,
                        );
                        if u512_is_zero(bin_array_bitmap) {
                            proof {
                                assert forall|k: int| (i + 1) * 512 <= k <= start implies !#[trigger] s.contains(k) by {
                                    self.lemma_liquidity_in_bitmap(k, i as int, true);
                                    let b = bit_in_bitmap(k, i as int, true);
                                    assert(!u512::bit_at(bin_array_bitmap, b + (511 - bin_array_offset)));
                                }
                            }
                            j = i;
                            continue;
                        }
                        let lz = u512_leading_zeros(bin_array_bitmap);
                        proof {
                            u512::lemma_highest_at_or_below(stored, bin_array_bitmap, bin_array_offset as int, lz as int);
                        }
                        let bin_array_offset_in_bitmap = bin_array_offset - lz;
                        let v = BinArrayBitmapExtension::to_bin_array_index(
                            i,
                            bin_array_offset_in_bitmap,
                            true,
                        )?;
                        proof {
                            self.lemma_bit_of_index(i as int, bin_array_offset_in_bitmap as int, true);
                            assert forall|k: int| v < k <= start implies !#[trigger] s.contains(k) by {
                                self.lemma_liquidity_in_bitmap(k, i as int, true);
                            }
                        }
                        return Ok(Some(v));
                    }
                    if u512_is_zero(bin_array_bitmap) {
                        proof {
                            assert forall|k: int| (i + 1) * 512 <= k <= start implies !#[trigger] s.contains(k) by {
                                if k < (j + 1) * 512 {
                                    self.lemma_liquidity_in_bitmap(k, i as int, true);
                                }
                            }
                        }
                        j = i;
                        continue;
                    }
                    let lz = u512_leading_zeros(bin_array_bitmap);
                    proof {
                        if lz == 512 {
                            assert(u512::all_clear(bin_array_bitmap));
                        }
                    }
                    let bin_array_offset_in_bitmap = BIN_ARRAY_BITMAP_SIZE as usize - lz - 1;
                    let v = BinArrayBitmapExtension::to_bin_array_index(
                        i,
                        bin_array_offset_in_bitmap,
                        true,
                    )?;
                    proof {
                        self.lemma_bit_of_index(i as int, bin_array_offset_in_bitmap as int, true);
                        assert forall|k: int| v < k <= start implies !#[trigger] s.contains(k) by {
                            if k < (j + 1) * 512 {
                                self.lemma_liquidity_in_bitmap(k, i as int, true);
                            }
                        }
                    }
                    return Ok(Some(v));
                }
            }
        }
        Ok(None)
    }

    /// The next bin array with liquidity for a swap in the given direction,
    /// from `start_index` on: `(index, true)` when one is found in the
    /// extension; when none is, `(511, false)` or `(-512, false)`, the edge of
    /// the pair's own range, if the search ran towards it, and otherwise the
    /// error that no bin array with liquidity can be found. A swap for y
    /// searches downwards, also from the first bin array of a side.
    pub fn next_bin_array_index_with_liquidity(&self, swap_for_y: bool, start_index: i32) -> (r:
        Result<(i32, bool), LBError>)
        requires
            -6656 <= start_index <= 6655,
            start_index != 0,
        ensures
            match r {
                Ok((id, true)) => next_search_finds(
                    self@,
                    swap_for_y,
                    start_index as int,
                    Some(id),
                ),
                Ok((id, false)) => {
                    &&& next_search_finds(self@, swap_for_y, start_index as int, None)
                    &&& next_falls_back_inside(swap_for_y, start_index as int)
                    &&& id == inner_boundary(start_index as int)
                },
                Err(e) => {
                    &&& next_search_finds(self@, swap_for_y, start_index as int, None)
                    &&& !next_falls_back_inside(swap_for_y, start_index as int)
                    &&& e == LBError::CannotFindNonZeroLiquidityBinArrayId
                },
            },
    {
        let (min_bitmap_id, max_bit_map_id) = BinArrayBitmapExtension::bitmap_range();
        if start_index > 0 {
            if swap_for_y {
                match self.iter_bitmap(start_index, BIN_ARRAY_BITMAP_SIZE - 1)? {
                    Some(value) => return Ok((value, true)),
                    None => return Ok((BIN_ARRAY_BITMAP_SIZE - 1, false)),
                }
            } else {
                match self.iter_bitmap(start_index, max_bit_map_id)? {
                    Some(value) => return Ok((value, true)),
                    None => return Err(LBError::CannotFindNonZeroLiquidityBinArrayId),
                }
            }
        } else {
            if swap_for_y {
                match self.iter_bitmap(start_index, min_bitmap_id - 1)? {
                    Some(value) => return Ok((value, true)),
                    None => return Err(LBError::CannotFindNonZeroLiquidityBinArrayId),
                }
            } else {
                match self.iter_bitmap(start_index, -BIN_ARRAY_BITMAP_SIZE - 1)? {
                    Some(value) => return Ok((value, true)),
                    None => return Ok((-BIN_ARRAY_BITMAP_SIZE, false)),
                }
            }
        }
    }

    /// The lowest and the highest bin array index that the pair can track,
    /// its own bitmap and the extension together.
    pub fn bitmap_range() -> (r: (i32, i32))
        ensures
            r == (-6656i32, 6655i32),
    {
        return (
            -BIN_ARRAY_BITMAP_SIZE * (EXTENSION_BINARRAY_BITMAP_SIZE as i32 + 1),
            BIN_ARRAY_BITMAP_SIZE * (EXTENSION_BINARRAY_BITMAP_SIZE as i32 + 1) - 1,
        );
    }
}

} // verus!
