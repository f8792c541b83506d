//! A 512-bit bitmap held as eight little-endian `u64` limbs, and the
//! operations on it that `ruint`'s `U512` carries out.
use vstd::prelude::*;
use ruint::aliases::U512;
use std::ops::BitXor;

verus! {

/// Bit `s` (`0 <= s < 64`) of the word `w`.
pub open spec fn word_bit(w: u64, s: int) -> bool {
    ((w >> (s as u64)) & 1u64) == 1u64
}

/// Bit `k` of the 512-bit number whose limbs, least significant first, are
/// `limbs`; every bit outside `[0, 512)` reads as unset.
pub open spec fn bit_at(limbs: [u64; 8], k: int) -> bool {
    0 <= k < 512 && word_bit(limbs[k / 64], k % 64)
}

/// No bit of `limbs` is set.
pub open spec fn all_clear(limbs: [u64; 8]) -> bool {
    forall|k: int| 0 <= k < 512 ==> !#[trigger] bit_at(limbs, k)
}

/// Shifts the 512-bit number left by `n` bits, dropping what moves past the
/// top (`ruint`'s `Shl<usize>` on `U512`).
///
/// Trusted: `Uint::wrapping_shl` returns the value times `2^n` modulo
/// `2^512` (zero once `n >= 512`), so bit `k` of the result is bit `k - n`
/// of the argument, and unset below `n`.
#[verifier::external_body]
pub(crate) fn u512_shl(limbs: [u64; 8], n: usize) -> (r: [u64; 8])
    ensures
        forall|k: int| 0 <= k < 512 ==> #[trigger] bit_at(r, k) == (k >= n && bit_at(limbs, k - n)),
{
    (U512::from_limbs(limbs) << n).into_limbs()
}

/// Shifts the 512-bit number right by `n` bits (`ruint`'s `Shr<usize>` on
/// `U512`).
///
/// Trusted: `Uint::wrapping_shr` returns the floor of the value divided by
/// `2^n` (zero once `n >= 512`), so bit `k` of the result is bit `k + n` of
/// the argument.
#[verifier::external_body]
pub(crate) fn u512_shr(limbs: [u64; 8], n: usize) -> (r: [u64; 8])
    ensures
        forall|k: int| 0 <= k < 512 ==> #[trigger] bit_at(r, k) == bit_at(limbs, k + n),
{
    (U512::from_limbs(limbs) >> n).into_limbs()
}

/// Bitwise exclusive or of two 512-bit numbers (`ruint`'s
/// `BitXor::bitxor` on `U512`).
///
/// Trusted: the operation xors the numbers limb by limb, so each bit of
/// the result is set exactly when the bits of the arguments differ.
#[verifier::external_body]
pub(crate) fn u512_bitxor(a: [u64; 8], b: [u64; 8]) -> (r: [u64; 8])
    ensures
        forall|k: int| 0 <= k < 512 ==> #[trigger] bit_at(r, k) == (bit_at(a, k) != bit_at(b, k)),
{
    U512::from_limbs(a).bitxor(U512::from_limbs(b)).into_limbs()
}

/// Whether the 512-bit number is zero (`ruint`'s `PartialEq` against
/// `U512::ZERO`).
///
/// Trusted: equality of two `Uint`s compares their limbs, and zero has all
/// limbs zero, so the result is true exactly when no bit is set.
#[verifier::external_body]
pub(crate) fn u512_is_zero(limbs: [u64; 8]) -> (r: bool)
    ensures
        r == all_clear(limbs),
{
    U512::from_limbs(limbs).eq(&U512::ZERO)
}

/// Number of leading zero bits of the 512-bit number (`ruint`'s
/// `Uint::leading_zeros`).
///
/// Trusted: the result is 512 for zero; otherwise bit `511 - r` is the
/// highest set bit.
#[verifier::external_body]
pub(crate) fn u512_leading_zeros(limbs: [u64; 8]) -> (r: usize)
    ensures
        r <= 512,
        forall|k: int| 512 - r <= k < 512 ==> !#[trigger] bit_at(limbs, k),
        r < 512 ==> bit_at(limbs, 511 - r),
{
    U512::from_limbs(limbs).leading_zeros()
}

/// Number of trailing zero bits of the 512-bit number (`ruint`'s
/// `Uint::trailing_zeros`).
///
/// Trusted: the result is 512 for zero; otherwise bit `r` is the lowest set
/// bit.
#[verifier::external_body]
pub(crate) fn u512_trailing_zeros(limbs: [u64; 8]) -> (r: usize)
    ensures
        r <= 512,
        forall|k: int| 0 <= k < r ==> !#[trigger] bit_at(limbs, k),
        r < 512 ==> bit_at(limbs, r as int),
{
    U512::from_limbs(limbs).trailing_zeros()
}

/// Whether bit `index` of the 512-bit number is set (`ruint`'s `Uint::bit`).
///
/// Trusted: `Uint::bit` tests bit `index % 64` of limb `index / 64`, and
/// returns false when `index >= 512`.
#[verifier::external_body]
pub(crate) fn u512_bit(limbs: [u64; 8], index: usize) -> (r: bool)
    ensures
        r == bit_at(limbs, index as int),
{
    U512::from_limbs(limbs).bit(index)
}

/// The number one, as limbs.
pub fn one() -> (r: [u64; 8])
    ensures
        forall|k: int| 0 <= k < 512 ==> #[trigger] bit_at(r, k) == (k == 0),
{
    let r: [u64; 8] = [1, 0, 0, 0, 0, 0, 0, 0];
    assert forall|k: int| 0 <= k < 512 implies #[trigger] bit_at(r, k) == (k == 0) by {
        lemma_word_bit_one(k % 64);
        lemma_word_bit_zero(k % 64);
    }
    r
}

/// The number zero, as limbs.
pub fn zero() -> (r: [u64; 8])
    ensures
        all_clear(r),
{
    let r: [u64; 8] = [0, 0, 0, 0, 0, 0, 0, 0];
    assert forall|k: int| 0 <= k < 512 implies !#[trigger] bit_at(r, k) by {
        lemma_word_bit_zero(k % 64);
    }
    r
}

/// The only set bit of the word `1` is bit zero.
pub proof fn lemma_word_bit_one(s: int)
    requires
        0 <= s < 64,
    ensures
        word_bit(1u64, s) == (s == 0),
{
    let t = s as u64;
    assert(((1u64 >> t) & 1u64 == 1u64) == (t == 0)) by (bit_vector)
        requires
            t < 64,
    ;
}

/// No bit of the word `0` is set.
pub proof fn lemma_word_bit_zero(s: int)
    requires
        0 <= s < 64,
    ensures
        !word_bit(0u64, s),
{
    let t = s as u64;
    assert((0u64 >> t) & 1u64 != 1u64) by (bit_vector);
}

/// After shifting `limbs` left so that bit `top` lands on bit 511, the
/// leading zeros of the result count down from `top` to the highest set bit
/// of `limbs` at or below `top`.
pub proof fn lemma_highest_at_or_below(limbs: [u64; 8], shifted: [u64; 8], top: int, lz: int)
    requires
        0 <= top < 512,
        forall|k: int|
            0 <= k < 512 ==> #[trigger] bit_at(shifted, k) == (k >= 511 - top && bit_at(
                limbs,
                k - (511 - top),
            )),
        0 <= lz <= 512,
        forall|k: int| 512 - lz <= k < 512 ==> !#[trigger] bit_at(shifted, k),
        lz < 512 ==> bit_at(shifted, 511 - lz),
        !all_clear(shifted),
    ensures
        lz <= top,
        bit_at(limbs, top - lz),
        forall|b: int| top - lz < b <= top ==> !#[trigger] bit_at(limbs, b),
{
    if lz == 512 {
        assert(all_clear(shifted));
    }
    assert(bit_at(shifted, 511 - lz));
    assert forall|b: int| top - lz < b <= top implies !#[trigger] bit_at(limbs, b) by {
        assert(!bit_at(shifted, b + (511 - top)));
    }
}

/// After shifting `limbs` right so that bit `bottom` lands on bit 0, the
/// trailing zeros of the result count up from `bottom` to the lowest set bit
/// of `limbs` at or above `bottom`.
pub proof fn lemma_lowest_at_or_above(limbs: [u64; 8], shifted: [u64; 8], bottom: int, tz: int)
    requires
        0 <= bottom < 512,
        forall|k: int| 0 <= k < 512 ==> #[trigger] bit_at(shifted, k) == bit_at(limbs, k + bottom),
        0 <= tz <= 512,
        forall|k: int| 0 <= k < tz ==> !#[trigger] bit_at(shifted, k),
        tz < 512 ==> bit_at(shifted, tz),
        !all_clear(shifted),
    ensures
        bottom + tz < 512,
        bit_at(limbs, bottom + tz),
        forall|b: int| bottom <= b < bottom + tz ==> !#[trigger] bit_at(limbs, b),
{
    if tz == 512 {
        assert(all_clear(shifted));
    }
    assert(bit_at(shifted, tz));
    assert forall|b: int| bottom <= b < bottom + tz implies !#[trigger] bit_at(limbs, b) by {
        assert(!bit_at(shifted, b - bottom));
    }
}

/// Two words whose bits all agree are equal.
pub proof fn lemma_word_eq_from_bits(a: u64, b: u64)
    requires
        forall|s: int| 0 <= s < 64 ==> #[trigger] word_bit(a, s) == word_bit(b, s),
    ensures
        a == b,
{
    assert(word_bit(a, 0) == word_bit(b, 0));
    assert(word_bit(a, 1) == word_bit(b, 1));
    assert(word_bit(a, 2) == word_bit(b, 2));
    assert(word_bit(a, 3) == word_bit(b, 3));
    assert(word_bit(a, 4) == word_bit(b, 4));
    assert(word_bit(a, 5) == word_bit(b, 5));
    assert(word_bit(a, 6) == word_bit(b, 6));
    assert(word_bit(a, 7) == word_bit(b, 7));
    assert(word_bit(a, 8) == word_bit(b, 8));
    assert(word_bit(a, 9) == word_bit(b, 9));
    assert(word_bit(a, 10) == word_bit(b, 10));
    assert(word_bit(a, 11) == word_bit(b, 11));
    assert(word_bit(a, 12) == word_bit(b, 12));
    assert(word_bit(a, 13) == word_bit(b, 13));
    assert(word_bit(a, 14) == word_bit(b, 14));
    assert(word_bit(a, 15) == word_bit(b, 15));
    assert(word_bit(a, 16) == word_bit(b, 16));
    assert(word_bit(a, 17) == word_bit(b, 17));
    assert(word_bit(a, 18) == word_bit(b, 18));
    assert(word_bit(a, 19) == word_bit(b, 19));
    assert(word_bit(a, 20) == word_bit(b, 20));
    assert(word_bit(a, 21) == word_bit(b, 21));
    assert(word_bit(a, 22) == word_bit(b, 22));
    assert(word_bit(a, 23) == word_bit(b, 23));
    assert(word_bit(a, 24) == word_bit(b, 24));
    assert(word_bit(a, 25) == word_bit(b, 25));
    assert(word_bit(a, 26) == word_bit(b, 26));
    assert(word_bit(a, 27) == word_bit(b, 27));
    assert(word_bit(a, 28) == word_bit(b, 28));
    assert(word_bit(a, 29) == word_bit(b, 29));
    assert(word_bit(a, 30) == word_bit(b, 30));
    assert(word_bit(a, 31) == word_bit(b, 31));
    assert(word_bit(a, 32) == word_bit(b, 32));
    assert(word_bit(a, 33) == word_bit(b, 33));
    assert(word_bit(a, 34) == word_bit(b, 34));
    assert(word_bit(a, 35) == word_bit(b, 35));
    assert(word_bit(a, 36) == word_bit(b, 36));
    assert(word_bit(a, 37) == word_bit(b, 37));
    assert(word_bit(a, 38) == word_bit(b, 38));
    assert(word_bit(a, 39) == word_bit(b, 39));
    assert(word_bit(a, 40) == word_bit(b, 40));
    assert(word_bit(a, 41) == word_bit(b, 41));
    assert(word_bit(a, 42) == word_bit(b, 42));
    assert(word_bit(a, 43) == word_bit(b, 43));
    assert(word_bit(a, 44) == word_bit(b, 44));
    assert(word_bit(a, 45) == word_bit(b, 45));
    assert(word_bit(a, 46) == word_bit(b, 46));
    assert(word_bit(a, 47) == word_bit(b, 47));
    assert(word_bit(a, 48) == word_bit(b, 48));
    assert(word_bit(a, 49) == word_bit(b, 49));
    assert(word_bit(a, 50) == word_bit(b, 50));
    assert(word_bit(a, 51) == word_bit(b, 51));
    assert(word_bit(a, 52) == word_bit(b, 52));
    assert(word_bit(a, 53) == word_bit(b, 53));
    assert(word_bit(a, 54) == word_bit(b, 54));
    assert(word_bit(a, 55) == word_bit(b, 55));
    assert(word_bit(a, 56) == word_bit(b, 56));
    assert(word_bit(a, 57) == word_bit(b, 57));
    assert(word_bit(a, 58) == word_bit(b, 58));
    assert(word_bit(a, 59) == word_bit(b, 59));
    assert(word_bit(a, 60) == word_bit(b, 60));
    assert(word_bit(a, 61) == word_bit(b, 61));
    assert(word_bit(a, 62) == word_bit(b, 62));
    assert(word_bit(a, 63) == word_bit(b, 63));
    assert(a == b) by (bit_vector)
        requires
            (((a >> 0u64) & 1u64) == 1u64) == (((b >> 0u64) & 1u64) == 1u64),
            (((a >> 1u64) & 1u64) == 1u64) == (((b >> 1u64) & 1u64) == 1u64),
            (((a >> 2u64) & 1u64) == 1u64) == (((b >> 2u64) & 1u64) == 1u64),
            (((a >> 3u64) & 1u64) == 1u64) == (((b >> 3u64) & 1u64) == 1u64),
            (((a >> 4u64) & 1u64) == 1u64) == (((b >> 4u64) & 1u64) == 1u64),
            (((a >> 5u64) & 1u64) == 1u64) == (((b >> 5u64) & 1u64) == 1u64),
            (((a >> 6u64) & 1u64) == 1u64) == (((b >> 6u64) & 1u64) == 1u64),
            (((a >> 7u64) & 1u64) == 1u64) == (((b >> 7u64) & 1u64) == 1u64),
            (((a >> 8u64) & 1u64) == 1u64) == (((b >> 8u64) & 1u64) == 1u64),
            (((a >> 9u64) & 1u64) == 1u64) == (((b >> 9u64) & 1u64) == 1u64),
            (((a >> 10u64) & 1u64) == 1u64) == (((b >> 10u64) & 1u64) == 1u64),
            (((a >> 11u64) & 1u64) == 1u64) == (((b >> 11u64) & 1u64) == 1u64),
            (((a >> 12u64) & 1u64) == 1u64) == (((b >> 12u64) & 1u64) == 1u64),
            (((a >> 13u64) & 1u64) == 1u64) == (((b >> 13u64) & 1u64) == 1u64),
            (((a >> 14u64) & 1u64) == 1u64) == (((b >> 14u64) & 1u64) == 1u64),
            (((a >> 15u64) & 1u64) == 1u64) == (((b >> 15u64) & 1u64) == 1u64),
            (((a >> 16u64) & 1u64) == 1u64) == (((b >> 16u64) & 1u64) == 1u64),
            (((a >> 17u64) & 1u64) == 1u64) == (((b >> 17u64) & 1u64) == 1u64),
            (((a >> 18u64) & 1u64) == 1u64) == (((b >> 18u64) & 1u64) == 1u64),
            (((a >> 19u64) & 1u64) == 1u64) == (((b >> 19u64) & 1u64) == 1u64),
            (((a >> 20u64) & 1u64) == 1u64) == (((b >> 20u64) & 1u64) == 1u64),
            (((a >> 21u64) & 1u64) == 1u64) == (((b >> 21u64) & 1u64) == 1u64),
            (((a >> 22u64) & 1u64) == 1u64) == (((b >> 22u64) & 1u64) == 1u64),
            (((a >> 23u64) & 1u64) == 1u64) == (((b >> 23u64) & 1u64) == 1u64),
            (((a >> 24u64) & 1u64) == 1u64) == (((b >> 24u64) & 1u64) == 1u64),
            (((a >> 25u64) & 1u64) == 1u64) == (((b >> 25u64) & 1u64) == 1u64),
            (((a >> 26u64) & 1u64) == 1u64) == (((b >> 26u64) & 1u64) == 1u64),
            (((a >> 27u64) & 1u64) == 1u64) == (((b >> 27u64) & 1u64) == 1u64),
            (((a >> 28u64) & 1u64) == 1u64) == (((b >> 28u64) & 1u64) == 1u64),
            (((a >> 29u64) & 1u64) == 1u64) == (((b >> 29u64) & 1u64) == 1u64),
            (((a >> 30u64) & 1u64) == 1u64) == (((b >> 30u64) & 1u64) == 1u64),
            (((a >> 31u64) & 1u64) == 1u64) == (((b >> 31u64) & 1u64) == 1u64),
            (((a >> 32u64) & 1u64) == 1u64) == (((b >> 32u64) & 1u64) == 1u64),
            (((a >> 33u64) & 1u64) == 1u64) == (((b >> 33u64) & 1u64) == 1u64),
            (((a >> 34u64) & 1u64) == 1u64) == (((b >> 34u64) & 1u64) == 1u64),
            (((a >> 35u64) & 1u64) == 1u64) == (((b >> 35u64) & 1u64) == 1u64),
            (((a >> 36u64) & 1u64) == 1u64) == (((b >> 36u64) & 1u64) == 1u64),
            (((a >> 37u64) & 1u64) == 1u64) == (((b >> 37u64) & 1u64) == 1u64),
            (((a >> 38u64) & 1u64) == 1u64) == (((b >> 38u64) & 1u64) == 1u64),
            (((a >> 39u64) & 1u64) == 1u64) == (((b >> 39u64) & 1u64) == 1u64),
            (((a >> 40u64) & 1u64) == 1u64) == (((b >> 40u64) & 1u64) == 1u64),
            (((a >> 41u64) & 1u64) == 1u64) == (((b >> 41u64) & 1u64) == 1u64),
            (((a >> 42u64) & 1u64) == 1u64) == (((b >> 42u64) & 1u64) == 1u64),
            (((a >> 43u64) & 1u64) == 1u64) == (((b >> 43u64) & 1u64) == 1u64),
            (((a >> 44u64) & 1u64) == 1u64) == (((b >> 44u64) & 1u64) == 1u64),
            (((a >> 45u64) & 1u64) == 1u64) == (((b >> 45u64) & 1u64) == 1u64),
            (((a >> 46u64) & 1u64) == 1u64) == (((b >> 46u64) & 1u64) == 1u64),
            (((a >> 47u64) & 1u64) == 1u64) == (((b >> 47u64) & 1u64) == 1u64),
            (((a >> 48u64) & 1u64) == 1u64) == (((b >> 48u64) & 1u64) == 1u64),
            (((a >> 49u64) & 1u64) == 1u64) == (((b >> 49u64) & 1u64) == 1u64),
            (((a >> 50u64) & 1u64) == 1u64) == (((b >> 50u64) & 1u64) == 1u64),
            (((a >> 51u64) & 1u64) == 1u64) == (((b >> 51u64) & 1u64) == 1u64),
            (((a >> 52u64) & 1u64) == 1u64) == (((b >> 52u64) & 1u64) == 1u64),
            (((a >> 53u64) & 1u64) == 1u64) == (((b >> 53u64) & 1u64) == 1u64),
            (((a >> 54u64) & 1u64) == 1u64) == (((b >> 54u64) & 1u64) == 1u64),
            (((a >> 55u64) & 1u64) == 1u64) == (((b >> 55u64) & 1u64) == 1u64),
            (((a >> 56u64) & 1u64) == 1u64) == (((b >> 56u64) & 1u64) == 1u64),
            (((a >> 57u64) & 1u64) == 1u64) == (((b >> 57u64) & 1u64) == 1u64),
            (((a >> 58u64) & 1u64) == 1u64) == (((b >> 58u64) & 1u64) == 1u64),
            (((a >> 59u64) & 1u64) == 1u64) == (((b >> 59u64) & 1u64) == 1u64),
            (((a >> 60u64) & 1u64) == 1u64) == (((b >> 60u64) & 1u64) == 1u64),
            (((a >> 61u64) & 1u64) == 1u64) == (((b >> 61u64) & 1u64) == 1u64),
            (((a >> 62u64) & 1u64) == 1u64) == (((b >> 62u64) & 1u64) == 1u64),
            (((a >> 63u64) & 1u64) == 1u64) == (((b >> 63u64) & 1u64) == 1u64),
    ;
}

/// Xoring a word with `1 << t` flips bit `t` and keeps every other bit.
pub proof fn lemma_word_bit_xor_one(x: u64, t: int, s: int)
    requires
        0 <= t < 64,
        0 <= s < 64,
    ensures
        word_bit(x ^ (1u64 << (t as u64)), s) == (word_bit(x, s) != (s == t)),
{
    let tt = t as u64;
    let ss = s as u64;
    assert((((x ^ (1u64 << tt)) >> ss) & 1u64 == 1u64) == (((x >> ss) & 1u64 == 1u64) != (ss == tt)))
        by (bit_vector)
        requires
            tt < 64,
            ss < 64,
    ;
}

} // verus!
