use vstd::prelude::*;
use vstd::std_specs::bits::u64_trailing_zeros;
use vstd::std_specs::bits::u64_leading_zeros;
use vstd::std_specs::bits::axiom_u64_trailing_zeros;
use vstd::std_specs::bits::axiom_u64_leading_zeros;

verus! {

/// Bit `i` of `x` is set.
pub open spec fn has_bit(x: u64, i: u64) -> bool {
    (x >> i) & 1u64 == 1u64
}

/// The bit of `x >> p` at `j` is the bit of `x` at `p + j`.
pub proof fn lemma_shr_bit(x: u64, p: u64, j: u64)
    requires
        p < 64,
        j < 64,
    ensures
        p + j < 64 ==> has_bit(x >> p, j) == has_bit(x, (p + j) as u64),
        p + j >= 64 ==> !has_bit(x >> p, j),
{
    assert(p < 64 && j < 64 && p + j < 64 ==> ((x >> p) >> j) & 1u64 == (x >> ((p + j) as u64))
        & 1u64) by (bit_vector);
    assert(p < 64 && j < 64 && p + j >= 64 ==> ((x >> p) >> j) & 1u64 == 0u64) by (bit_vector);
}

/// The bit of `x << s` at `i` is the bit of `x` at `i - s` (zero below `s`).
pub proof fn lemma_shl_bit(x: u64, s: u64, i: u64)
    requires
        0 < s < 64,
        i < 64,
    ensures
        i >= s ==> has_bit(x << s, i) == has_bit(x, (i - s) as u64),
        i < s ==> !has_bit(x << s, i),
{
    assert(0 < s < 64 && i < 64 && i >= s ==> ((x << s) >> i) & 1u64 == (x >> ((i - s) as u64))
        & 1u64) by (bit_vector);
    assert(0 < s < 64 && i < 64 && i < s ==> ((x << s) >> i) & 1u64 == 0u64) by (bit_vector);
}

/// Bits of a one-bit mask, of setting a bit and of clearing a bit.
pub proof fn lemma_mask_bits(x: u64, f: u64, i: u64)
    requires
        f < 64,
        i < 64,
    ensures
        has_bit(1u64 << f, i) == (i == f),
        has_bit(x | (1u64 << f), i) == (has_bit(x, i) || i == f),
        has_bit(x & !(1u64 << f), i) == (has_bit(x, i) && i != f),
        (x & (1u64 << f) == (1u64 << f)) == has_bit(x, f),
{
    assert(f < 64 && i < 64 ==> (((1u64 << f) >> i) & 1u64 == 1u64) == (i == f)) by (bit_vector);
    assert(f < 64 && i < 64 ==> (((x | (1u64 << f)) >> i) & 1u64 == 1u64) == (((x >> i) & 1u64
        == 1u64) || i == f)) by (bit_vector);
    assert(f < 64 && i < 64 ==> (((x & !(1u64 << f)) >> i) & 1u64 == 1u64) == (((x >> i) & 1u64
        == 1u64) && i != f)) by (bit_vector);
    assert(f < 64 ==> ((x & (1u64 << f) == (1u64 << f)) == ((x >> f) & 1u64 == 1u64)))
        by (bit_vector);
}

/// The lowest set bit of a non-zero word.
pub proof fn lemma_trailing_zeros(x: u64)
    ensures
        (x == 0) == (u64_trailing_zeros(x) == 64),
        u64_trailing_zeros(x) <= 64,
        x != 0 ==> has_bit(x, u64_trailing_zeros(x) as u64),
        forall|j: u64| j < u64_trailing_zeros(x) ==> !#[trigger] has_bit(x, j),
{
    axiom_u64_trailing_zeros(x);
    assert forall|j: u64| j < u64_trailing_zeros(x) implies !#[trigger] has_bit(x, j) by {
        assert((x >> j) & 1u64 == 0u64);
    }
}

/// The highest set bit of a non-zero word.
pub proof fn lemma_leading_zeros(x: u64)
    ensures
        (x == 0) == (u64_leading_zeros(x) == 64),
        0 <= u64_leading_zeros(x) <= 64,
        x != 0 ==> has_bit(x, (63 - u64_leading_zeros(x)) as u64),
        forall|j: u64| 64 - u64_leading_zeros(x) <= j < 64 ==> !#[trigger] has_bit(x, j),
{
    axiom_u64_leading_zeros(x);
    let l = u64_leading_zeros(x);
    if x != 0 {
        let k = (63 - l) as u64;
        assert((x >> k) & 1u64 != 0u64);
        assert((x >> k) & 1u64 != 0u64 ==> (x >> k) & 1u64 == 1u64) by (bit_vector);
    }
    assert forall|j: u64| 64 - u64_leading_zeros(x) <= j < 64 implies !#[trigger] has_bit(x, j) by {
        assert((x >> j) & 1u64 == 0u64);
    }
}

/// A word is zero exactly when none of its bits is set.
pub proof fn lemma_zero_iff_no_bits(x: u64)
    ensures
        (x == 0) == (forall|i: u64| i < 64 ==> !#[trigger] has_bit(x, i)),
{
    lemma_trailing_zeros(x);
    assert(0u64 >> 0u64 == 0u64) by (bit_vector);
    if x == 0 {
        assert forall|i: u64| i < 64 implies !#[trigger] has_bit(x, i) by {
            assert(i < 64 ==> ((0u64 >> i) & 1u64) == 0u64) by (bit_vector);
        }
    }
}

/// Two words with the same bits are equal.
pub proof fn lemma_bits_ext(x: u64, y: u64)
    requires
        forall|i: u64| i < 64 ==> #[trigger] has_bit(x, i) == has_bit(y, i),
    ensures
        x == y,
{
    let z = x ^ y;
    lemma_trailing_zeros(z);
    if z != 0 {
        let t = u64_trailing_zeros(z) as u64;
        assert(((x ^ y) >> t) & 1u64 == 1u64 ==> (((x >> t) & 1u64 == 1u64) != ((y >> t) & 1u64
            == 1u64))) by (bit_vector);
        assert(has_bit(x, t) == has_bit(y, t));
    }
    assert(x ^ y == 0u64 ==> x == y) by (bit_vector);
}

} // verus!
