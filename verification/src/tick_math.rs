use vstd::prelude::*;
use crate::decimal::{Decimal, two_64, two_128, two_191, scale, div_toward_zero};
use vstd::arithmetic::power2::{pow2, lemma_pow2_unfold, lemma_pow2_pos};
use crate::tick::Tick;

verus! {

/// Value of a 384-bit word given as six 64-bit limbs, lowest first (unsigned).
pub open spec fn wide(d: [u64; 6]) -> int {
    d[0] + two_64() * (d[1] + two_64() * (d[2] + two_64() * (d[3] + two_64() * (d[4] + two_64()
        * d[5]))))
}

/// Bound on the 384-bit words used below: they stay clear of the sign bit.
pub open spec fn wide_bound() -> int {
    two_128() * two_128() * two_128() / 2
}

/// Product of two non-negative 384-bit integers with scrypto's `I384` multiplication.
#[verifier::external_body]
fn wide_mul(a: [u64; 6], b: [u64; 6]) -> (r: [u64; 6])
    requires
        wide(a) < wide_bound(),
        wide(b) < wide_bound(),
        wide(a) * wide(b) < wide_bound(),
    ensures
        wide(r) == wide(a) * wide(b),
{
    (scrypto::math::I384::from_digits(a) * scrypto::math::I384::from_digits(b)).to_digits()
}

/// A non-negative 384-bit integer shifted right by 128 bits with scrypto's `I384` shift.
#[verifier::external_body]
fn wide_shr_128(a: [u64; 6]) -> (r: [u64; 6])
    requires
        wide(a) < wide_bound(),
    ensures
        wide(r) == wide(a) / two_128(),
{
    (scrypto::math::I384::from_digits(a) >> 128).to_digits()
}

/// Quotient of two non-negative 384-bit integers with scrypto's `I384` division.
#[verifier::external_body]
fn wide_div(a: [u64; 6], b: [u64; 6]) -> (r: [u64; 6])
    requires
        wide(a) < wide_bound(),
        0 < wide(b) < wide_bound(),
    ensures
        wide(r) == wide(a) / wide(b),
{
    (scrypto::math::I384::from_digits(a) / scrypto::math::I384::from_digits(b)).to_digits()
}

/// A 384-bit word from its three low limbs.
fn wide3(lo: u64, mid: u64, hi: u64) -> (r: [u64; 6])
    ensures
        wide(r) == lo + mid * two_64() + hi * two_128(),
{
    let r: [u64; 6] = [lo, mid, hi, 0, 0, 0];
    assert(r[0] == lo && r[1] == mid && r[2] == hi && r[3] == 0 && r[4] == 0 && r[5] == 0);
    r
}

/// The multiplier, in 2^128-scaled fixed point, for bit `i` of the tick distance:
/// about `1.0005^(2^i)`.
pub open spec fn tick_factor(i: int) -> int {
    let (lo, mid, hi) = if i == 0 {
        (0xced916872b020c4aint, 0x20c49ba5e353f7int, 1int)
    } else if i == 1 {
        (0xffda4052d666aaint, 0x418d6909aed56bint, 1int)
    } else if i == 2 {
        (0xeb36e9b6781557c0int, 0x832b9b30d17561int, 1int)
    } else if i == 3 {
        (0x7d06ce9cffd53266int, 0x1069a6c09e4619cint, 1int)
    } else if i == 4 {
        (0xe4e204399c1a6a84int, 0x20e423886132c2fint, 1int)
    } else if i == 5 {
        (0x2ff8b3e6fc5af4e4int, 0x420be453d8e80c6int, 1int)
    } else if i == 6 {
        (0x87c1fe56c0f43853int, 0x85286acc3c3b34cint, 1int)
    } else if i == 7 {
        (0x3967da909b785eedint, 0x10ea505ee14a5cb5int, 1int)
    } else if i == 8 {
        (0x481ac7d634db64edint, 0x22f2c140a56d50ebint, 1int)
    } else if i == 9 {
        (0x1c250bcdc53b7f7int, 0x4aaae40866e6f7c4int, 1int)
    } else if i == 10 {
        (0x65fccb6eb437bcb2int, 0xab1d05f94f931918int, 1int)
    } else if i == 11 {
        (0xb79e4d5e8d69c09eint, 0xc899d5380a146cf2int, 2int)
    } else if i == 12 {
        (0xbe2133785a45385bint, 0xbf980e7846a3f77aint, 7int)
    } else if i == 13 {
        (0xab8fa709bbaf5821int, 0x9b50a7c860576f1int, 0x3cint)
    } else {
        (0x23e2d39925ac624aint, 0x8d3b2523687f9e6aint, 0xe14int)
    };
    lo + mid * two_64() + hi * two_128()
}

/// One step of the product: multiply by the factor of bit `i` when that bit of `exp` is set.
pub open spec fn factor_step(r: int, exp: int, i: int, p: int) -> int {
    if (exp / p) % 2 == 1 {
        (r * tick_factor(i)) / two_128()
    } else {
        r
    }
}

/// About `1.0005^exp` in 2^128-scaled fixed point: the product of the factors of the set
/// bits of `exp` (bits 0 to 14), each product rounded down.
pub open spec fn scaled_root(exp: int) -> int {
    let r0 = if exp % 2 == 1 { tick_factor(0) } else { two_128() };
    let r1 = factor_step(r0, exp, 1, 2);
    let r2 = factor_step(r1, exp, 2, 4);
    let r3 = factor_step(r2, exp, 3, 8);
    let r4 = factor_step(r3, exp, 4, 16);
    let r5 = factor_step(r4, exp, 5, 32);
    let r6 = factor_step(r5, exp, 6, 64);
    let r7 = factor_step(r6, exp, 7, 128);
    let r8 = factor_step(r7, exp, 8, 256);
    let r9 = factor_step(r8, exp, 9, 512);
    let r10 = factor_step(r9, exp, 10, 1024);
    let r11 = factor_step(r10, exp, 11, 2048);
    let r12 = factor_step(r11, exp, 12, 4096);
    let r13 = factor_step(r12, exp, 13, 8192);
    factor_step(r13, exp, 14, 16384)
}

/// Divisor from base 2^128 to base 10^18 (2^128 / 10^18, rounded).
pub open spec fn base_divisor() -> int {
    0x725dd1d243aba0e7int + 0x12int * two_64()
}

/// Attos of the square-root price of a tick: about `1.0005^(tick - OFFSET)`, computed in
/// 2^128-scaled fixed point (inverted for ticks below the offset) and rescaled to attos.
pub open spec fn tick_attos(tick: u32) -> int {
    let positive = tick >= 27000;
    let exp = if positive { tick - 27000 } else { 27000 - tick };
    let r = scaled_root(exp);
    let r2 = if positive { r } else { (two_128() * two_128()) / r };
    r2 / base_divisor()
}

/// Number of bits of `v`.
pub open spec fn bit_len(v: nat) -> nat
    decreases v,
{
    if v == 0 {
        0
    } else {
        1 + bit_len(v / 2)
    }
}

/// `v` shifted to have 60 bits, the bit length of one in attos.
pub open spec fn near_one(v: nat) -> int {
    let b = bit_len(v) as int;
    if b >= 60 {
        v as int / pow2((b - 60) as nat) as int
    } else {
        (v * pow2((60 - b) as nat)) as int
    }
}

/// Absolute value.
pub open spec fn abs(x: int) -> int {
    if x < 0 {
        -x
    } else {
        x
    }
}

/// Next term of the logarithm series: `term * m / 10^18 * k / (k + 2)`, each division
/// rounding toward zero.
pub open spec fn series_step(term: int, m: int, k: int) -> int {
    div_toward_zero(div_toward_zero(term * m, scale()) * k, k + 2)
}

/// A step of the series shrinks a non-zero term and keeps its sign, and is at most the
/// term times `m / 10^18`.
pub proof fn lemma_series_step(term: int, m: int, k: int)
    requires
        0 <= m < scale(),
        k >= 1,
    ensures
        abs(series_step(term, m, k)) * scale() <= abs(term) * m,
        term != 0 ==> abs(series_step(term, m, k)) < abs(term),
        term >= 0 ==> series_step(term, m, k) >= 0,
        term <= 0 ==> series_step(term, m, k) <= 0,
{
    let a = abs(term);
    let t1 = div_toward_zero(term * m, scale());
    let a1 = (a * m) / scale();
    assert(a * m >= 0) by (nonlinear_arith)
        requires
            a >= 0,
            m >= 0,
    ;
    assert(abs(term * m) == a * m) by (nonlinear_arith)
        requires
            a == abs(term),
            m >= 0,
    ;
    assert(abs(t1) == a1);
    assert(term >= 0 ==> t1 >= 0) by (nonlinear_arith)
        requires
            t1 == div_toward_zero(term * m, scale()),
            m >= 0,
    ;
    assert(term <= 0 ==> t1 <= 0) by (nonlinear_arith)
        requires
            t1 == div_toward_zero(term * m, scale()),
            m >= 0,
    ;
    let a2 = (a1 * k) / (k + 2);
    assert(abs(t1 * k) == a1 * k) by (nonlinear_arith)
        requires
            a1 == abs(t1),
            k >= 1,
    ;
    assert(a1 * k >= 0) by (nonlinear_arith)
        requires
            a1 >= 0,
            k >= 1,
    ;
    assert(abs(series_step(term, m, k)) == a2);
    assert(a2 <= a1) by (nonlinear_arith)
        requires
            a2 == (a1 * k) / (k + 2),
            a1 >= 0,
            k >= 1,
    {
        vstd::arithmetic::div_mod::lemma_div_is_ordered(a1 * k, a1 * (k + 2), k + 2);
        vstd::arithmetic::div_mod::lemma_div_multiples_vanish(a1, k + 2);
    }
    assert(a1 * scale() <= a * m) by {
        vstd::arithmetic::div_mod::lemma_fundamental_div_mod(a * m, scale());
        vstd::arithmetic::div_mod::lemma_mod_pos_bound(a * m, scale());
    }
    assert(a2 * scale() <= a * m) by (nonlinear_arith)
        requires
            a2 <= a1,
            a1 * scale() <= a * m,
            a2 >= 0,
    ;
    if term != 0 {
        assert(a * m < a * scale()) by (nonlinear_arith)
            requires
                a > 0,
                m < scale(),
        ;
        assert(a2 < a) by (nonlinear_arith)
            requires
                a2 * scale() <= a * m,
                a * m < a * scale(),
                scale() > 0,
        ;
    }
    assert(term >= 0 ==> series_step(term, m, k) >= 0) by (nonlinear_arith)
        requires
            term >= 0 ==> t1 >= 0,
            k >= 1,
            series_step(term, m, k) == div_toward_zero(t1 * k, k + 2),
    ;
    assert(term <= 0 ==> series_step(term, m, k) <= 0) by (nonlinear_arith)
        requires
            term <= 0 ==> t1 <= 0,
            k >= 1,
            series_step(term, m, k) == div_toward_zero(t1 * k, k + 2),
    ;
}

/// Sum `ln` plus the terms of the series from `term` on, until a term is zero.
pub open spec fn ln_series(term: int, m: int, k: int, ln: int) -> int
    decreases abs(term),
    when 0 <= m < scale() && k >= 1
{
    if term == 0 {
        ln
    } else {
        proof {
            lemma_series_step(term, m, k);
        }
        ln_series(series_step(term, m, k), m, k + 2, ln + term)
    }
}

/// Natural logarithm of `x` attos, in attos, by the series `2 * (t + t^3/3 + t^5/5 + ...)`
/// with `t = (x - 1) / (x + 1)`, computed in attos and rounded toward zero at each step.
pub open spec fn ln_attos(x: int) -> int {
    let t = div_toward_zero((x - scale()) * scale(), x + scale());
    let m = div_toward_zero(t * t, scale());
    ln_series(2 * t, m, 1, 0)
}

/// `1 / log2(1.0005)` in attos.
pub open spec fn inv_log2_10005() -> int {
    1386640905836256065677
}

/// `1 / ln(1.0005)` in attos.
pub open spec fn inv_ln_10005() -> int {
    2000499958343746702560
}

/// The tick of a square-root price of `v` attos before it is converted to `u32`: the
/// logarithm base 1.0005 of the price, from its integer base-2 logarithm and the natural
/// logarithm of the rest, plus the offset and one half, scaled by `10^36` and rounded toward
/// zero.
pub open spec fn tick_quotient(v: nat) -> int {
    let ilog = bit_len(v) as int - 60;
    let rest = near_one(v);
    let log0 = ilog * scale() * inv_log2_10005();
    let log = if rest != 0 {
        log0 + ln_attos(rest) * inv_ln_10005()
    } else {
        log0
    };
    div_toward_zero(log + 27000 * scale() * scale() + scale() * scale() / 2, scale() * scale())
}

/// The bit length of a positive `v` brackets it between powers of two.
proof fn lemma_bit_len(v: nat)
    requires
        v >= 1,
    ensures
        bit_len(v) >= 1,
        pow2((bit_len(v) - 1) as nat) <= v < pow2(bit_len(v)),
    decreases v,
{
    if v == 1 {
        assert(bit_len(0) == 0);
        assert(pow2(0) == 1) by {
            vstd::arithmetic::power2::lemma2_to64();
        }
        assert(pow2(1) == 2) by {
            vstd::arithmetic::power2::lemma2_to64();
        }
    } else {
        lemma_bit_len(v / 2);
        let b = bit_len(v / 2);
        lemma_pow2_unfold(b + 1);
        if b >= 1 {
            lemma_pow2_unfold(b);
        }
    }
}

/// The series from `term` on, with each term shrinking by at least the factor `m / 10^18`,
/// stays within `|t0| / (1 - m / 10^18)`: the bound `|ln| * (10^18 - m) + |term| * 10^18 <=
/// a0 * 10^18` is kept by a step.
proof fn lemma_series_bound(ln: int, term: int, m: int, k: int, a0: int)
    requires
        0 <= m < scale(),
        k >= 1,
        abs(ln) * (scale() - m) + abs(term) * scale() <= a0 * scale(),
        (term >= 0 && ln >= 0) || (term <= 0 && ln <= 0),
    ensures
        abs(ln + term) * (scale() - m) + abs(series_step(term, m, k)) * scale() <= a0 * scale(),
{
    lemma_series_step(term, m, k);
    let a = abs(term);
    let b = abs(series_step(term, m, k));
    assert(abs(ln + term) == abs(ln) + a);
    assert((abs(ln) + a) * (scale() - m) + b * scale() <= abs(ln) * (scale() - m) + a * scale()) by (nonlinear_arith)
        requires
            b * scale() <= a * m,
            a >= 0,
    ;
}

/// The bit length of `v`, a positive number below `2^99`.
fn bit_length(v: i128) -> (b: i128)
    requires
        1 <= v <= 528470197086935858253558842035,
    ensures
        b == bit_len(v as nat),
        1 <= b <= 99,
{
    proof {
        lemma_bit_len(v as nat);
        lemma_pow2_99_bound();
        if bit_len(v as nat) > 99 {
            vstd::arithmetic::power2::lemma_pow2_strictly_increases(99, (bit_len(v as nat) - 1) as nat);
        }
    }
    let mut b: i128 = 0;
    let mut t: i128 = v;
    while t > 0
        invariant
            0 <= t <= v,
            0 <= b,
            b + bit_len(t as nat) == bit_len(v as nat),
            bit_len(v as nat) <= 99,
        decreases t,
    {
        t = t / 2;
        b = b + 1;
    }
    b
}

/// `2^99` is above the largest square-root price.
proof fn lemma_pow2_99_bound()
    ensures
        528470197086935858253558842035 < pow2(99),
        pow2(59) == 576460752303423488,
        pow2(60) == 1152921504606846976,
{
    vstd::arithmetic::power2::lemma2_to64();
    vstd::arithmetic::power2::lemma2_to64_rest();
    vstd::arithmetic::power2::lemma_pow2_adds(64, 35);
    assert(pow2(64) * pow2(35) == 633825300114114700748351602688);
}

/// `v` shifted to 60 bits: a number between `2^59` and `2^60`.
fn shift_near_one(v: i128, b: i128) -> (x: i128)
    requires
        1 <= v,
        b == bit_len(v as nat),
        1 <= b <= 99,
    ensures
        x == near_one(v as nat),
        576460752303423488 <= x < 1152921504606846976,
{
    let ghost vn: nat = v as nat;
    proof {
        lemma_bit_len(vn);
        lemma_pow2_99_bound();
        vstd::arithmetic::power2::lemma2_to64();
        assert(pow2(0) == 1);
        assert(vn / 1 == vn);
        assert(vn * 1 == vn);
    }
    let mut x: i128 = v;
    let mut i: i128 = 0;
    if b >= 60 {
        while i < b - 60
            invariant
                60 <= b <= 99,
                0 <= i <= b - 60,
                x == vn / pow2(i as nat),
                pow2((b - 1 - i) as nat) <= x < pow2((b - i) as nat),
            decreases b - 60 - i,
        {
            proof {
                lemma_pow2_pos(i as nat);
                lemma_pow2_unfold((i + 1) as nat);
                vstd::arithmetic::div_mod::lemma_div_denominator(vn as int, pow2(i as nat) as int, 2);
                lemma_pow2_unfold((b - i) as nat);
                lemma_pow2_unfold((b - 1 - i) as nat);
            }
            x = x / 2;
            i = i + 1;
        }
    } else {
        while i < 60 - b
            invariant
                1 <= b < 60,
                0 <= i <= 60 - b,
                x == vn * pow2(i as nat),
                pow2((b - 1 + i) as nat) <= x < pow2((b + i) as nat),
                pow2(60) == 1152921504606846976,
            decreases 60 - b - i,
        {
            proof {
                lemma_pow2_unfold((i + 1) as nat);
                lemma_pow2_unfold((b + i + 1) as nat);
                lemma_pow2_unfold((b + i) as nat);
                if b + i < 60 {
                    vstd::arithmetic::power2::lemma_pow2_strictly_increases((b + i) as nat, 60);
                }
                assert(vn * pow2((i + 1) as nat) == 2 * (vn * pow2(i as nat))) by (nonlinear_arith)
                    requires
                        pow2((i + 1) as nat) == 2 * pow2(i as nat),
                ;
            }
            x = x * 2;
            i = i + 1;
        }
    }
    x
}

/// Natural logarithm of `x` attos, for `x` between `2^59` and `2^60`, by the series of
/// `ln_attos`.
fn ln_near_one(x: i128) -> (ln: i128)
    requires
        576460752303423488 <= x < 1152921504606846976,
    ensures
        ln == ln_attos(x as int),
        abs(ln as int) <= 600000000000000000,
{
    let one: i128 = 1000000000000000000;
        let t0: i128 = (x - one) * one / (x + one);
        let ghost tt: int = 270000000000000000;
        proof {
            assert(abs(t0 as int) <= tt) by {
                let d = x + one;
                if x < one {
                    assert((one - x) * one < tt * d);
                    assert(abs(t0 as int) == ((one - x) * one) / (d as int));
                    vstd::arithmetic::div_mod::lemma_div_is_ordered((one - x) * one, tt * d, d as int);
                    vstd::arithmetic::div_mod::lemma_div_multiples_vanish(tt, d as int);
                } else {
                    assert((x - one) * one < tt * d);
                    assert(abs(t0 as int) == ((x - one) * one) / (d as int));
                    vstd::arithmetic::div_mod::lemma_div_is_ordered((x - one) * one, tt * d, d as int);
                    vstd::arithmetic::div_mod::lemma_div_multiples_vanish(tt, d as int);
                }
            }
            assert(0 <= t0 * t0 <= tt * tt) by (nonlinear_arith)
                requires
                    abs(t0 as int) <= tt,
            ;
            vstd::arithmetic::div_mod::lemma_div_is_ordered(t0 * t0, tt * tt, one as int);
        }
        let m: i128 = t0 * t0 / one;
        let ghost a0: int = abs(2 * t0);
        let mut term: i128 = t0 * 2;
        let mut ln: i128 = 0;
        let mut k: i128 = 1;
        proof {
            assert(abs(ln as int) * (scale() - m) == 0) by (nonlinear_arith)
                requires
                    ln == 0,
            ;
            assert(abs(term as int) == a0);
        }
        while term != 0
            invariant
                0 <= m <= 72900000000000000,
                one == scale(),
                k >= 1,
                a0 == abs(2 * t0),
                a0 <= 2 * tt,
                tt == 270000000000000000,
                abs(term as int) <= a0,
                k + 2 * abs(term as int) <= 2 * a0 + 1,
                abs(ln as int) * (scale() - m) + abs(term as int) * scale() <= a0 * scale(),
                t0 >= 0 ==> term >= 0 && ln >= 0,
                t0 <= 0 ==> term <= 0 && ln <= 0,
                ln_series(term as int, m as int, k as int, ln as int) == ln_series(t0 * 2, m as int, 1, 0),
            decreases abs(term as int),
        {
            proof {
                lemma_series_step(term as int, m as int, k as int);
                lemma_series_bound(ln as int, term as int, m as int, k as int, a0);
                assert(abs(ln as int) * 927100000000000000 <= abs(ln as int) * (scale() - m)) by (nonlinear_arith)
                    requires
                        m <= 72900000000000000,
                        abs(ln as int) >= 0,
                ;
                assert(abs(term as int) * m <= a0 * 72900000000000000) by (nonlinear_arith)
                    requires
                        abs(term as int) <= a0,
                        0 <= m <= 72900000000000000,
                ;
                assert(abs((term * m) as int) == abs(term as int) * m) by (nonlinear_arith)
                    requires
                        m >= 0,
                ;
            }
            ln = ln + term;
            let k2 = k + 2;
            let t1 = term * m / one;
            proof {
                assert(abs(t1 as int) <= a0) by {
                    assert(abs(t1 as int) * scale() <= abs(term as int) * m) by {
                        vstd::arithmetic::div_mod::lemma_fundamental_div_mod(abs(term as int) * m, scale());
                        vstd::arithmetic::div_mod::lemma_mod_pos_bound(abs(term as int) * m, scale());
                    }
                    assert(abs(term as int) * m <= abs(term as int) * scale()) by (nonlinear_arith)
                        requires
                            abs(term as int) >= 0,
                            m <= scale(),
                    ;
                }
                assert(abs((t1 * k) as int) <= a0 * (2 * a0 + 1)) by (nonlinear_arith)
                    requires
                        abs(t1 as int) <= a0,
                        1 <= k <= 2 * a0 + 1,
                ;
                assert(a0 * (2 * a0 + 1) <= 600000000000000000000000000000000000) by (nonlinear_arith)
                    requires
                        0 <= a0 <= 540000000000000000,
                ;
            }
            term = t1 * k / k2;
            k = k2;
        }
        proof {
            assert(ln == ln_attos(x as int));
            assert(abs(ln as int) * 927100000000000000 <= abs(ln as int) * (scale() - m)) by (nonlinear_arith)
                requires
                    m <= 72900000000000000,
                    abs(ln as int) >= 0,
            ;
            assert(abs(ln as int) <= 600000000000000000) by (nonlinear_arith)
                requires
                    abs(ln as int) * 927100000000000000 <= abs(ln as int) * (scale() - m),
                    abs(ln as int) * (scale() - m) <= a0 * scale(),
                    a0 <= 540000000000000000,
                    scale() == 1000000000000000000,
            ;
        }
        ln
}

impl Tick {
    /// The tick of a positive square-root price: the logarithm base 1.0005 of the price
    /// plus the offset, rounded to the nearest tick.
    pub fn from_decimal(value: Decimal) -> (r: Tick)
        requires
            0 < value.attos() <= 528470197086935858253558842035,
            0 <= tick_quotient(value.attos() as nat) <= u32::MAX,
        ensures
            r.0 == tick_quotient(value.attos() as nat),
    {
        let one: i128 = 1000000000000000000;
        let v: i128 = value.to_attos().unwrap();
        let ghost vn: nat = v as nat;
        let b = bit_length(v);
        let x = shift_near_one(v, b);
        let ln_total = ln_near_one(x);
        let ilog: i128 = b - 60;
        let h0: i128 = ilog * 1386 + 27000;
        let r0: i128 = ilog * 640905836256065677 * one + 500000000000000000000000000000000000;
        let p: i128 = ln_total * 2000;
        let pp: i128 = p + 2048 * one;
        let ph: i128 = pp / one - 2048;
        let pl: i128 = pp % one;
        let rr: i128 = r0 + pl * one + ln_total * 499958343746702560;
        let h: i128 = h0 + ph;
        let rp: i128 = rr + 64 * (one * one);
        let fl: i128 = rp / (one * one) - 64;
        let sum: i128 = h + fl;
        proof {
            let d: int = scale() * scale();
            let total: int = ilog * scale() * inv_log2_10005() + ln_total * inv_ln_10005() + 27000 * d + d / 2;
            assert(total == d * h + rr);
            assert(rp == d * (fl + 64) + (rp as int) % d);
            assert(total == d * sum + (rp as int) % d);
            assert(tick_quotient(vn) == div_toward_zero(total, d));
        }
        let q: i128 = if sum < 0 { 0 } else { sum };
        Tick(q as u32)
    }
}

/// One factor step keeps the product within the running bound: from below `a` to below
/// `a * f` (in units of 2^128) when the factor is below `f`.
proof fn lemma_factor_step_bound(r: int, exp: int, i: int, p: int, a: int, f: int)
    requires
        p > 0,
        1 <= a,
        1 <= f,
        two_128() <= r < a * two_128(),
        two_128() <= tick_factor(i) < f * two_128(),
    ensures
        two_128() <= factor_step(r, exp, i, p) < a * f * two_128(),
{
    let fv = tick_factor(i);
    assert(r * fv < a * f * two_128() * two_128()) by (nonlinear_arith)
        requires
            0 <= r < a * two_128(),
            0 <= fv < f * two_128(),
            two_128() > 0,
    ;
    assert(r < a * f * two_128()) by (nonlinear_arith)
        requires
            r < a * two_128(),
            1 <= f,
            a >= 1,
            two_128() > 0,
    ;
    if (exp / p) % 2 == 1 {
        let q = (r * fv) / two_128();
        vstd::arithmetic::div_mod::lemma_fundamental_div_mod(r * fv, two_128());
        vstd::arithmetic::div_mod::lemma_mod_pos_bound(r * fv, two_128());
        assert(two_128() <= q < a * f * two_128()) by (nonlinear_arith)
            requires
                r * fv == two_128() * q + (r * fv) % two_128(),
                0 <= (r * fv) % two_128() < two_128(),
                r * fv < a * f * two_128() * two_128(),
                r >= two_128(),
                fv >= two_128(),
                two_128() > 0,
        ;
    }
}

/// The square-root price of every tick is below 2^118 attos.
pub proof fn lemma_tick_attos_bound(tick: u32)
    ensures
        0 <= tick_attos(tick) < two_128() / 1024,
{
    let positive = tick >= 27000;
    let exp: int = if positive { tick - 27000 } else { 27000 - tick };
    let r0 = if exp % 2 == 1 { tick_factor(0) } else { two_128() };
    let r1 = factor_step(r0, exp, 1, 2);
    let r2 = factor_step(r1, exp, 2, 4);
    let r3 = factor_step(r2, exp, 3, 8);
    let r4 = factor_step(r3, exp, 4, 16);
    let r5 = factor_step(r4, exp, 5, 32);
    let r6 = factor_step(r5, exp, 6, 64);
    let r7 = factor_step(r6, exp, 7, 128);
    let r8 = factor_step(r7, exp, 8, 256);
    let r9 = factor_step(r8, exp, 9, 512);
    let r10 = factor_step(r9, exp, 10, 1024);
    let r11 = factor_step(r10, exp, 11, 2048);
    let r12 = factor_step(r11, exp, 12, 4096);
    let r13 = factor_step(r12, exp, 13, 8192);
    let r14 = factor_step(r13, exp, 14, 16384);
    lemma_factor_step_bound(r0, exp, 1, 2, 2, 2);
    lemma_factor_step_bound(r1, exp, 2, 4, 4, 2);
    lemma_factor_step_bound(r2, exp, 3, 8, 8, 2);
    lemma_factor_step_bound(r3, exp, 4, 16, 16, 2);
    lemma_factor_step_bound(r4, exp, 5, 32, 32, 2);
    lemma_factor_step_bound(r5, exp, 6, 64, 64, 2);
    lemma_factor_step_bound(r6, exp, 7, 128, 128, 2);
    lemma_factor_step_bound(r7, exp, 8, 256, 256, 2);
    lemma_factor_step_bound(r8, exp, 9, 512, 512, 2);
    lemma_factor_step_bound(r9, exp, 10, 1024, 1024, 2);
    lemma_factor_step_bound(r10, exp, 11, 2048, 2048, 4);
    lemma_factor_step_bound(r11, exp, 12, 4096, 8192, 8);
    lemma_factor_step_bound(r12, exp, 13, 8192, 65536, 64);
    lemma_factor_step_bound(r13, exp, 14, 16384, 4194304, 4096);
    assert(r14 == scaled_root(exp));
    assert(two_128() <= r14 < 0x400000000 * two_128());
    let v = if positive { r14 } else { (two_128() * two_128()) / r14 };
    if !positive {
        vstd::arithmetic::div_mod::lemma_div_is_ordered_by_denominator(two_128() * two_128(), two_128(), r14);
        vstd::arithmetic::div_mod::lemma_div_by_multiple(two_128(), two_128());
        vstd::arithmetic::div_mod::lemma_div_pos_is_pos(two_128() * two_128(), r14);
    }
    assert(0 <= v < 0x400000000 * two_128());
    let top: int = 0x400000000 * two_128() - 1;
    assert(base_divisor() >= 0x100000000000);
    vstd::arithmetic::div_mod::lemma_div_is_ordered(v, top, base_divisor());
    vstd::arithmetic::div_mod::lemma_div_is_ordered_by_denominator(top, 0x100000000000, base_divisor());
    vstd::arithmetic::div_mod::lemma_div_pos_is_pos(v, base_divisor());
    assert(top / 0x100000000000 < two_128() / 1024);
    assert(tick_attos(tick) == v / base_divisor());
}

/// Multiply by the factor of bit `i` when bit `i` of `exp` is set; `p` is `2^i`.
fn apply_factor(
    result: [u64; 6],
    exp: u32,
    p: u32,
    lo: u64,
    mid: u64,
    hi: u64,
    Ghost(i): Ghost<int>,
    Ghost(a): Ghost<int>,
    Ghost(f): Ghost<int>,
) -> (r: [u64; 6])
    requires
        p > 0,
        1 <= a,
        1 <= f,
        a * f <= 0x400000000,
        two_128() <= wide(result) < a * two_128(),
        lo + mid * two_64() + hi * two_128() == tick_factor(i),
        two_128() <= tick_factor(i) < f * two_128(),
    ensures
        wide(r) == factor_step(wide(result), exp as int, i, p as int),
        two_128() <= wide(r) < a * f * two_128(),
{
    let ghost x = wide(result);
    let ghost fv = tick_factor(i);
    assert(x * fv < a * f * two_128() * two_128()) by (nonlinear_arith)
        requires
            0 <= x < a * two_128(),
            0 <= fv < f * two_128(),
            two_128() > 0,
    ;
    assert(x < a * f * two_128()) by (nonlinear_arith)
        requires
            x < a * two_128(),
            1 <= f,
            a >= 1,
            two_128() > 0,
    ;
    if (exp / p) % 2 == 1 {
        let fw = wide3(lo, mid, hi);
        assert(a * f * two_128() * two_128() <= wide_bound()) by (nonlinear_arith)
            requires
                a * f <= 0x400000000,
                two_128() == 340282366920938463463374607431768211455int + 1,
        ;
        let prod = wide_mul(result, fw);
        let r = wide_shr_128(prod);
        proof {
            let q = (x * fv) / two_128();
            vstd::arithmetic::div_mod::lemma_fundamental_div_mod(x * fv, two_128());
            vstd::arithmetic::div_mod::lemma_mod_pos_bound(x * fv, two_128());
            assert(two_128() <= q < a * f * two_128()) by (nonlinear_arith)
                requires
                    x * fv == two_128() * q + (x * fv) % two_128(),
                    0 <= (x * fv) % two_128() < two_128(),
                    x * fv < a * f * two_128() * two_128(),
                    x >= two_128(),
                    fv >= two_128(),
                    two_128() > 0,
            ;
        }
        r
    } else {
        result
    }
}

impl Decimal {
    /// The square-root price of a tick: about `1.0005^(tick - OFFSET)`.
    pub fn from_tick(tick: Tick) -> (r: Decimal)
        ensures
            r.attos() == tick_attos(tick.0),
    {
        let (exp, positive) = if tick.0 >= 27000 {
            (tick.0 - 27000, true)
        } else {
            (27000 - tick.0, false)
        };
        let ghost e = exp as int;
        let mut result: [u64; 6] = if exp % 2 == 1 {
            wide3(0xced916872b020c4a, 0x20c49ba5e353f7, 1)
        } else {
            wide3(0, 0, 1)
        };
        result = apply_factor(result, exp, 2, 0xffda4052d666aa, 0x418d6909aed56b, 1, Ghost(1), Ghost(2), Ghost(2));
        result = apply_factor(result, exp, 4, 0xeb36e9b6781557c0, 0x832b9b30d17561, 1, Ghost(2), Ghost(4), Ghost(2));
        result = apply_factor(result, exp, 8, 0x7d06ce9cffd53266, 0x1069a6c09e4619c, 1, Ghost(3), Ghost(8), Ghost(2));
        result = apply_factor(result, exp, 16, 0xe4e204399c1a6a84, 0x20e423886132c2f, 1, Ghost(4), Ghost(16), Ghost(2));
        result = apply_factor(result, exp, 32, 0x2ff8b3e6fc5af4e4, 0x420be453d8e80c6, 1, Ghost(5), Ghost(32), Ghost(2));
        result = apply_factor(result, exp, 64, 0x87c1fe56c0f43853, 0x85286acc3c3b34c, 1, Ghost(6), Ghost(64), Ghost(2));
        result = apply_factor(result, exp, 128, 0x3967da909b785eed, 0x10ea505ee14a5cb5, 1, Ghost(7), Ghost(128), Ghost(2));
        result = apply_factor(result, exp, 256, 0x481ac7d634db64ed, 0x22f2c140a56d50eb, 1, Ghost(8), Ghost(256), Ghost(2));
        result = apply_factor(result, exp, 512, 0x1c250bcdc53b7f7, 0x4aaae40866e6f7c4, 1, Ghost(9), Ghost(512), Ghost(2));
        result = apply_factor(result, exp, 1024, 0x65fccb6eb437bcb2, 0xab1d05f94f931918, 1, Ghost(10), Ghost(1024), Ghost(2));
        result = apply_factor(result, exp, 2048, 0xb79e4d5e8d69c09e, 0xc899d5380a146cf2, 2, Ghost(11), Ghost(2048), Ghost(4));
        result = apply_factor(result, exp, 4096, 0xbe2133785a45385b, 0xbf980e7846a3f77a, 7, Ghost(12), Ghost(8192), Ghost(8));
        result = apply_factor(result, exp, 8192, 0xab8fa709bbaf5821, 0x9b50a7c860576f1, 0x3c, Ghost(13), Ghost(65536), Ghost(64));
        result = apply_factor(result, exp, 16384, 0x23e2d39925ac624a, 0x8d3b2523687f9e6a, 0xe14, Ghost(14), Ghost(4194304), Ghost(4096));
        assert(wide(result) == scaled_root(e));
        let ghost r = wide(result);
        assert(two_128() <= r < 0x400000000 * two_128());
        if !positive {
            let num = wide3(0, 0, 0);
            let mut n = num;
            n[4] = 1;
            assert(wide(n) == two_128() * two_128());
            result = wide_div(n, result);
            assert(wide(result) <= two_128()) by {
                vstd::arithmetic::div_mod::lemma_div_is_ordered_by_denominator(two_128() * two_128(), two_128(), r);
                vstd::arithmetic::div_mod::lemma_div_by_multiple(two_128(), two_128());
            }
        }
        let ghost r2 = wide(result);
        let divisor = wide3(0x725dd1d243aba0e7, 0x12, 0);
        result = wide_div(result, divisor);
        assert(wide(result) < two_191()) by {
            vstd::arithmetic::div_mod::lemma_div_is_ordered(r2, 0x400000000 * two_128(), base_divisor());
            vstd::arithmetic::div_mod::lemma_div_is_ordered_by_denominator(0x400000000 * two_128(), 1, base_divisor());
        }
        assert(result[3] == 0 && result[4] == 0 && result[5] == 0 && result[2] < 9223372036854775808) by (nonlinear_arith)
            requires
                wide(result) < two_191(),
                two_64() == 18446744073709551616int,
        ;
        Decimal::from_digits(result[0], result[1], result[2])
    }
}

} // verus!
