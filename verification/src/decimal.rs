use vstd::prelude::*;
use scrypto::math::CheckedAdd;
use scrypto::math::CheckedSub;
use scrypto::math::CheckedMul;
use scrypto::math::CheckedDiv;

verus! {

/// 2^64.
#[verifier::inline]
pub open spec fn two_64() -> int {
    18446744073709551616
}

/// 2^128.
#[verifier::inline]
pub open spec fn two_128() -> int {
    two_64() * two_64()
}

/// 2^191, the bound of signed 192-bit integers.
#[verifier::inline]
pub open spec fn two_191() -> int {
    two_128() * 9223372036854775808
}

/// 2^255, the bound of signed 256-bit integers.
#[verifier::inline]
pub open spec fn two_255() -> int {
    two_128() * two_128() / 2
}

/// Number of attos in one unit (10^18).
#[verifier::inline]
pub open spec fn scale() -> int {
    1000000000000000000
}

/// `x` is a signed 192-bit integer.
pub open spec fn fits_i192(x: int) -> bool {
    -two_191() <= x < two_191()
}

/// `x` converts from a wider signed integer to a signed 192-bit one (the conversion refuses
/// the lowest value).
pub open spec fn narrows_to_i192(x: int) -> bool {
    -two_191() < x < two_191()
}

/// Integer division rounding toward zero.
pub open spec fn div_toward_zero(x: int, y: int) -> int {
    let q = (if x < 0 { -x } else { x }) / (if y < 0 { -y } else { y });
    if (x < 0) == (y < 0) {
        q
    } else {
        -q
    }
}

/// Attos of the sum, `None` on overflow.
pub open spec fn attos_add(a: int, b: int) -> Option<int> {
    if fits_i192(a + b) {
        Some(a + b)
    } else {
        None
    }
}

/// Attos of the difference, `None` on overflow.
pub open spec fn attos_sub(a: int, b: int) -> Option<int> {
    if fits_i192(a - b) {
        Some(a - b)
    } else {
        None
    }
}

/// Attos of the product: the 256-bit product of the attos divided by 10^18 toward zero;
/// `None` on overflow.
pub open spec fn attos_mul(a: int, b: int) -> Option<int> {
    let q = div_toward_zero(a * b, scale());
    if -two_255() <= a * b < two_255() && narrows_to_i192(q) {
        Some(q)
    } else {
        None
    }
}

/// Attos of the quotient: the attos of `a` times 10^18 divided by those of `b` toward zero;
/// `None` on division by zero or overflow.
pub open spec fn attos_div(a: int, b: int) -> Option<int> {
    let q = div_toward_zero(a * scale(), b);
    if b != 0 && narrows_to_i192(q) {
        Some(q)
    } else {
        None
    }
}

/// Fixed-point number with 18 decimal places: a signed 192-bit count of attos (10^-18),
/// held as three 64-bit limbs, lowest first.
#[derive(Clone, Copy, Debug, PartialEq, Eq, Structural)]
pub struct Decimal {
    lo: u64,
    mid: u64,
    hi: i64,
}

impl Decimal {
    /// The number of attos.
    pub closed spec fn attos(self) -> int {
        self.hi * two_128() + self.mid * two_64() + self.lo
    }

    /// Every decimal is a signed 192-bit number of attos.
    pub proof fn lemma_attos_range(self)
        ensures
            fits_i192(self.attos()),
    {
    }

    /// Two decimals with the same attos are the same decimal.
    pub proof fn lemma_attos_injective(self, other: Decimal)
        requires
            self.attos() == other.attos(),
        ensures
            self == other,
    {
        assert(self.hi == other.hi);
        assert(self.mid == other.mid);
    }

    /// A decimal from its three 64-bit limbs of attos in two's complement, lowest first.
    pub fn from_digits(lo: u64, mid: u64, hi: u64) -> (r: Decimal)
        ensures
            r.attos() == lo + mid * two_64() + hi * two_128() - (if hi >= 9223372036854775808 {
                two_64() * two_128()
            } else {
                0
            }),
    {
        let h: i64 = if hi >= 9223372036854775808 {
            (hi - 9223372036854775808) as i64 - 9223372036854775807 - 1
        } else {
            hi as i64
        };
        Decimal { lo, mid, hi: h }
    }

    /// The three 64-bit limbs of attos in two's complement, lowest first.
    pub fn to_digits(&self) -> (r: (u64, u64, u64))
        ensures
            r.0 + r.1 * two_64() + r.2 * two_128() - (if r.2 >= 9223372036854775808 {
                two_64() * two_128()
            } else {
                0
            }) == self.attos(),
    {
        let h: u64 = if self.hi < 0 {
            ((self.hi + 9223372036854775807 + 1) as u64) + 9223372036854775808
        } else {
            self.hi as u64
        };
        (self.lo, self.mid, h)
    }

    /// The zero decimal.
    pub closed spec fn spec_zero() -> Decimal {
        Decimal { lo: 0, mid: 0, hi: 0 }
    }

    /// The zero decimal has no attos.
    pub proof fn lemma_spec_zero()
        ensures
            Decimal::spec_zero().attos() == 0,
    {
    }

    /// Zero.
    pub fn zero() -> (r: Decimal)
        ensures
            r.attos() == 0,
            r == Decimal::spec_zero(),
    {
        Decimal { lo: 0, mid: 0, hi: 0 }
    }

    /// One (10^18 attos).
    pub fn one() -> (r: Decimal)
        ensures
            r.attos() == scale(),
    {
        Decimal { lo: 1000000000000000000, mid: 0, hi: 0 }
    }

    /// A decimal from a number of attos.
    pub fn from_attos(attos: i128) -> (r: Decimal)
        ensures
            r.attos() == attos,
    {
        if attos >= 0 {
            let a: u128 = attos as u128;
            Decimal { lo: (a % 18446744073709551616) as u64, mid: (a / 18446744073709551616) as u64, hi: 0 }
        } else {
            let a: u128 = (attos + 170141183460469231731687303715884105727 + 1) as u128
                + 170141183460469231731687303715884105728;
            Decimal { lo: (a % 18446744073709551616) as u64, mid: (a / 18446744073709551616) as u64, hi: -1 }
        }
    }

    /// A decimal from a whole number of units.
    pub fn from_units(units: u64) -> (r: Decimal)
        ensures
            r.attos() == units * scale(),
    {
        let a: u128 = (units as u128) * 1000000000000000000;
        Decimal { lo: (a % 18446744073709551616) as u64, mid: (a / 18446744073709551616) as u64, hi: 0 }
    }

    /// The number of attos when it fits in an `i128`.
    pub fn to_attos(&self) -> (r: Option<i128>)
        ensures
            r matches Some(a) ==> a == self.attos(),
            r is None <==> !(i128::MIN <= self.attos() <= i128::MAX),
    {
        if self.hi == 0 && self.mid < 9223372036854775808 {
            Some((self.mid as i128) * 18446744073709551616 + self.lo as i128)
        } else if self.hi == -1 && self.mid >= 9223372036854775808 {
            Some(((self.mid - 9223372036854775808) as i128) * 18446744073709551616 + self.lo as i128
                - 170141183460469231731687303715884105727 - 1)
        } else {
            None
        }
    }

    /// The decimal is zero.
    pub fn is_zero(&self) -> (r: bool)
        ensures
            r == (self.attos() == 0),
    {
        self.hi == 0 && self.mid == 0 && self.lo == 0
    }

    /// The decimal is below `other`.
    pub fn lt(&self, other: &Decimal) -> (r: bool)
        ensures
            r == (self.attos() < other.attos()),
    {
        if self.hi != other.hi {
            self.hi < other.hi
        } else if self.mid != other.mid {
            self.mid < other.mid
        } else {
            self.lo < other.lo
        }
    }

    /// The decimal is at most `other`.
    pub fn le(&self, other: &Decimal) -> (r: bool)
        ensures
            r == (self.attos() <= other.attos()),
    {
        !other.lt(self)
    }

    /// The larger of two decimals.
    pub fn max(self, other: Decimal) -> (r: Decimal)
        ensures
            r.attos() == if self.attos() >= other.attos() { self.attos() } else { other.attos() },
            r == self || r == other,
    {
        if other.le(&self) {
            self
        } else {
            other
        }
    }
}

/// Sum of two decimals with scrypto's `Decimal::checked_add`: `None` on overflow.
#[verifier::external_body]
pub(crate) fn dec_checked_add(a: Decimal, b: Decimal) -> (r: Option<Decimal>)
    ensures
        r matches Some(c) ==> attos_add(a.attos(), b.attos()) == Some(c.attos()),
        r is None <==> attos_add(a.attos(), b.attos()) is None,
{
    let x = scrypto::math::Decimal::from_attos(scrypto::math::I192::from_digits([a.lo, a.mid, a.hi as u64]));
    let y = scrypto::math::Decimal::from_attos(scrypto::math::I192::from_digits([b.lo, b.mid, b.hi as u64]));
    match x.checked_add(y) {
        Some(z) => {
            let d = z.attos().to_digits();
            Some(Decimal { lo: d[0], mid: d[1], hi: d[2] as i64 })
        },
        None => None,
    }
}

/// Difference of two decimals with scrypto's `Decimal::checked_sub`: `None` on overflow.
#[verifier::external_body]
pub(crate) fn dec_checked_sub(a: Decimal, b: Decimal) -> (r: Option<Decimal>)
    ensures
        r matches Some(c) ==> attos_sub(a.attos(), b.attos()) == Some(c.attos()),
        r is None <==> attos_sub(a.attos(), b.attos()) is None,
{
    let x = scrypto::math::Decimal::from_attos(scrypto::math::I192::from_digits([a.lo, a.mid, a.hi as u64]));
    let y = scrypto::math::Decimal::from_attos(scrypto::math::I192::from_digits([b.lo, b.mid, b.hi as u64]));
    match x.checked_sub(y) {
        Some(z) => {
            let d = z.attos().to_digits();
            Some(Decimal { lo: d[0], mid: d[1], hi: d[2] as i64 })
        },
        None => None,
    }
}

/// Product of two decimals with scrypto's `Decimal::checked_mul`: the attos multiplied in
/// 256 bits, divided by 10^18 toward zero; `None` on overflow.
#[verifier::external_body]
pub(crate) fn dec_checked_mul(a: Decimal, b: Decimal) -> (r: Option<Decimal>)
    ensures
        r matches Some(c) ==> attos_mul(a.attos(), b.attos()) == Some(c.attos()),
        r is None <==> attos_mul(a.attos(), b.attos()) is None,
{
    let x = scrypto::math::Decimal::from_attos(scrypto::math::I192::from_digits([a.lo, a.mid, a.hi as u64]));
    let y = scrypto::math::Decimal::from_attos(scrypto::math::I192::from_digits([b.lo, b.mid, b.hi as u64]));
    match x.checked_mul(y) {
        Some(z) => {
            let d = z.attos().to_digits();
            Some(Decimal { lo: d[0], mid: d[1], hi: d[2] as i64 })
        },
        None => None,
    }
}

/// Quotient of two decimals with scrypto's `Decimal::checked_div`: the attos of `a` times
/// 10^18 divided by those of `b` toward zero; `None` on division by zero or overflow.
#[verifier::external_body]
pub(crate) fn dec_checked_div(a: Decimal, b: Decimal) -> (r: Option<Decimal>)
    ensures
        r matches Some(c) ==> attos_div(a.attos(), b.attos()) == Some(c.attos()),
        r is None <==> attos_div(a.attos(), b.attos()) is None,
{
    let x = scrypto::math::Decimal::from_attos(scrypto::math::I192::from_digits([a.lo, a.mid, a.hi as u64]));
    let y = scrypto::math::Decimal::from_attos(scrypto::math::I192::from_digits([b.lo, b.mid, b.hi as u64]));
    match x.checked_div(y) {
        Some(z) => {
            let d = z.attos().to_digits();
            Some(Decimal { lo: d[0], mid: d[1], hi: d[2] as i64 })
        },
        None => None,
    }
}

} // verus!
