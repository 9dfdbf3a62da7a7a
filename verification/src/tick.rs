use vstd::prelude::*;

verus! {

/// A price tick. Tick `t` stands for the square-root price `1.0005^(t - OFFSET)`; valid
/// ticks lie in `[MIN, MAX]`.
#[derive(Clone, Copy, Debug, PartialEq, Eq, PartialOrd, Ord, Hash, Structural)]
pub struct Tick(pub u32);

/// Value offset that makes all tick values non-negative.
pub const TICK_OFFSET: u32 = 27000;

/// Largest valid tick value.
pub const TICK_MAX_VALUE: u32 = 54000;

/// The multiple of `span` reached by rounding `t` up.
pub open spec fn round_up_value(t: int, span: int) -> int {
    (t + span - 1) / span * span
}

/// The multiple of `span` reached by rounding `t` down.
pub open spec fn round_down_value(t: int, span: int) -> int {
    t / span * span
}

impl Tick {
    /// Value offset to make all numbers positive.
    pub const OFFSET: u32 = 27000;
    /// Minimum tick value.
    pub fn min() -> (r: Tick)
        ensures
            r.0 == 0,
    {
        Tick(0)
    }

    /// Maximum tick value.
    pub fn max() -> (r: Tick)
        ensures
            r.0 == TICK_MAX_VALUE,
    {
        Tick(54000)
    }

    /// Tick value of decimal 1.
    pub fn one() -> (r: Tick)
        ensures
            r.0 == TICK_OFFSET,
    {
        Tick(27000)
    }

    /// Check if the tick is valid for a pool with the given bin span: aligned to the span
    /// and within `[MIN, MAX]`.
    pub fn is_valid(&self, bin_span: u32) -> (r: bool)
        requires
            bin_span > 0,
        ensures
            r == (self.0 % bin_span == 0 && self.0 <= TICK_MAX_VALUE),
    {
        self.0 % bin_span == 0 && self.0 >= 0 && self.0 <= 54000
    }

    /// The tick one bin span above.
    pub fn tick_upper(&self, bin_span: u32) -> (r: Tick)
        requires
            self.0 + bin_span <= u32::MAX,
        ensures
            r.0 == self.0 + bin_span,
    {
        Tick(self.0 + bin_span)
    }

    /// The tick one bin span below.
    pub fn tick_lower(&self, bin_span: u32) -> (r: Tick)
        requires
            bin_span <= self.0,
        ensures
            r.0 == self.0 - bin_span,
    {
        Tick(self.0 - bin_span)
    }

    /// Round the tick up to the nearest multiple of the bin span.
    pub fn round_up(&self, bin_span: u32) -> (r: Tick)
        requires
            bin_span > 0,
            self.0 + bin_span <= u32::MAX,
        ensures
            r.0 == round_up_value(self.0 as int, bin_span as int),
            r.0 % bin_span == 0,
            self.0 <= r.0 < self.0 + bin_span,
    {
        let s = self.0 + bin_span - 1;
        let q = s / bin_span;
        proof {
            lemma_round_bounds(s as int, bin_span as int);
        }
        Tick(q * bin_span)
    }

    /// Round the tick down to the nearest multiple of the bin span.
    pub fn round_down(&self, bin_span: u32) -> (r: Tick)
        requires
            bin_span > 0,
        ensures
            r.0 == round_down_value(self.0 as int, bin_span as int),
            r.0 % bin_span == 0,
            r.0 <= self.0 < r.0 + bin_span,
    {
        let q = self.0 / bin_span;
        proof {
            lemma_round_bounds(self.0 as int, bin_span as int);
        }
        Tick(q * bin_span)
    }
}

/// A tick already on the bin grid is its own rounding, up and down.
pub proof fn law_aligned_rounding(t: u32, span: u32)
    requires
        span > 0,
        t % span == 0,
    ensures
        round_up_value(t as int, span as int) == t,
        round_down_value(t as int, span as int) == t,
{
    vstd::arithmetic::div_mod::lemma_fundamental_div_mod(t as int, span as int);
    let q = t as int / span as int;
    assert(t == span * q);
    assert(q * span == span * q) by (nonlinear_arith);
    assert((t + span - 1) / (span as int) == q) by {
        vstd::arithmetic::div_mod::lemma_fundamental_div_mod_converse(t + span - 1, span as int, q, span - 1);
    }
}

/// `s / d * d` lies in `(s - d, s]` and is a multiple of `d`.
proof fn lemma_round_bounds(s: int, d: int)
    requires
        s >= 0,
        d > 0,
    ensures
        s - d < s / d * d <= s,
        (s / d * d) % d == 0,
        s / d * d >= 0,
{
    vstd::arithmetic::div_mod::lemma_fundamental_div_mod(s, d);
    vstd::arithmetic::div_mod::lemma_mod_multiples_basic(s / d, d);
    vstd::arithmetic::div_mod::lemma_div_pos_is_pos(s, d);
    vstd::arithmetic::mul::lemma_mul_nonnegative(s / d, d);
    assert((s / d) * d == d * (s / d)) by (nonlinear_arith);
}

} // verus!
