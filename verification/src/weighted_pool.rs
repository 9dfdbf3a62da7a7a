use vstd::prelude::*;
use scrypto::prelude::ResourceAddress;
use scrypto::prelude::ComponentAddress;
use crate::address::resource_eq;
use crate::decimal::{Decimal, scale, attos_add, attos_sub, attos_mul, attos_div, dec_checked_add, dec_checked_sub,
    dec_checked_mul, dec_checked_div};

verus! {

/// Why a weighted pool operation was refused.
#[derive(Clone, Copy, Debug, PartialEq, Eq, Structural)]
pub enum WeightedPoolError {
    /// The weight of token x is not between 0.1 and 0.9.
    InvalidWeight,
    /// The fee is not between 0.0001 and 0.01.
    InvalidFee,
    /// A fee share is not between 0 and 0.1.
    InvalidFeeShare,
    /// The input token is not one of the pool's tokens.
    InvalidInputToken,
    /// A reserve is not greater than zero.
    EmptyReserve,
    /// Decimal arithmetic overflowed or divided by zero.
    ArithmeticError,
}

/// The lowest weight of token x: 0.1.
pub open spec fn min_weight() -> int {
    100000000000000000
}

/// The highest weight of token x: 0.9.
pub open spec fn max_weight() -> int {
    900000000000000000
}

/// The lowest fee: 0.0001.
pub open spec fn min_fee() -> int {
    100000000000000
}

/// The highest fee: 0.01.
pub open spec fn max_fee() -> int {
    10000000000000000
}

/// The highest fee share: 0.1.
pub open spec fn max_fee_share() -> int {
    100000000000000000
}

/// Information on a weighted pool: its price, tokens, reserves, weights and fees.
#[derive(Clone, Copy)]
pub struct PoolInfo {
    pub price: Decimal,
    pub resource_x: ResourceAddress,
    pub resource_y: ResourceAddress,
    pub reserve_x: Decimal,
    pub reserve_y: Decimal,
    pub weight_x: Decimal,
    pub weight_y: Decimal,
    pub fee: Decimal,
    pub protocol_fee_share: Decimal,
    pub treasury_fee_share: Decimal,
    pub pool_component: ComponentAddress,
    pub lp_resource: ResourceAddress,
}

/// The terms of a swap: which reserve and weight are on each side, how the fee on the input
/// is split, and the input left to swap after the fee.
#[derive(Clone, Copy)]
pub struct SwapTerms {
    pub output_resource: ResourceAddress,
    pub input_reserve: Decimal,
    pub output_reserve: Decimal,
    pub input_weight: Decimal,
    pub output_weight: Decimal,
    pub protocol_fee: Decimal,
    pub treasury_fee: Decimal,
    pub liquidity_fee: Decimal,
    pub swap_input: Decimal,
}

/// Price of token x in token y: `(reserve_y / weight_y) / (reserve_x / weight_x)`, zero when
/// a reserve is empty; `None` when a step fails.
pub open spec fn weighted_price(rx: int, ry: int, wx: int, wy: int) -> Option<int> {
    if rx == 0 || ry == 0 {
        Some(0)
    } else {
        match (attos_div(ry, wy), attos_div(rx, wx)) {
            (Some(a), Some(b)) => attos_div(a, b),
            _ => None,
        }
    }
}

/// Fee split of a swap of `amount` with fee rate `fee` and protocol and treasury shares `ps`
/// and `ts`: the protocol fee, the treasury fee, the liquidity fee (the rest of the fee) and
/// the input left after the fee; `None` when a step fails.
pub open spec fn fee_split(amount: int, fee: int, ps: int, ts: int) -> Option<(int, int, int, int)> {
    match attos_mul(amount, fee) {
        Some(f) => match (attos_mul(f, ps), attos_mul(f, ts)) {
            (Some(p), Some(t)) => match attos_sub(f, p) {
                Some(fp) => match (attos_sub(fp, t), attos_sub(amount, f)) {
                    (Some(l), Some(net)) => Some((p, t, l, net)),
                    _ => None,
                },
                None => None,
            },
            _ => None,
        },
        None => None,
    }
}

/// The fee split of a swap accounts for the whole input: the protocol, treasury and
/// liquidity fees and the input left to swap add up to the amount.
pub proof fn law_fee_split_conserves(amount: int, fee: int, ps: int, ts: int)
    ensures
        fee_split(amount, fee, ps, ts) matches Some((p, t, l, net)) ==> p + t + l + net == amount,
{
}

/// The fee of a swap is `amount * fee` rounded down, and the protocol and the treasury each
/// take their own share of it, `fee * protocol_share` and `fee * treasury_share` rounded
/// down; the liquidity providers get the rest of the fee and the remaining input is swapped.
/// In particular a zero share yields a zero fee for its holder.
pub proof fn law_fee_split_shares(amount: int, fee: int, ps: int, ts: int)
    requires
        amount >= 0,
        fee >= 0,
        ps >= 0,
        ts >= 0,
    ensures
        fee_split(amount, fee, ps, ts) matches Some((p, t, l, net)) ==> {
            let f = p + t + l;
            &&& f * scale() <= amount * fee < (f + 1) * scale()
            &&& p * scale() <= f * ps < (p + 1) * scale()
            &&& t * scale() <= f * ts < (t + 1) * scale()
            &&& net == amount - f
        },
{
    let s = scale();
    if let Some((p, t, l, net)) = fee_split(amount, fee, ps, ts) {
        let f = attos_mul(amount, fee).unwrap();
        assert(amount * fee >= 0) by (nonlinear_arith)
            requires
                amount >= 0,
                fee >= 0,
        ;
        assert(f == (amount * fee) / s);
        vstd::arithmetic::div_mod::lemma_fundamental_div_mod(amount * fee, s);
        vstd::arithmetic::div_mod::lemma_mod_pos_bound(amount * fee, s);
        vstd::arithmetic::div_mod::lemma_div_pos_is_pos(amount * fee, s);
        assert(f * ps >= 0) by (nonlinear_arith)
            requires
                f >= 0,
                ps >= 0,
        ;
        assert(f * ts >= 0) by (nonlinear_arith)
            requires
                f >= 0,
                ts >= 0,
        ;
        assert(p == (f * ps) / s);
        assert(t == (f * ts) / s);
        vstd::arithmetic::div_mod::lemma_fundamental_div_mod(f * ps, s);
        vstd::arithmetic::div_mod::lemma_mod_pos_bound(f * ps, s);
        vstd::arithmetic::div_mod::lemma_fundamental_div_mod(f * ts, s);
        vstd::arithmetic::div_mod::lemma_mod_pos_bound(f * ts, s);
        assert(p + t + l == f);
        assert(f * s <= amount * fee < (f + 1) * s) by (nonlinear_arith)
            requires
                amount * fee == s * f + (amount * fee) % s,
                0 <= (amount * fee) % s < s,
        ;
        assert(p * s <= f * ps < (p + 1) * s) by (nonlinear_arith)
            requires
                f * ps == s * p + (f * ps) % s,
                0 <= (f * ps) % s < s,
        ;
        assert(t * s <= f * ts < (t + 1) * s) by (nonlinear_arith)
            requires
                f * ts == s * t + (f * ts) % s,
                0 <= (f * ts) % s < s,
        ;
    }
}

/// The price of token x in token y rises with the reserve of token y.
pub proof fn law_price_rises_with_reserve_y(rx: int, ry1: int, ry2: int, wx: int, wy: int)
    requires
        0 < rx,
        0 < ry1 <= ry2,
        0 < wx,
        0 < wy,
    ensures
        (weighted_price(rx, ry1, wx, wy), weighted_price(rx, ry2, wx, wy)) matches (Some(p1), Some(p2)) ==> p1 <= p2,
{
    let s = scale();
    if let (Some(p1), Some(p2)) = (weighted_price(rx, ry1, wx, wy), weighted_price(rx, ry2, wx, wy)) {
        let a1 = attos_div(ry1, wy).unwrap();
        let a2 = attos_div(ry2, wy).unwrap();
        let b = attos_div(rx, wx).unwrap();
        assert(0 <= ry1 * s <= ry2 * s) by (nonlinear_arith)
            requires
                0 < ry1 <= ry2,
                s > 0,
        ;
        assert(rx * s >= 0) by (nonlinear_arith)
            requires
                rx > 0,
                s > 0,
        ;
        assert(a1 == (ry1 * s) / wy);
        assert(a2 == (ry2 * s) / wy);
        assert(b == (rx * s) / wx);
        vstd::arithmetic::div_mod::lemma_div_is_ordered(ry1 * s, ry2 * s, wy);
        vstd::arithmetic::div_mod::lemma_div_pos_is_pos(ry1 * s, wy);
        vstd::arithmetic::div_mod::lemma_div_pos_is_pos(rx * s, wx);
        assert(b > 0);
        assert(0 <= a1 * s <= a2 * s) by (nonlinear_arith)
            requires
                0 <= a1 <= a2,
                s > 0,
        ;
        assert(p1 == (a1 * s) / b);
        assert(p2 == (a2 * s) / b);
        vstd::arithmetic::div_mod::lemma_div_is_ordered(a1 * s, a2 * s, b);
    }
}

/// The price of token x in token y falls as the reserve of token x grows.
pub proof fn law_price_falls_with_reserve_x(rx1: int, rx2: int, ry: int, wx: int, wy: int)
    requires
        0 < rx1 <= rx2,
        0 < ry,
        0 < wx,
        0 < wy,
    ensures
        (weighted_price(rx1, ry, wx, wy), weighted_price(rx2, ry, wx, wy)) matches (Some(p1), Some(p2)) ==> p2 <= p1,
{
    let s = scale();
    if let (Some(p1), Some(p2)) = (weighted_price(rx1, ry, wx, wy), weighted_price(rx2, ry, wx, wy)) {
        let a = attos_div(ry, wy).unwrap();
        let b1 = attos_div(rx1, wx).unwrap();
        let b2 = attos_div(rx2, wx).unwrap();
        assert(0 <= rx1 * s <= rx2 * s) by (nonlinear_arith)
            requires
                0 < rx1 <= rx2,
                s > 0,
        ;
        assert(ry * s >= 0) by (nonlinear_arith)
            requires
                ry > 0,
                s > 0,
        ;
        assert(a == (ry * s) / wy);
        assert(b1 == (rx1 * s) / wx);
        assert(b2 == (rx2 * s) / wx);
        vstd::arithmetic::div_mod::lemma_div_is_ordered(rx1 * s, rx2 * s, wx);
        vstd::arithmetic::div_mod::lemma_div_pos_is_pos(ry * s, wy);
        vstd::arithmetic::div_mod::lemma_div_pos_is_pos(rx1 * s, wx);
        assert(b1 > 0);
        assert(a * s >= 0) by (nonlinear_arith)
            requires
                a >= 0,
                s > 0,
        ;
        assert(p1 == (a * s) / b1);
        assert(p2 == (a * s) / b2);
        vstd::arithmetic::div_mod::lemma_div_is_ordered_by_denominator(a * s, b1, b2);
    }
}

/// With a non-negative input, a fee rate between 0 and 0.01 and fee shares between 0 and
/// 0.1, the split always succeeds and every part is non-negative.
pub proof fn law_fee_split_bounds(amount: Decimal, fee: int, ps: int, ts: int)
    requires
        amount.attos() >= 0,
        0 <= fee <= max_fee(),
        0 <= ps <= max_fee_share(),
        0 <= ts <= max_fee_share(),
    ensures
        fee_split(amount.attos(), fee, ps, ts) matches Some((p, t, l, net)) && p >= 0 && t >= 0 && l >= 0 && net >= 0,
{
    let a = amount.attos();
    amount.lemma_attos_range();
    lemma_part(a, fee);
    let f = attos_mul(a, fee).unwrap();
    assert(f <= a) by {
        assert(fee <= scale());
    }
    lemma_part(f, ps);
    lemma_part(f, ts);
    let p = attos_mul(f, ps).unwrap();
    let t = attos_mul(f, ts).unwrap();
    assert(p * 10 <= f && t * 10 <= f) by {
        lemma_tenth(f, ps);
        lemma_tenth(f, ts);
    }
}

/// A part of at most one of a non-negative decimal is non-negative and at most the decimal.
proof fn lemma_part(a: int, r: int)
    requires
        0 <= a < crate::decimal::two_191(),
        0 <= r <= scale(),
    ensures
        attos_mul(a, r) matches Some(v) && 0 <= v <= a,
{
    assert(0 <= a * r <= a * scale()) by (nonlinear_arith)
        requires
            0 <= a,
            0 <= r <= scale(),
    ;
    assert(a * scale() < crate::decimal::two_255()) by (nonlinear_arith)
        requires
            0 <= a < crate::decimal::two_191(),
    ;
    assert(crate::decimal::div_toward_zero(a * r, scale()) == (a * r) / scale());
    vstd::arithmetic::div_mod::lemma_div_is_ordered(a * r, a * scale(), scale());
    vstd::arithmetic::div_mod::lemma_div_multiples_vanish(a, scale());
    assert(a * scale() == scale() * a) by (nonlinear_arith);
    vstd::arithmetic::div_mod::lemma_div_pos_is_pos(a * r, scale());
}

/// A part of at most a tenth of a non-negative decimal is at most a tenth of it.
proof fn lemma_tenth(a: int, r: int)
    requires
        0 <= a,
        0 <= r <= max_fee_share(),
    ensures
        attos_mul(a, r) matches Some(v) ==> v * 10 <= a,
{
    if let Some(v) = attos_mul(a, r) {
        assert(a * r >= 0) by (nonlinear_arith)
            requires
                0 <= a,
                0 <= r,
        ;
        assert(v == (a * r) / scale());
        assert(a * r * 10 <= a * scale()) by (nonlinear_arith)
            requires
                0 <= a,
                r * 10 <= scale(),
        ;
        vstd::arithmetic::div_mod::lemma_fundamental_div_mod(a * r, scale());
        vstd::arithmetic::div_mod::lemma_mod_pos_bound(a * r, scale());
        assert(v * 10 <= a) by (nonlinear_arith)
            requires
                a * r == scale() * v + (a * r) % scale(),
                (a * r) % scale() >= 0,
                a * r * 10 <= a * scale(),
                scale() > 0,
        ;
    }
}

/// A two-token pool whose price follows the tokens' weights.
pub struct WeightedPool {
    resource_x: ResourceAddress,
    resource_y: ResourceAddress,
    weight_x: Decimal,
    weight_y: Decimal,
    fee: Decimal,
    protocol_fee_share: Decimal,
    treasury_fee_share: Decimal,
}

impl WeightedPool {
    /// Token x.
    pub closed spec fn spec_resource_x(&self) -> ResourceAddress {
        self.resource_x
    }

    /// Token y.
    pub closed spec fn spec_resource_y(&self) -> ResourceAddress {
        self.resource_y
    }

    /// Weight of token x.
    pub closed spec fn spec_weight_x(&self) -> Decimal {
        self.weight_x
    }

    /// Weight of token y.
    pub closed spec fn spec_weight_y(&self) -> Decimal {
        self.weight_y
    }

    /// Fee rate on swaps.
    pub closed spec fn spec_fee(&self) -> Decimal {
        self.fee
    }

    /// Share of the fee that goes to the protocol.
    pub closed spec fn spec_protocol_fee_share(&self) -> Decimal {
        self.protocol_fee_share
    }

    /// Share of the fee that goes to the treasury.
    pub closed spec fn spec_treasury_fee_share(&self) -> Decimal {
        self.treasury_fee_share
    }

    /// Both pools have the same tokens, weights and fee rate.
    pub open spec fn same_setup(&self, other: WeightedPool) -> bool {
        &&& self.spec_resource_x() == other.spec_resource_x()
        &&& self.spec_resource_y() == other.spec_resource_y()
        &&& self.spec_weight_x() == other.spec_weight_x()
        &&& self.spec_weight_y() == other.spec_weight_y()
        &&& self.spec_fee() == other.spec_fee()
    }

    /// The weights are between 0.1 and 0.9 and add up to one; the fee is between 0.0001 and
    /// 0.01; the fee shares are between 0 and 0.1.
    pub closed spec fn wf(&self) -> bool {
        &&& min_weight() <= self.weight_x.attos() <= max_weight()
        &&& self.weight_x.attos() + self.weight_y.attos() == scale()
        &&& min_fee() <= self.fee.attos() <= max_fee()
        &&& 0 <= self.protocol_fee_share.attos() <= max_fee_share()
        &&& 0 <= self.treasury_fee_share.attos() <= max_fee_share()
    }

    /// A pool of tokens x and y where token x weighs `weight_x` (between 0.1 and 0.9) and
    /// token y the rest, with fee rate `fee` (between 0.0001 and 0.01) and fee shares of 0.1
    /// for the protocol and for the treasury.
    pub fn new(resource_x: ResourceAddress, resource_y: ResourceAddress, weight_x: Decimal, fee: Decimal) -> (r: Result<WeightedPool, WeightedPoolError>)
        ensures
            !(min_weight() <= weight_x.attos() <= max_weight()) ==> r == Err::<WeightedPool, WeightedPoolError>(
                WeightedPoolError::InvalidWeight),
            min_weight() <= weight_x.attos() <= max_weight() && !(min_fee() <= fee.attos() <= max_fee()) ==> r == Err::<
                WeightedPool,
                WeightedPoolError,
            >(WeightedPoolError::InvalidFee),
            min_weight() <= weight_x.attos() <= max_weight() && min_fee() <= fee.attos() <= max_fee() ==> (r matches Ok(p)
                && p.wf() && p.spec_resource_x() == resource_x && p.spec_resource_y() == resource_y
                && p.spec_weight_x() == weight_x && p.spec_weight_y().attos() == scale() - weight_x.attos()
                && p.spec_fee() == fee && p.spec_protocol_fee_share().attos() == max_fee_share()
                && p.spec_treasury_fee_share().attos() == max_fee_share()),
    {
        let min_w = Decimal::from_attos(100000000000000000);
        let max_w = Decimal::from_attos(900000000000000000);
        if !(min_w.le(&weight_x) && weight_x.le(&max_w)) {
            return Err(WeightedPoolError::InvalidWeight);
        }
        let weight_y = match dec_checked_sub(Decimal::one(), weight_x) {
            Some(w) => w,
            None => return Err(WeightedPoolError::ArithmeticError),
        };
        let min_f = Decimal::from_attos(100000000000000);
        let max_f = Decimal::from_attos(10000000000000000);
        if !(min_f.le(&fee) && fee.le(&max_f)) {
            return Err(WeightedPoolError::InvalidFee);
        }
        let share = Decimal::from_attos(100000000000000000);
        Ok(WeightedPool {
            resource_x,
            resource_y,
            weight_x,
            weight_y,
            fee,
            protocol_fee_share: share,
            treasury_fee_share: share,
        })
    }

    /// Set the protocol's share of the fee; refused outside `[0, 0.1]`.
    pub fn set_protocol_fee_share(&mut self, protocol_fee_share: Decimal) -> (r: Result<(), WeightedPoolError>)
        requires
            old(self).wf(),
        ensures
            final(self).wf(),
            (0 <= protocol_fee_share.attos() <= max_fee_share()) ==> r is Ok
                && final(self).spec_protocol_fee_share() == protocol_fee_share
                && final(self).spec_treasury_fee_share() == old(self).spec_treasury_fee_share()
                && final(self).same_setup(*old(self)),
            !(0 <= protocol_fee_share.attos() <= max_fee_share()) ==> r == Err::<(), WeightedPoolError>(
                WeightedPoolError::InvalidFeeShare) && *final(self) == *old(self),
    {
        let zero = Decimal::zero();
        let max_s = Decimal::from_attos(100000000000000000);
        if !(zero.le(&protocol_fee_share) && protocol_fee_share.le(&max_s)) {
            return Err(WeightedPoolError::InvalidFeeShare);
        }
        self.protocol_fee_share = protocol_fee_share;
        Ok(())
    }

    /// Set the treasury's share of the fee; refused outside `[0, 0.1]`.
    pub fn set_treasury_fee_share(&mut self, treasury_fee_share: Decimal) -> (r: Result<(), WeightedPoolError>)
        requires
            old(self).wf(),
        ensures
            final(self).wf(),
            (0 <= treasury_fee_share.attos() <= max_fee_share()) ==> r is Ok
                && final(self).spec_treasury_fee_share() == treasury_fee_share
                && final(self).spec_protocol_fee_share() == old(self).spec_protocol_fee_share()
                && final(self).same_setup(*old(self)),
            !(0 <= treasury_fee_share.attos() <= max_fee_share()) ==> r == Err::<(), WeightedPoolError>(
                WeightedPoolError::InvalidFeeShare) && *final(self) == *old(self),
    {
        let zero = Decimal::zero();
        let max_s = Decimal::from_attos(100000000000000000);
        if !(zero.le(&treasury_fee_share) && treasury_fee_share.le(&max_s)) {
            return Err(WeightedPoolError::InvalidFeeShare);
        }
        self.treasury_fee_share = treasury_fee_share;
        Ok(())
    }

    /// Information on the pool with reserves `reserve_x` and `reserve_y`, its pool component
    /// and its pool unit resource.
    pub fn get_info(&self, reserve_x: Decimal, reserve_y: Decimal, pool_component: ComponentAddress, lp_resource: ResourceAddress) -> (r: Result<PoolInfo, WeightedPoolError>)
        ensures
            match weighted_price(reserve_x.attos(), reserve_y.attos(), self.spec_weight_x().attos(), self.spec_weight_y().attos()) {
                Some(p) => r matches Ok(info) && info.price.attos() == p && info.resource_x == self.spec_resource_x()
                    && info.resource_y == self.spec_resource_y() && info.reserve_x == reserve_x
                    && info.reserve_y == reserve_y && info.weight_x == self.spec_weight_x()
                    && info.weight_y == self.spec_weight_y() && info.fee == self.spec_fee()
                    && info.protocol_fee_share == self.spec_protocol_fee_share()
                    && info.treasury_fee_share == self.spec_treasury_fee_share()
                    && info.pool_component == pool_component && info.lp_resource == lp_resource,
                None => r is Err && r == Err::<PoolInfo, WeightedPoolError>(WeightedPoolError::ArithmeticError),
            },
    {
        let price = if reserve_x.is_zero() || reserve_y.is_zero() {
            Decimal::zero()
        } else {
            let a = match dec_checked_div(reserve_y, self.weight_y) {
                Some(v) => v,
                None => return Err(WeightedPoolError::ArithmeticError),
            };
            let b = match dec_checked_div(reserve_x, self.weight_x) {
                Some(v) => v,
                None => return Err(WeightedPoolError::ArithmeticError),
            };
            match dec_checked_div(a, b) {
                Some(v) => v,
                None => return Err(WeightedPoolError::ArithmeticError),
            }
        };
        Ok(PoolInfo {
            price,
            resource_x: self.resource_x,
            resource_y: self.resource_y,
            reserve_x,
            reserve_y,
            weight_x: self.weight_x,
            weight_y: self.weight_y,
            fee: self.fee,
            protocol_fee_share: self.protocol_fee_share,
            treasury_fee_share: self.treasury_fee_share,
            pool_component,
            lp_resource,
        })
    }

    /// The terms of swapping `input_amount` of `input_resource` against reserves `reserve_x`
    /// and `reserve_y`: the input token must be token x or token y; the fee is
    /// `input_amount * fee`, of which the protocol and the treasury take their shares and the
    /// liquidity providers the rest.
    pub fn swap(&self, input_resource: ResourceAddress, reserve_x: Decimal, reserve_y: Decimal, input_amount: Decimal) -> (r: Result<SwapTerms, WeightedPoolError>)
        ensures
            input_resource != self.spec_resource_x() && input_resource != self.spec_resource_y() ==> r == Err::<
                SwapTerms,
                WeightedPoolError,
            >(WeightedPoolError::InvalidInputToken),
            input_resource == self.spec_resource_x() || input_resource == self.spec_resource_y() ==> {
                let is_x = input_resource == self.spec_resource_x();
                match fee_split(input_amount.attos(), self.spec_fee().attos(), self.spec_protocol_fee_share().attos(),
                    self.spec_treasury_fee_share().attos()) {
                    Some((p, t, l, net)) => r matches Ok(terms)
                        && terms.output_resource == (if is_x { self.spec_resource_y() } else { self.spec_resource_x() })
                        && terms.input_reserve == (if is_x { reserve_x } else { reserve_y })
                        && terms.output_reserve == (if is_x { reserve_y } else { reserve_x })
                        && terms.input_weight == (if is_x { self.spec_weight_x() } else { self.spec_weight_y() })
                        && terms.output_weight == (if is_x { self.spec_weight_y() } else { self.spec_weight_x() })
                        && terms.protocol_fee.attos() == p && terms.treasury_fee.attos() == t
                        && terms.liquidity_fee.attos() == l && terms.swap_input.attos() == net,
                    None => r == Err::<SwapTerms, WeightedPoolError>(WeightedPoolError::ArithmeticError),
                }
            },
    {
        let (output_resource, input_reserve, output_reserve, input_weight, output_weight) = if resource_eq(&input_resource, &self.resource_x) {
            (self.resource_y, reserve_x, reserve_y, self.weight_x, self.weight_y)
        } else if resource_eq(&input_resource, &self.resource_y) {
            (self.resource_x, reserve_y, reserve_x, self.weight_y, self.weight_x)
        } else {
            return Err(WeightedPoolError::InvalidInputToken);
        };
        let fee = match dec_checked_mul(input_amount, self.fee) {
            Some(v) => v,
            None => return Err(WeightedPoolError::ArithmeticError),
        };
        let protocol_fee = match dec_checked_mul(fee, self.protocol_fee_share) {
            Some(v) => v,
            None => return Err(WeightedPoolError::ArithmeticError),
        };
        let treasury_fee = match dec_checked_mul(fee, self.treasury_fee_share) {
            Some(v) => v,
            None => return Err(WeightedPoolError::ArithmeticError),
        };
        let fee_after_protocol = match dec_checked_sub(fee, protocol_fee) {
            Some(v) => v,
            None => return Err(WeightedPoolError::ArithmeticError),
        };
        let liquidity_fee = match dec_checked_sub(fee_after_protocol, treasury_fee) {
            Some(v) => v,
            None => return Err(WeightedPoolError::ArithmeticError),
        };
        let swap_input = match dec_checked_sub(input_amount, fee) {
            Some(v) => v,
            None => return Err(WeightedPoolError::ArithmeticError),
        };
        Ok(SwapTerms {
            output_resource,
            input_reserve,
            output_reserve,
            input_weight,
            output_weight,
            protocol_fee,
            treasury_fee,
            liquidity_fee,
            swap_input,
        })
    }
}

/// The two ratios of a weighted swap of `input_amount` into a pool with `input_reserve`:
/// the reserve ratio `input_reserve / (input_reserve + input_amount)` and the weight ratio
/// `input_weight / output_weight`. Both reserves must be greater than zero.
pub fn calculate_swap_ratios(input_reserve: Decimal, output_reserve: Decimal, input_weight: Decimal, output_weight: Decimal, input_amount: Decimal) -> (r: Result<(Decimal, Decimal), WeightedPoolError>)
    ensures
        input_reserve.attos() <= 0 || output_reserve.attos() <= 0 ==> r == Err::<(Decimal, Decimal), WeightedPoolError>(
            WeightedPoolError::EmptyReserve),
        input_reserve.attos() > 0 && output_reserve.attos() > 0 ==> match attos_add(input_reserve.attos(), input_amount.attos()) {
            Some(total) => match (attos_div(input_reserve.attos(), total), attos_div(input_weight.attos(), output_weight.attos())) {
                (Some(a), Some(b)) => r matches Ok((x, y)) && x.attos() == a && y.attos() == b,
                _ => r == Err::<(Decimal, Decimal), WeightedPoolError>(WeightedPoolError::ArithmeticError),
            },
            None => r == Err::<(Decimal, Decimal), WeightedPoolError>(WeightedPoolError::ArithmeticError),
        },
{
    let zero = Decimal::zero();
    if !zero.lt(&input_reserve) || !zero.lt(&output_reserve) {
        return Err(WeightedPoolError::EmptyReserve);
    }
    let total = match dec_checked_add(input_reserve, input_amount) {
        Some(v) => v,
        None => return Err(WeightedPoolError::ArithmeticError),
    };
    let reserve_ratio = match dec_checked_div(input_reserve, total) {
        Some(v) => v,
        None => return Err(WeightedPoolError::ArithmeticError),
    };
    let weight_ratio = match dec_checked_div(input_weight, output_weight) {
        Some(v) => v,
        None => return Err(WeightedPoolError::ArithmeticError),
    };
    Ok((reserve_ratio, weight_ratio))
}

/// The output of a weighted swap, `output_reserve * (1 - power_result)`, where
/// `power_result` is the reserve ratio raised to the weight ratio.
pub fn calculate_swap_output(output_reserve: Decimal, power_result: Decimal) -> (r: Result<Decimal, WeightedPoolError>)
    ensures
        match attos_sub(scale(), power_result.attos()) {
            Some(d) => match attos_mul(output_reserve.attos(), d) {
                Some(v) => r matches Ok(o) && o.attos() == v,
                None => r == Err::<Decimal, WeightedPoolError>(WeightedPoolError::ArithmeticError),
            },
            None => r == Err::<Decimal, WeightedPoolError>(WeightedPoolError::ArithmeticError),
        },
{
    let d = match dec_checked_sub(Decimal::one(), power_result) {
        Some(v) => v,
        None => return Err(WeightedPoolError::ArithmeticError),
    };
    match dec_checked_mul(output_reserve, d) {
        Some(v) => Ok(v),
        None => Err(WeightedPoolError::ArithmeticError),
    }
}

} // verus!
