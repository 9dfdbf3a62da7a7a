use vstd::prelude::*;
use vstd::hash_map::HashMapWithView;
use crate::decimal::{Decimal, scale, attos_add, attos_sub, attos_mul, attos_div, dec_checked_add,
    dec_checked_sub, dec_checked_mul, dec_checked_div};
use crate::tick::{Tick, TICK_MAX_VALUE};
use crate::tick_index::{TickIndex, is_next_up, is_next_down, is_replacement};
use crate::tick_math::{tick_attos, lemma_tick_attos_bound};
use crate::address::resource_eq;
use scrypto::prelude::ResourceAddress;

verus! {

/// Bin that stores a dormant liquidity position.
#[derive(Clone, Copy, Debug, PartialEq, Eq, Structural)]
pub struct Bin {
    /// Amount of tokens in the bin: tokens x above the active bin, tokens y below it.
    pub amount: Decimal,
    /// Total claim on the bin: the sum of all liquidity claims on it.
    pub total_claim: Decimal,
}

/// Why a pool operation was refused.
#[derive(Clone, Copy, Debug, PartialEq, Eq, Structural)]
pub enum PoolError {
    /// The bin span is zero.
    InvalidBinSpan,
    /// A tick is out of range or not aligned to the bin span.
    InvalidTick,
    /// An amount is negative.
    NegativeAmount,
    /// A claim to remove is not greater than zero.
    ClaimNotPositive,
    /// A claim to remove does not exist on the liquidity receipt.
    ClaimNotFound,
    /// A liquidity receipt would hold more than the allowed number of claims.
    TooManyClaims,
    /// A claimed bin is not in the pool.
    BinNotFound,
    /// Decimal arithmetic overflowed or divided by zero.
    ArithmeticError,
    /// A liquidity receipt to burn still holds claims.
    ClaimsRemain,
}

/// `amount` split as `a / b * t` in decimal arithmetic (the share of `t` that `a` out of `b`
/// stands for), `None` when a step fails.
pub open spec fn share_of(a: int, b: int, t: int) -> Option<int> {
    match attos_div(a, b) {
        Some(q) => attos_mul(q, t),
        None => None,
    }
}

/// Tick `t` is a valid tick for bin span `span`.
pub open spec fn valid_tick(t: u32, span: u32) -> bool {
    span > 0 && t % span == 0 && t <= 54000
}

/// Claim, new amount and new total claim of a non-empty bin after a deposit of `amount`:
/// the claim is `amount / bin.amount * bin.total_claim`; `None` when a step fails.
pub open spec fn bin_deposit(bin: Bin, amount: int) -> Option<(int, int, int)> {
    match share_of(amount, bin.amount.attos(), bin.total_claim.attos()) {
        Some(claim) => match attos_add(bin.total_claim.attos(), claim) {
            Some(total) => match attos_add(bin.amount.attos(), amount) {
                Some(amt) => Some((claim, amt, total)),
                None => None,
            },
            None => None,
        },
        None => None,
    }
}

/// Amount paid out, new amount and new total claim of a bin after a partial withdrawal of
/// `claim`: the amount paid is `claim / total_claim * amount`; `None` when a step fails.
pub open spec fn bin_withdraw(bin: Bin, claim: int) -> Option<(int, int, int)> {
    match share_of(claim, bin.total_claim.attos(), bin.amount.attos()) {
        Some(paid) => match attos_sub(bin.amount.attos(), paid) {
            Some(amt) => match attos_sub(bin.total_claim.attos(), claim) {
                Some(total) => Some((paid, amt, total)),
                None => None,
            },
            None => None,
        },
        None => None,
    }
}

/// Claim and tokens used when `x` and `y` are offered to an active bin holding `ax`, `ay`
/// under total claim `total`: only tokens y when the bin holds no tokens x, only tokens x
/// when it holds no tokens y, and otherwise both in the bin's ratio `ay / ax`, limited by
/// the scarcer side. `None` when a step fails.
pub open spec fn active_deposit(ax: int, ay: int, total: int, x: int, y: int) -> Option<(int, int, int)> {
    if ax == 0 {
        match share_of(y, ay, total) {
            Some(claim) => Some((claim, 0, y)),
            None => None,
        }
    } else if ay == 0 {
        match share_of(x, ax, total) {
            Some(claim) => Some((claim, x, 0)),
            None => None,
        }
    } else {
        match attos_div(ay, ax) {
            Some(ratio) => match attos_mul(x, ratio) {
                Some(x_in_y) => if x_in_y > y {
                    match share_of(y, ay, total) {
                        Some(claim) => match attos_div(y, ratio) {
                            Some(y_in_x) => Some((claim, y_in_x, y)),
                            None => None,
                        },
                        None => None,
                    }
                } else {
                    match share_of(x, ax, total) {
                        Some(claim) => Some((claim, x, x_in_y)),
                        None => None,
                    }
                },
                None => None,
            },
            None => None,
        }
    }
}

/// Tokens x and y paid out and the new active amounts and total claim when `claim` is
/// partly withdrawn from an active bin: each side is paid `side * (claim / total)`.
pub open spec fn active_withdraw(ax: int, ay: int, total: int, claim: int) -> Option<(int, int, int, int, int)> {
    match attos_div(claim, total) {
        Some(share) => match attos_mul(ax, share) {
            Some(px) => match attos_mul(ay, share) {
                Some(py) => match attos_sub(ax, px) {
                    Some(nx) => match attos_sub(ay, py) {
                        Some(ny) => match attos_sub(total, claim) {
                            Some(nt) => Some((px, py, nx, ny, nt)),
                            None => None,
                        },
                        None => None,
                    },
                    None => None,
                },
                None => None,
            },
            None => None,
        },
        None => None,
    }
}

/// A valid tick that is not zero is at least the bin span.
proof fn lemma_valid_tick_upper(t: u32, span: u32)
    requires
        valid_tick(t, span),
    ensures
        t + span <= u32::MAX,
{
    if t < span {
        vstd::arithmetic::div_mod::lemma_small_mod(t as nat, span as nat);
    }
}

/// What a position offered to the pool leads to, before the receipt is updated.
pub enum PositionEffect {
    /// The position is passed over.
    Skip,
    /// Decimal arithmetic fails.
    Fail,
    /// Liquidity is added: the claim, and the tokens x and y recorded as added.
    Done(int, Option<int>, Option<int>),
}

/// The effect of offering `x` and `y` at `tick` to the pool `p` (a valid tick and
/// non-negative amounts): the first liquidity becomes the active bin; above the active
/// tick tokens x go to a dormant bin, below it tokens y do; at the active tick both go to
/// the active bin; anything else is passed over.
pub open spec fn position_effect(p: QuantaSwap, tick: u32, x: int, y: int) -> PositionEffect {
    match p.current_tick() {
        None => if x == 0 && y == 0 {
            PositionEffect::Skip
        } else {
            PositionEffect::Done(if x >= y { x } else { y }, Some(x), Some(y))
        },
        Some(c) => if tick > c.0 && x > 0 {
            bin_effect(p, tick, x, true)
        } else if tick < c.0 && y > 0 {
            bin_effect(p, tick, y, false)
        } else if tick == c.0 && x > 0 && y > 0 {
            match active_deposit(p.spec_active_x().attos(), p.spec_active_y().attos(),
                p.spec_active_total_claim().attos(), x, y) {
                Some((claim, ux, uy)) => if attos_add(p.spec_active_x().attos(), ux) is Some
                    && attos_add(p.spec_active_y().attos(), uy) is Some
                    && attos_add(p.spec_active_total_claim().attos(), claim) is Some {
                    PositionEffect::Done(claim, Some(ux), Some(uy))
                } else {
                    PositionEffect::Fail
                },
                None => PositionEffect::Fail,
            }
        } else {
            PositionEffect::Skip
        },
    }
}

/// Effect of depositing `amount` into the dormant bin at `tick` (tokens x when `is_x`).
pub open spec fn bin_effect(p: QuantaSwap, tick: u32, amount: int, is_x: bool) -> PositionEffect {
    let fresh = !p.bins().contains_key(tick) || p.bins()[tick].amount.attos() == 0;
    let claim = if fresh {
        Some(amount)
    } else {
        match bin_deposit(p.bins()[tick], amount) {
            Some((c, _, _)) => Some(c),
            None => None,
        }
    };
    match claim {
        Some(c) => if is_x {
            PositionEffect::Done(c, Some(amount), None)
        } else {
            PositionEffect::Done(c, None, Some(amount))
        },
        None => PositionEffect::Fail,
    }
}

/// The pool state after a position that adds liquidity, matching `position_effect`.
pub open spec fn position_post(pre: QuantaSwap, post: QuantaSwap, tick: u32, x: Decimal, y: Decimal) -> bool {
    &&& post.span() == pre.span()
    &&& match pre.current_tick() {
        None => {
            &&& post.ticks() == pre.ticks().insert(tick)
            &&& post.current_tick() == Some(Tick(tick))
            &&& post.bins() == pre.bins()
            &&& post.spec_active_x() == x
            &&& post.spec_active_y() == y
            &&& post.spec_active_total_claim().attos() == (if x.attos() >= y.attos() { x.attos() } else { y.attos() })
        },
        Some(c) => {
            &&& post.current_tick() == pre.current_tick()
            &&& if tick != c.0 {
                let amount = if tick > c.0 { x } else { y };
                let fresh = !pre.bins().contains_key(tick) || pre.bins()[tick].amount.attos() == 0;
                &&& post.spec_active_x() == pre.spec_active_x()
                &&& post.spec_active_y() == pre.spec_active_y()
                &&& post.spec_active_total_claim() == pre.spec_active_total_claim()
                &&& if fresh {
                    &&& post.bins() == pre.bins().insert(tick, Bin { amount, total_claim: amount })
                    &&& post.ticks() == pre.ticks().insert(tick)
                } else {
                    &&& bin_deposit(pre.bins()[tick], amount.attos()) matches Some((_, amt, total))
                    &&& post.bins().contains_key(tick)
                    &&& post.bins()[tick].amount.attos() == amt
                    &&& post.bins()[tick].total_claim.attos() == total
                    &&& post.bins().remove(tick) == pre.bins().remove(tick)
                    &&& post.ticks() == pre.ticks()
                }
            } else {
                &&& post.ticks() == pre.ticks()
                &&& post.bins() == pre.bins()
                &&& active_deposit(pre.spec_active_x().attos(), pre.spec_active_y().attos(),
                    pre.spec_active_total_claim().attos(), x.attos(), y.attos()) matches Some((claim, ux, uy))
                &&& attos_add(pre.spec_active_x().attos(), ux) == Some(post.spec_active_x().attos())
                &&& attos_add(pre.spec_active_y().attos(), uy) == Some(post.spec_active_y().attos())
                &&& attos_add(pre.spec_active_total_claim().attos(), claim) == Some(post.spec_active_total_claim().attos())
            }
        },
    }
}

/// The receipt after `claim` is added to its claim at `tick`; `None` when the sum overflows.
pub open spec fn claims_added(m: Map<u32, Decimal>, tick: u32, claim: Decimal) -> bool {
    m.contains_key(tick) ==> attos_add(m[tick].attos(), claim.attos()) is Some
}

/// `post` holds the claims of `pre` with `claim` added at `tick`.
pub open spec fn claims_after_add(pre: Map<u32, Decimal>, post: Map<u32, Decimal>, tick: u32, claim: Decimal) -> bool {
    if pre.contains_key(tick) {
        &&& post.contains_key(tick)
        &&& attos_add(pre[tick].attos(), claim.attos()) == Some(post[tick].attos())
        &&& post.remove(tick) == pre.remove(tick)
    } else {
        post == pre.insert(tick, claim)
    }
}

/// Result of offering one position `(tick, x, y)` to pool `pre` with receipt `pre_r`.
pub open spec fn position_step(
    pre: QuantaSwap,
    pre_r: LiquidityReceipt,
    post: QuantaSwap,
    post_r: LiquidityReceipt,
    tick: u32,
    x: Decimal,
    y: Decimal,
    r: Result<Option<PositionOutcome>, PoolError>,
) -> bool {
    &&& post.wf()
    &&& post.span() == pre.span()
    &&& if !valid_tick(tick, pre.span()) {
        r == Err::<Option<PositionOutcome>, PoolError>(PoolError::InvalidTick) && post == pre && post_r == pre_r
    } else if x.attos() < 0 || y.attos() < 0 {
        r == Err::<Option<PositionOutcome>, PoolError>(PoolError::NegativeAmount) && post == pre && post_r == pre_r
    } else {
        match position_effect(pre, tick, x.attos(), y.attos()) {
            PositionEffect::Skip => r == Ok::<Option<PositionOutcome>, PoolError>(None) && post == pre && post_r == pre_r,
            PositionEffect::Fail => r == Err::<Option<PositionOutcome>, PoolError>(PoolError::ArithmeticError),
            PositionEffect::Done(claim, ax, ay) => {
                &&& position_post(pre, post, tick, x, y)
                &&& match r {
                    Ok(Some(out)) => {
                        &&& out.claim.attos() == claim
                        &&& (match (out.added_x, ax) {
                            (Some(a), Some(b)) => a.attos() == b,
                            (None, None) => true,
                            _ => false,
                        })
                        &&& (match (out.added_y, ay) {
                            (Some(a), Some(b)) => a.attos() == b,
                            (None, None) => true,
                            _ => false,
                        })
                        &&& claims_added(pre_r.claims(), tick, out.claim)
                        &&& claims_after_add(pre_r.claims(), post_r.claims(), tick, out.claim)
                    },
                    Err(e) => e == PoolError::ArithmeticError && pre_r.claims().contains_key(tick)
                        && attos_add(pre_r.claims()[tick].attos(), claim) is None,
                    _ => false,
                }
            },
        }
    }
}

/// Outcome of a position that adds liquidity: the claim and the tokens x and y recorded as
/// added at its tick.
#[derive(Clone, Copy, Debug, PartialEq, Eq, Structural)]
pub struct PositionOutcome {
    pub claim: Decimal,
    pub added_x: Option<Decimal>,
    pub added_y: Option<Decimal>,
}

/// `pools`, `receipts` and `outs` trace the first `k` positions, each taking the pool and
/// receipt before it to those after it with outcome `outs[i]`.
pub open spec fn positions_applied(
    pools: Seq<QuantaSwap>,
    receipts: Seq<LiquidityReceipt>,
    outs: Seq<Option<PositionOutcome>>,
    positions: Seq<(u32, Decimal, Decimal)>,
    k: int,
) -> bool {
    &&& 0 <= k <= positions.len()
    &&& pools.len() == k + 1
    &&& receipts.len() == k + 1
    &&& outs.len() == k
    &&& forall|i: int| 0 <= i < k ==> #[trigger] position_step(pools[i], receipts[i], pools[i + 1],
        receipts[i + 1], positions[i].0, positions[i].1, positions[i].2, Ok(outs[i]))
}

/// Tokens x recorded as added by the outcomes of the positions, with their ticks, in order.
pub open spec fn added_x_seq(positions: Seq<(u32, Decimal, Decimal)>, outs: Seq<Option<PositionOutcome>>) -> Seq<(u32, Decimal)>
    decreases outs.len(),
{
    if outs.len() == 0 {
        Seq::empty()
    } else {
        let prev = added_x_seq(positions, outs.drop_last());
        let i = outs.len() - 1;
        match outs[i] {
            Some(o) => match o.added_x {
                Some(a) => prev.push((positions[i].0, a)),
                None => prev,
            },
            None => prev,
        }
    }
}

/// Tokens y recorded as added by the outcomes of the positions, with their ticks, in order.
pub open spec fn added_y_seq(positions: Seq<(u32, Decimal, Decimal)>, outs: Seq<Option<PositionOutcome>>) -> Seq<(u32, Decimal)>
    decreases outs.len(),
{
    if outs.len() == 0 {
        Seq::empty()
    } else {
        let prev = added_y_seq(positions, outs.drop_last());
        let i = outs.len() - 1;
        match outs[i] {
            Some(o) => match o.added_y {
                Some(a) => prev.push((positions[i].0, a)),
                None => prev,
            },
            None => prev,
        }
    }
}

/// Sum of the amounts in decimal arithmetic, `None` when a partial sum overflows.
pub open spec fn checked_sum(s: Seq<(u32, Decimal)>) -> Option<int>
    decreases s.len(),
{
    if s.len() == 0 {
        Some(0)
    } else {
        match checked_sum(s.drop_last()) {
            Some(v) => attos_add(v, s.last().1.attos()),
            None => None,
        }
    }
}

/// Result of adding liquidity at `positions`, in order, to pool `pre` and receipt `pre_r`,
/// leaving `post` and `post_r`: the positions are applied one by one as traced, the tokens
/// added are listed and summed, and the receipt ends with at most 200 claims; a failure is
/// that of a position, of the sums, or a receipt with too many claims.
pub open spec fn addition_outcome(
    pre: QuantaSwap,
    pre_r: LiquidityReceipt,
    positions: Seq<(u32, Decimal, Decimal)>,
    post: QuantaSwap,
    post_r: LiquidityReceipt,
    r: Result<AddLiquidityOutcome, PoolError>,
) -> bool {
    &&& r matches Ok(o) ==> exists|pools: Seq<QuantaSwap>, receipts: Seq<LiquidityReceipt>, outs: Seq<Option<PositionOutcome>>|
        #![trigger positions_applied(pools, receipts, outs, positions, positions.len() as int)]
        {
        &&& positions_applied(pools, receipts, outs, positions, positions.len() as int)
        &&& pools[0] == pre
        &&& receipts[0] == pre_r
        &&& pools.last() == post
        &&& receipts.last() == post_r
        &&& o.added_x@ == added_x_seq(positions, outs)
        &&& o.added_y@ == added_y_seq(positions, outs)
        &&& checked_sum(o.added_x@) == Some(o.amount_x_used.attos())
        &&& checked_sum(o.added_y@) == Some(o.amount_y_used.attos())
        &&& post_r.claims().len() <= 200
    }
    &&& r matches Err(e) ==> exists|k: int, pools: Seq<QuantaSwap>, receipts: Seq<LiquidityReceipt>, outs: Seq<Option<PositionOutcome>>|
        #![trigger positions_applied(pools, receipts, outs, positions, k)]
        {
        &&& positions_applied(pools, receipts, outs, positions, k)
        &&& pools[0] == pre
        &&& receipts[0] == pre_r
        &&& {
            ||| (k < positions.len() && checked_sum(added_x_seq(positions, outs)) is Some
                && checked_sum(added_y_seq(positions, outs)) is Some
                && position_step(pools[k], receipts[k], post, post_r,
                positions[k].0, positions[k].1, positions[k].2, Err(e)))
            ||| (k >= 1 && e == PoolError::ArithmeticError
                && checked_sum(added_x_seq(positions, outs.drop_last())) is Some
                && checked_sum(added_y_seq(positions, outs.drop_last())) is Some
                && (checked_sum(added_x_seq(positions, outs)) is None
                    || checked_sum(added_y_seq(positions, outs)) is None))
            ||| (k == positions.len() && e == PoolError::TooManyClaims
                && checked_sum(added_x_seq(positions, outs)) is Some
                && checked_sum(added_y_seq(positions, outs)) is Some
                && receipts[k].claims().len() > 200)
        }
    }
}

/// The ticks listed in `xs` or in `ys`.
pub open spec fn added_ticks(xs: Seq<(u32, Decimal)>, ys: Seq<(u32, Decimal)>) -> Set<u32> {
    Set::new(|t: u32| listed(xs, t) || listed(ys, t))
}

/// A position that adds liquidity records tokens x or tokens y at its tick.
proof fn lemma_done_adds(p: QuantaSwap, tick: u32, x: int, y: int)
    ensures
        position_effect(p, tick, x, y) matches PositionEffect::Done(_, ax, ay) ==> ax is Some || ay is Some,
{
}

/// Over traced positions, the receipt's ticks grow by exactly the ticks where tokens were
/// recorded as added.
proof fn lemma_added_keys(
    pools: Seq<QuantaSwap>,
    receipts: Seq<LiquidityReceipt>,
    outs: Seq<Option<PositionOutcome>>,
    positions: Seq<(u32, Decimal, Decimal)>,
)
    requires
        positions_applied(pools, receipts, outs, positions, outs.len() as int),
    ensures
        receipts.last().claims().dom() == receipts[0].claims().dom().union(
            added_ticks(added_x_seq(positions, outs), added_y_seq(positions, outs)),
        ),
    decreases outs.len(),
{
    let xs = added_x_seq(positions, outs);
    let ys = added_y_seq(positions, outs);
    if outs.len() == 0 {
        assert(receipts.last().claims().dom() =~= receipts[0].claims().dom().union(added_ticks(xs, ys)));
    } else {
        let k = outs.len() - 1;
        let p2 = pools.drop_last();
        let r2 = receipts.drop_last();
        let o2 = outs.drop_last();
        assert forall|i: int| 0 <= i < k implies #[trigger] position_step(p2[i], r2[i], p2[i + 1], r2[i + 1],
            positions[i].0, positions[i].1, positions[i].2, Ok(o2[i])) by {
            assert(position_step(pools[i], receipts[i], pools[i + 1], receipts[i + 1], positions[i].0, positions[i].1,
                positions[i].2, Ok(outs[i])));
        }
        assert(positions_applied(p2, r2, o2, positions, k));
        lemma_added_keys(p2, r2, o2, positions);
        let xs2 = added_x_seq(positions, o2);
        let ys2 = added_y_seq(positions, o2);
        let (tick, x, y) = positions[k];
        assert(position_step(pools[k], receipts[k], pools[k + 1], receipts[k + 1], tick, x, y, Ok(outs[k])));
        lemma_done_adds(pools[k], tick, x.attos(), y.attos());
        assert(r2.last() == receipts[k]);
        assert(receipts.last() == receipts[k + 1]);
        let pre_dom = receipts[k].claims().dom();
        let post_dom = receipts[k + 1].claims().dom();
        match outs[k] {
            Some(o) => {
                let pm = receipts[k].claims();
                let qm = receipts[k + 1].claims();
                assert(claims_after_add(pm, qm, tick, o.claim));
                if pm.contains_key(tick) {
                    assert forall|t: u32| #[trigger] qm.dom().contains(t) <==> pre_dom.insert(tick).contains(t) by {
                        if t != tick {
                            assert(qm.remove(tick).contains_key(t) == qm.contains_key(t));
                            assert(pm.remove(tick).contains_key(t) == pm.contains_key(t));
                        }
                    }
                }
                assert(post_dom =~= pre_dom.insert(tick));
                assert(o.added_x is Some || o.added_y is Some);
                assert forall|t: u32| listed(xs, t) <==> listed(xs2, t) || (o.added_x is Some && t == tick) by {
                    if o.added_x is Some {
                        assert(xs == xs2.push((tick, o.added_x.unwrap())));
                        if t == tick {
                            assert(xs[xs2.len() as int].0 == t);
                        }
                        if listed(xs2, t) {
                            let i = choose|i: int| 0 <= i < xs2.len() && (#[trigger] xs2[i]).0 == t;
                            assert(xs[i] == xs2[i]);
                        }
                        if listed(xs, t) && t != tick {
                            let i = choose|i: int| 0 <= i < xs.len() && (#[trigger] xs[i]).0 == t;
                            assert(i < xs2.len());
                            assert(xs2[i] == xs[i]);
                        }
                    } else {
                        assert(xs == xs2);
                    }
                }
                assert forall|t: u32| listed(ys, t) <==> listed(ys2, t) || (o.added_y is Some && t == tick) by {
                    if o.added_y is Some {
                        assert(ys == ys2.push((tick, o.added_y.unwrap())));
                        if t == tick {
                            assert(ys[ys2.len() as int].0 == t);
                        }
                        if listed(ys2, t) {
                            let i = choose|i: int| 0 <= i < ys2.len() && (#[trigger] ys2[i]).0 == t;
                            assert(ys[i] == ys2[i]);
                        }
                        if listed(ys, t) && t != tick {
                            let i = choose|i: int| 0 <= i < ys.len() && (#[trigger] ys[i]).0 == t;
                            assert(i < ys2.len());
                            assert(ys2[i] == ys[i]);
                        }
                    } else {
                        assert(ys == ys2);
                    }
                }
                assert(post_dom =~= receipts[0].claims().dom().union(added_ticks(xs, ys)));
            },
            None => {
                assert(xs == xs2);
                assert(ys == ys2);
                assert(receipts[k + 1] == receipts[k]);
            },
        }
    }
}

/// Adding liquidity to a receipt, when it succeeds, leaves the receipt with claims on exactly
/// its former ticks and the ticks where tokens were added, at most 200 of them, and takes in
/// exactly the sums of the tokens x and y added.
pub proof fn law_addition_claims(
    pre: QuantaSwap,
    pre_r: LiquidityReceipt,
    positions: Seq<(u32, Decimal, Decimal)>,
    post: QuantaSwap,
    post_r: LiquidityReceipt,
    o: AddLiquidityOutcome,
)
    requires
        addition_outcome(pre, pre_r, positions, post, post_r, Ok(o)),
    ensures
        post_r.claims().dom() == pre_r.claims().dom().union(added_ticks(o.added_x@, o.added_y@)),
        post_r.claims().len() <= 200,
        checked_sum(o.added_x@) == Some(o.amount_x_used.attos()),
        checked_sum(o.added_y@) == Some(o.amount_y_used.attos()),
{
    let (pools, receipts, outs) = choose|pools: Seq<QuantaSwap>, receipts: Seq<LiquidityReceipt>,
        outs: Seq<Option<PositionOutcome>>| {
        &&& positions_applied(pools, receipts, outs, positions, positions.len() as int)
        &&& pools[0] == pre
        &&& receipts[0] == pre_r
        &&& pools.last() == post
        &&& receipts.last() == post_r
        &&& o.added_x@ == added_x_seq(positions, outs)
        &&& o.added_y@ == added_y_seq(positions, outs)
        &&& checked_sum(o.added_x@) == Some(o.amount_x_used.attos())
        &&& checked_sum(o.added_y@) == Some(o.amount_y_used.attos())
        &&& post_r.claims().len() <= 200
    };
    lemma_added_keys(pools, receipts, outs, positions);
}

/// Tokens used and recorded by adding liquidity to a receipt.
pub struct AddLiquidityOutcome {
    /// Tokens x taken into the pool.
    pub amount_x_used: Decimal,
    /// Tokens y taken into the pool.
    pub amount_y_used: Decimal,
    /// Tokens x added, by tick, in position order.
    pub added_x: Vec<(u32, Decimal)>,
    /// Tokens y added, by tick, in position order.
    pub added_y: Vec<(u32, Decimal)>,
}

/// Tokens paid out for one removed claim: tokens x and tokens y.
#[derive(Clone, Copy, Debug, PartialEq, Eq, Structural)]
pub struct ClaimOutcome {
    pub paid_x: Option<Decimal>,
    pub paid_y: Option<Decimal>,
}

/// The part of a stored claim that a request for `claim` takes: all of it when it does not
/// exceed the request.
pub open spec fn claim_taken(available: Decimal, claim: Decimal) -> Decimal {
    if available.attos() > claim.attos() {
        claim
    } else {
        available
    }
}

/// Result of removing `claim` at `tick` from receipt `pre_r` while the active tick is
/// `cur`: the receipt gives up the part taken and the pool pays it out from the bin above,
/// below or at the active tick; `post_cur` is the active tick afterwards.
pub open spec fn claim_step(
    pre: QuantaSwap,
    pre_r: LiquidityReceipt,
    cur: Tick,
    post: QuantaSwap,
    post_r: LiquidityReceipt,
    post_cur: Tick,
    tick: u32,
    claim: Decimal,
    r: Result<ClaimOutcome, PoolError>,
) -> bool {
    &&& post.wf()
    &&& post.span() == pre.span()
    &&& if claim.attos() <= 0 {
        r == Err::<ClaimOutcome, PoolError>(PoolError::ClaimNotPositive) && post == pre && post_r.claims() == pre_r.claims()
    } else if !pre_r.claims().contains_key(tick) {
        r == Err::<ClaimOutcome, PoolError>(PoolError::ClaimNotFound) && post == pre && post_r.claims() == pre_r.claims()
    } else {
        let available = pre_r.claims()[tick];
        let used = claim_taken(available, claim);
        if used.attos() < 0 {
            r == Err::<ClaimOutcome, PoolError>(PoolError::ClaimNotPositive) && post == pre && post_r.claims() == pre_r.claims()
        } else {
            &&& (available.attos() > claim.attos() ==> post_r.claims().contains_key(tick)
                && post_r.claims()[tick].attos() == available.attos() - claim.attos()
                && post_r.claims().remove(tick) == pre_r.claims().remove(tick))
            &&& (available.attos() <= claim.attos() ==> post_r.claims() == pre_r.claims().remove(tick))
            &&& if tick > cur.0 {
                &&& post_cur == cur
                &&& bin_withdraw_effect(pre, post, tick, used, match r {
                    Ok(o) => Ok(o.paid_x.unwrap()),
                    Err(e) => Err(e),
                })
                &&& (r matches Ok(o) ==> o.paid_x is Some && o.paid_y is None)
            } else if tick < cur.0 {
                &&& post_cur == cur
                &&& bin_withdraw_effect(pre, post, tick, used, match r {
                    Ok(o) => Ok(o.paid_y.unwrap()),
                    Err(e) => Err(e),
                })
                &&& (r matches Ok(o) ==> o.paid_x is None && o.paid_y is Some)
            } else {
                &&& post_cur == (match post.current_tick() {
                    Some(n) => n,
                    None => cur,
                })
                &&& active_withdraw_effect(pre, post, cur, used, match r {
                    Ok(o) => Ok((o.paid_x.unwrap(), o.paid_y.unwrap())),
                    Err(e) => Err(e),
                })
                &&& (r matches Ok(o) ==> o.paid_x is Some && o.paid_y is Some)
            }
        }
    }
}

/// `pools`, `receipts`, `curs` and `outs` trace the first `k` claims, each removal taking
/// the pool, receipt and active tick before it to those after it with outcome `outs[i]`.
pub open spec fn claims_applied(
    pools: Seq<QuantaSwap>,
    receipts: Seq<LiquidityReceipt>,
    curs: Seq<Tick>,
    outs: Seq<ClaimOutcome>,
    claims: Seq<(u32, Decimal)>,
    k: int,
) -> bool {
    &&& 0 <= k <= claims.len()
    &&& pools.len() == k + 1
    &&& receipts.len() == k + 1
    &&& curs.len() == k + 1
    &&& outs.len() == k
    &&& forall|i: int| 0 <= i < k ==> #[trigger] claim_step(pools[i], receipts[i], curs[i], pools[i + 1],
        receipts[i + 1], curs[i + 1], claims[i].0, claims[i].1, Ok(outs[i]))
}

/// Tokens x paid by the outcomes, with the ticks of their claims, in order.
pub open spec fn paid_x_seq(claims: Seq<(u32, Decimal)>, outs: Seq<ClaimOutcome>) -> Seq<(u32, Decimal)>
    decreases outs.len(),
{
    if outs.len() == 0 {
        Seq::empty()
    } else {
        let prev = paid_x_seq(claims, outs.drop_last());
        let i = outs.len() - 1;
        match outs[i].paid_x {
            Some(a) => prev.push((claims[i].0, a)),
            None => prev,
        }
    }
}

/// Tokens y paid by the outcomes, with the ticks of their claims, in order.
pub open spec fn paid_y_seq(claims: Seq<(u32, Decimal)>, outs: Seq<ClaimOutcome>) -> Seq<(u32, Decimal)>
    decreases outs.len(),
{
    if outs.len() == 0 {
        Seq::empty()
    } else {
        let prev = paid_y_seq(claims, outs.drop_last());
        let i = outs.len() - 1;
        match outs[i].paid_y {
            Some(a) => prev.push((claims[i].0, a)),
            None => prev,
        }
    }
}

/// `removed` lists the entries of `paid` with the amounts negated.
pub open spec fn negated(paid: Seq<(u32, Decimal)>, removed: Seq<(u32, Decimal)>) -> bool {
    &&& removed.len() == paid.len()
    &&& forall|j: int| 0 <= j < paid.len() ==> (#[trigger] removed[j]).0 == paid[j].0
        && removed[j].1.attos() == -paid[j].1.attos()
}

/// Every amount of `paid` can be negated (none is the lowest decimal).
pub open spec fn negatable(paid: Seq<(u32, Decimal)>) -> bool {
    forall|j: int| 0 <= j < paid.len() ==> attos_sub(0, (#[trigger] paid[j]).1.attos()) is Some
}

/// Removing `claim` at `tick` fails with `e`, taking the pool and receipt to `post` and
/// `post_r`.
pub open spec fn claim_fails(
    pre: QuantaSwap,
    pre_r: LiquidityReceipt,
    cur: Tick,
    post: QuantaSwap,
    post_r: LiquidityReceipt,
    tick: u32,
    claim: Decimal,
    e: PoolError,
) -> bool {
    exists|c: Tick| #[trigger] claim_step(pre, pre_r, cur, post, post_r, c, tick, claim, Err(e))
}

/// The tokens paid by `outs` sum up and negate without overflow.
pub open spec fn paid_ok(claims: Seq<(u32, Decimal)>, outs: Seq<ClaimOutcome>) -> bool {
    &&& checked_sum(paid_x_seq(claims, outs)) is Some
    &&& checked_sum(paid_y_seq(claims, outs)) is Some
    &&& negatable(paid_x_seq(claims, outs))
    &&& negatable(paid_y_seq(claims, outs))
}

/// `paid` with the payment of `tick`, if any, appended.
pub open spec fn paid_next(paid: Seq<(u32, Decimal)>, tick: u32, p: Option<Decimal>) -> Seq<(u32, Decimal)> {
    match p {
        Some(a) => paid.push((tick, a)),
        None => paid,
    }
}

/// Add the payment `p` of `tick`, if any, to `total` and its negation to `removed`, where
/// `total` sums and `removed` negates the payments `prev`. Returns whether the sum and the
/// negation fit.
fn record_payment(total: &mut Decimal, removed: &mut Vec<(u32, Decimal)>, tick: u32, p: Option<Decimal>,
    Ghost(prev): Ghost<Seq<(u32, Decimal)>>) -> (ok: bool)
    requires
        checked_sum(prev) == Some(old(total).attos()),
        negated(prev, old(removed)@),
        negatable(prev),
    ensures
        ok <==> checked_sum(paid_next(prev, tick, p)) is Some && negatable(paid_next(prev, tick, p)),
        ok ==> checked_sum(paid_next(prev, tick, p)) == Some(final(total).attos())
            && negated(paid_next(prev, tick, p), final(removed)@),
{
    let a = match p {
        Some(a) => a,
        None => return true,
    };
    let ghost next = prev.push((tick, a));
    proof {
        assert(next.drop_last() == prev);
    }
    let v = match dec_checked_add(*total, a) {
        Some(v) => v,
        None => return false,
    };
    let zero = Decimal::zero();
    proof {
        Decimal::lemma_spec_zero();
    }
    let neg = match dec_checked_sub(zero, a) {
        Some(v) => v,
        None => {
            proof {
                assert(attos_sub(0, next[prev.len() as int].1.attos()) is None);
            }
            return false;
        },
    };
    *total = v;
    let ghost prev_r = removed@;
    removed.push((tick, neg));
    proof {
        assert forall|j: int| 0 <= j < next.len() implies (#[trigger] removed@[j]).0 == next[j].0
            && removed@[j].1.attos() == -next[j].1.attos() by {
            if j < prev.len() {
                assert(removed@[j] == prev_r[j]);
            }
        }
        assert forall|j: int| 0 <= j < next.len() implies attos_sub(0, (#[trigger] next[j]).1.attos()) is Some by {
            if j < prev.len() {
                assert(next[j] == prev[j]);
            }
        }
    }
    true
}

/// Tokens paid out and recorded by removing claims.
pub struct RemoveLiquidityOutcome {
    /// Tokens x paid out.
    pub amount_x: Decimal,
    /// Tokens y paid out.
    pub amount_y: Decimal,
    /// Negated tokens x paid, by tick, in claim order.
    pub removed_x: Vec<(u32, Decimal)>,
    /// Negated tokens y paid, by tick, in claim order.
    pub removed_y: Vec<(u32, Decimal)>,
}

/// Why a request for `claim` at `tick` is refused against the claims `m` of a receipt: a
/// claim that is not positive, or one on a tick where the receipt holds none.
pub open spec fn claim_refused(m: Map<u32, Decimal>, tick: u32, claim: Decimal) -> Option<PoolError> {
    if claim.attos() <= 0 {
        Some(PoolError::ClaimNotPositive)
    } else if !m.contains_key(tick) {
        Some(PoolError::ClaimNotFound)
    } else {
        None
    }
}

/// Result of removing the claims `claims`, in order, from receipt `pre_r` and pool `pre`,
/// leaving `post` and `post_r`. Without an active tick nothing is paid and nothing changes,
/// but the first claim that is not positive or not held is refused. Otherwise the claims
/// are removed one by one as traced, the payments summed and negated, and a failure is that
/// of a removal or of the sums.
pub open spec fn removal_outcome(
    pre: QuantaSwap,
    pre_r: LiquidityReceipt,
    claims: Seq<(u32, Decimal)>,
    post: QuantaSwap,
    post_r: LiquidityReceipt,
    r: Result<RemoveLiquidityOutcome, PoolError>,
) -> bool {
    match pre.current_tick() {
        None => post == pre && post_r == pre_r && match r {
            Ok(o) => (forall|j: int| 0 <= j < claims.len() ==> #[trigger] claim_refused(pre_r.claims(), claims[j].0,
                claims[j].1) is None) && o.amount_x.attos() == 0 && o.amount_y.attos() == 0 && o.removed_x@.len() == 0
                && o.removed_y@.len() == 0,
            Err(e) => exists|k: int| 0 <= k < claims.len() && (forall|j: int| 0 <= j < k ==> #[trigger] claim_refused(
                pre_r.claims(), claims[j].0, claims[j].1) is None) && claim_refused(pre_r.claims(), claims[k].0,
                claims[k].1) == Some(e),
        },
        Some(c0) => match r {
            Ok(o) => exists|pools: Seq<QuantaSwap>, receipts: Seq<LiquidityReceipt>, curs: Seq<Tick>,
                outs: Seq<ClaimOutcome>|
                #![trigger claims_applied(pools, receipts, curs, outs, claims, claims.len() as int)]
                {
                &&& claims_applied(pools, receipts, curs, outs, claims, claims.len() as int)
                &&& pools[0] == pre
                &&& receipts[0] == pre_r
                &&& curs[0] == c0
                &&& pools.last() == post
                &&& receipts.last() == post_r
                &&& paid_ok(claims, outs)
                &&& checked_sum(paid_x_seq(claims, outs)) == Some(o.amount_x.attos())
                &&& checked_sum(paid_y_seq(claims, outs)) == Some(o.amount_y.attos())
                &&& negated(paid_x_seq(claims, outs), o.removed_x@)
                &&& negated(paid_y_seq(claims, outs), o.removed_y@)
            },
            Err(e) => exists|k: int, pools: Seq<QuantaSwap>, receipts: Seq<LiquidityReceipt>, curs: Seq<Tick>,
                outs: Seq<ClaimOutcome>|
                #![trigger claims_applied(pools, receipts, curs, outs, claims, k)]
                {
                &&& claims_applied(pools, receipts, curs, outs, claims, k)
                &&& pools[0] == pre
                &&& receipts[0] == pre_r
                &&& curs[0] == c0
                &&& {
                    ||| (k < claims.len() && paid_ok(claims, outs)
                        && claim_fails(pools[k], receipts[k], curs[k], post, post_r, claims[k].0, claims[k].1, e))
                    ||| (k >= 1 && e == PoolError::ArithmeticError && paid_ok(claims, outs.drop_last())
                        && !paid_ok(claims, outs))
                }
            },
        },
    }
}

/// `l` lists the claims of `m` as `(tick, claim)` pairs, each tick once.
pub open spec fn lists_claims(m: Map<u32, Decimal>, l: Seq<(u32, Decimal)>) -> bool {
    &&& l.len() == m.len()
    &&& forall|i: int, j: int| 0 <= i < j < l.len() ==> l[i].0 != l[j].0
    &&& forall|i: int| 0 <= i < l.len() ==> m.contains_key(#[trigger] l[i].0) && m[l[i].0] == l[i].1
    &&& forall|t: u32| #[trigger] m.contains_key(t) ==> exists|i: int| 0 <= i < l.len() && l[i].0 == t
}

/// Removing the listed claims of `m` in order, each removal succeeding, drops exactly the
/// claims removed so far and leaves the others as they were.
proof fn lemma_claims_drained(
    m: Map<u32, Decimal>,
    l: Seq<(u32, Decimal)>,
    pools: Seq<QuantaSwap>,
    receipts: Seq<LiquidityReceipt>,
    curs: Seq<Tick>,
    outs: Seq<ClaimOutcome>,
    k: int,
)
    requires
        lists_claims(m, l),
        claims_applied(pools, receipts, curs, outs, l, l.len() as int),
        receipts[0].claims() == m,
        0 <= k <= l.len(),
    ensures
        forall|t: u32| #[trigger] receipts[k].claims().contains_key(t) <==> (m.contains_key(t)
            && forall|i: int| 0 <= i < k ==> l[i].0 != t),
        forall|t: u32| #[trigger] receipts[k].claims().contains_key(t) ==> receipts[k].claims()[t] == m[t],
    decreases k,
{
    if k > 0 {
        lemma_claims_drained(m, l, pools, receipts, curs, outs, k - 1);
        let j = k - 1;
        assert(claim_step(pools[j], receipts[j], curs[j], pools[j + 1], receipts[j + 1], curs[j + 1],
            l[j].0, l[j].1, Ok(outs[j])));
        let tick = l[k - 1].0;
        assert(m.contains_key(tick));
        assert forall|i: int| 0 <= i < k - 1 implies l[i].0 != tick by {
            assert(l[i].0 != l[k - 1].0);
        }
        assert(receipts[k - 1].claims().contains_key(tick));
        assert(receipts[k].claims() == receipts[k - 1].claims().remove(tick));
    }
}

/// With an active tick, removing every listed claim of a receipt successfully leaves it
/// without claims.
proof fn lemma_receipt_emptied(
    m: Map<u32, Decimal>,
    l: Seq<(u32, Decimal)>,
    pools: Seq<QuantaSwap>,
    receipts: Seq<LiquidityReceipt>,
    curs: Seq<Tick>,
    outs: Seq<ClaimOutcome>,
)
    requires
        lists_claims(m, l),
        claims_applied(pools, receipts, curs, outs, l, l.len() as int),
        receipts[0].claims() == m,
    ensures
        receipts.last().claims().len() == 0,
{
    lemma_claims_drained(m, l, pools, receipts, curs, outs, l.len() as int);
    let last = receipts[l.len() as int].claims();
    assert(last.dom() =~= Set::<u32>::empty()) by {
        assert forall|t: u32| !last.dom().contains(t) by {
            if last.contains_key(t) {
                let i = choose|i: int| 0 <= i < l.len() && l[i].0 == t;
                assert(l[i].0 != t);
            }
        }
    }
}

/// Tick `u` appears in the list `r`.
pub open spec fn listed(r: Seq<(u32, Decimal)>, u: u32) -> bool {
    exists|i: int| 0 <= i < r.len() && (#[trigger] r[i]).0 == u
}

/// Amount shown for the bin at tick `t`: at the active tick the active bin's tokens x (or
/// y), elsewhere the stored bin's amount.
pub open spec fn shown_amount(p: QuantaSwap, t: u32, is_x: bool) -> Decimal {
    if p.current_tick() == Some(Tick(t)) {
        if is_x {
            p.spec_active_x()
        } else {
            p.spec_active_y()
        }
    } else {
        p.bins()[t].amount
    }
}

/// `r` lists, with their amounts, the first `number` ticks of the pool in `[lo, hi]`, in
/// ascending order when `up` and in descending order otherwise.
pub open spec fn bins_listed(p: QuantaSwap, lo: int, hi: int, number: int, up: bool, r: Seq<(u32, Decimal)>) -> bool {
    &&& r.len() <= number
    &&& forall|i: int| 0 <= i < r.len() ==> p.ticks().contains((#[trigger] r[i]).0) && lo <= r[i].0 <= hi
        && r[i].1 == shown_amount(p, r[i].0, up)
    &&& forall|i: int, j: int| 0 <= i < j < r.len() ==> (if up { r[i].0 < r[j].0 } else { r[i].0 > r[j].0 })
    &&& forall|u: u32| #[trigger] p.ticks().contains(u) && lo <= u <= hi && (r.len() == number ==> r.len() > 0
        && (if up { u <= r.last().0 } else { u >= r.last().0 })) ==> listed(r, u)
}

/// A listed tick stays listed when an entry is appended, and the appended tick is listed.
proof fn lemma_listed_push(r: Seq<(u32, Decimal)>, e: (u32, Decimal))
    ensures
        forall|u: u32| listed(r, u) ==> #[trigger] listed(r.push(e), u),
        listed(r.push(e), e.0),
{
    assert forall|u: u32| listed(r, u) implies #[trigger] listed(r.push(e), u) by {
        let i = choose|i: int| 0 <= i < r.len() && (#[trigger] r[i]).0 == u;
        assert(r.push(e)[i] == r[i]);
    }
    assert(r.push(e)[r.len() as int] == e);
}

/// Tokens x and y that `claim` on the bin at `tick` is worth in pool `p` whose active tick
/// is `c`: a share of the dormant bin's amount below or above it, a share of both active
/// amounts at it; a missing bin or failing arithmetic is an error.
pub open spec fn claim_value(p: QuantaSwap, c: u32, tick: u32, claim: int) -> Result<(int, int), PoolError> {
    if tick != c {
        if !p.bins().contains_key(tick) {
            Err(PoolError::BinNotFound)
        } else {
            match share_of(claim, p.bins()[tick].total_claim.attos(), p.bins()[tick].amount.attos()) {
                Some(v) => if tick < c { Ok((0, v)) } else { Ok((v, 0)) },
                None => Err(PoolError::ArithmeticError),
            }
        }
    } else {
        match attos_div(claim, p.spec_active_total_claim().attos()) {
            Some(share) => match attos_mul(p.spec_active_x().attos(), share) {
                Some(x) => match attos_mul(p.spec_active_y().attos(), share) {
                    Some(y) => Ok((x, y)),
                    None => Err(PoolError::ArithmeticError),
                },
                None => Err(PoolError::ArithmeticError),
            },
            None => Err(PoolError::ArithmeticError),
        }
    }
}

/// Sum of the values of the claims `l`, taken in order; the first error met otherwise.
pub open spec fn redemption_total(p: QuantaSwap, c: u32, l: Seq<(u32, Decimal)>) -> Result<(int, int), PoolError>
    decreases l.len(),
{
    if l.len() == 0 {
        Ok((0, 0))
    } else {
        match redemption_total(p, c, l.drop_last()) {
            Err(e) => Err(e),
            Ok((x, y)) => match claim_value(p, c, l.last().0, l.last().1.attos()) {
                Err(e) => Err(e),
                Ok((vx, vy)) => match (attos_add(x, vx), attos_add(y, vy)) {
                    (Some(sx), Some(sy)) => Ok((sx, sy)),
                    _ => Err(PoolError::ArithmeticError),
                },
            },
        }
    }
}

/// An error in the sum of a prefix of the claims is the error of the whole sum.
proof fn lemma_total_error(p: QuantaSwap, c: u32, l: Seq<(u32, Decimal)>, k: int)
    requires
        0 <= k <= l.len(),
        redemption_total(p, c, l.take(k)) is Err,
    ensures
        redemption_total(p, c, l) == redemption_total(p, c, l.take(k)),
    decreases l.len() - k,
{
    if k < l.len() {
        assert(l.take(k + 1).drop_last() == l.take(k));
        lemma_total_error(p, c, l, k + 1);
    } else {
        assert(l.take(k) == l);
    }
}

/// `v` holds, in ascending tick order, each claim of `m` with the tokens x and y it is worth.
pub open spec fn bin_values_listed(p: QuantaSwap, c: u32, m: Map<u32, Decimal>, v: Seq<(u32, Decimal, Decimal)>) -> bool {
    &&& v.len() == m.len()
    &&& forall|i: int, j: int| 0 <= i < j < v.len() ==> v[i].0 < v[j].0
    &&& forall|i: int| 0 <= i < v.len() ==> m.contains_key(#[trigger] v[i].0)
        && claim_value(p, c, v[i].0, m[v[i].0].attos()) == Ok::<(int, int), PoolError>((v[i].1.attos(), v[i].2.attos()))
}

/// Insert `e` into `v`, keeping `v` in strictly ascending tick order.
fn insert_sorted(v: &mut Vec<(u32, Decimal, Decimal)>, e: (u32, Decimal, Decimal))
    requires
        forall|a: int, b: int| 0 <= a < b < old(v)@.len() ==> old(v)@[a].0 < old(v)@[b].0,
        forall|a: int| 0 <= a < old(v)@.len() ==> old(v)@[a].0 != e.0,
    ensures
        final(v)@.len() == old(v)@.len() + 1,
        forall|a: int, b: int| 0 <= a < b < final(v)@.len() ==> final(v)@[a].0 < final(v)@[b].0,
        exists|a: int| 0 <= a < final(v)@.len() && #[trigger] final(v)@[a] == e,
        forall|a: int| #![trigger old(v)@[a]] 0 <= a < old(v)@.len() ==> exists|b: int| 0 <= b < final(v)@.len()
            && #[trigger] final(v)@[b] == old(v)@[a],
        forall|b: int| #![trigger final(v)@[b]] 0 <= b < final(v)@.len() ==> final(v)@[b] == e || exists|a: int|
            0 <= a < old(v)@.len() && #[trigger] old(v)@[a] == final(v)@[b],
{
    let mut k: usize = 0;
    while k < v.len() && v[k].0 < e.0
        invariant
            *v == *old(v),
            0 <= k <= v@.len(),
            forall|a: int| 0 <= a < k ==> v@[a].0 < e.0,
        decreases v@.len() - k,
    {
        k = k + 1;
    }
    let ghost pre = v@;
    v.insert(k, e);
    proof {
        assert(v@ == pre.insert(k as int, e));
        assert forall|a: int, b: int| 0 <= a < b < v@.len() implies v@[a].0 < v@[b].0 by {
            if b < k {
            } else if b == k {
            } else if a < k {
                assert(pre[a].0 < e.0);
                if k < pre.len() {
                    assert(e.0 < pre[k as int].0 || e.0 > pre[k as int].0);
                    assert(pre[k as int].0 >= e.0);
                }
            } else if a == k {
                assert(pre[k as int].0 >= e.0);
                assert(pre[k as int].0 != e.0);
            }
        }
        assert(v@[k as int] == e);
        assert forall|a: int| #![trigger pre[a]] 0 <= a < pre.len() implies exists|b: int| 0 <= b < v@.len()
            && #[trigger] v@[b] == pre[a] by {
            if a < k {
                assert(v@[a] == pre[a]);
            } else {
                assert(v@[a + 1] == pre[a]);
            }
        }
        assert forall|b: int| #![trigger v@[b]] 0 <= b < v@.len() implies v@[b] == e || exists|a: int|
            0 <= a < pre.len() && #[trigger] pre[a] == v@[b] by {
            if b < k {
                assert(pre[b] == v@[b]);
            } else if b > k {
                assert(pre[b - 1] == v@[b]);
            }
        }
    }
}

/// Tokens still to sell and tokens bought so far in a swap.
#[derive(Clone, Copy, Debug, PartialEq, Eq, Structural)]
pub struct SwapProgress {
    /// Input tokens not yet sold.
    pub amount_in: Decimal,
    /// Output tokens bought so far.
    pub amount_out: Decimal,
}

/// `amount / (1 - fee)` in decimal arithmetic: an input amount with the liquidity fee added
/// back; `None` when a step fails.
pub open spec fn with_fee(amount: int, fee: int) -> Option<int> {
    match attos_sub(scale(), fee) {
        Some(d) => attos_div(amount, d),
        None => None,
    }
}

/// An input with the liquidity fee added back is the input divided by `1 - fee`: it is
/// never more than that and short of it only by rounding.
pub proof fn law_with_fee_adds_back(amount: int, fee: int)
    requires
        amount >= 0,
        0 <= fee < scale(),
    ensures
        with_fee(amount, fee) matches Some(w) ==> 0 <= w && w * (scale() - fee) <= amount * scale() < (w + 1) * (
        scale() - fee),
{
    let s = scale();
    if let Some(w) = with_fee(amount, fee) {
        let d = s - fee;
        assert(attos_sub(s, fee) == Some(d));
        assert(amount * s >= 0) by (nonlinear_arith)
            requires
                amount >= 0,
                s > 0,
        ;
        assert(w == (amount * s) / d);
        vstd::arithmetic::div_mod::lemma_fundamental_div_mod(amount * s, d);
        vstd::arithmetic::div_mod::lemma_mod_pos_bound(amount * s, d);
        vstd::arithmetic::div_mod::lemma_div_pos_is_pos(amount * s, d);
        assert(w * d <= amount * s < (w + 1) * d) by (nonlinear_arith)
            requires
                amount * s == d * w + (amount * s) % d,
                0 <= (amount * s) % d < d,
        ;
    }
}

/// Input that exhausts the active bin, rounded up from zero: the computed `amount` when
/// positive, nothing for an empty side, else the smallest unit.
pub open spec fn rounded_swap(amount: int, available: int) -> int {
    if amount > 0 {
        amount
    } else if available == 0 {
        0
    } else {
        1
    }
}

/// Result of a swap that ends in the active bin: `amount_out_swap` bought with all the
/// remaining input, which goes, fee added back, to the bin's input side.
pub open spec fn fill_effect(pre_in: int, pre_out: int, active_in: int, active_out: int, amount_out_swap: int,
    fee: int) -> Option<(int, int, int)> {
    match with_fee(pre_in, fee) {
        Some(f) => match (attos_add(pre_out, amount_out_swap), attos_add(active_in, f), attos_sub(active_out, amount_out_swap)) {
            (Some(out), Some(ain), Some(aout)) => Some((out, ain, aout)),
            _ => None,
        },
        None => None,
    }
}

/// Result of a swap step that exhausts the active bin: the rounded input `amount_in_swap`
/// buys the whole output side; returns the new amounts of input and output tokens and the
/// bin's input side with the fee added back.
pub open spec fn cross_effect(pre_in: int, pre_out: int, active_in: int, active_out: int, amount_in_swap: int,
    fee: int) -> Option<(int, int, int)> {
    let used = rounded_swap(amount_in_swap, active_out);
    match with_fee(used, fee) {
        Some(f) => match (attos_sub(pre_in, used), attos_add(pre_out, active_out), attos_add(active_in, f)) {
            (Some(i), Some(o), Some(a)) => Some((i, o, a)),
            _ => None,
        },
        None => None,
    }
}

/// A swap step never buys more than the active bin holds: a step that ends in the bin buys
/// the quoted amount, which is less than the bin's output tokens, and leaves some of them;
/// a step that crosses the bin buys exactly all of them.
pub proof fn law_swap_step_within_bin(pre_in: int, pre_out: int, active_in: int, active_out: int, swap_out: int,
    swap_in: int, fee: int)
    ensures
        0 <= swap_out < active_out ==> (fill_effect(pre_in, pre_out, active_in, active_out, swap_out, fee) matches Some(
            (out, _, left),
        ) ==> out - pre_out == swap_out && 0 < left <= active_out),
        cross_effect(pre_in, pre_out, active_in, active_out, swap_in, fee) matches Some((_, out, _)) ==> out - pre_out
            == active_out,
{
}

/// Which way a swap goes: selling tokens x for tokens y, or tokens y for tokens x.
#[derive(Clone, Copy, Debug, PartialEq, Eq, Structural)]
pub enum SwapSide {
    SellX,
    SellY,
}

/// The way a swap of `token` goes in a pool of `token_x` and `token_y`: tokens x are sold
/// for tokens y and tokens y for tokens x; any other token cannot be swapped (`None`).
pub fn swap_side(token: ResourceAddress, token_x: ResourceAddress, token_y: ResourceAddress) -> (r: Option<SwapSide>)
    ensures
        r == (if token == token_x {
            Some(SwapSide::SellX)
        } else if token == token_y {
            Some(SwapSide::SellY)
        } else {
            None::<SwapSide>
        }),
{
    if resource_eq(&token, &token_x) {
        Some(SwapSide::SellX)
    } else if resource_eq(&token, &token_y) {
        Some(SwapSide::SellY)
    } else {
        None
    }
}

/// Tokens of a fee refunded when a swap uses only part of its input: the fee times the share
/// `left / input` of the input that was not used; `None` when a step fails.
pub open spec fn fee_refund(fee: int, left: int, input: int) -> Option<int> {
    match attos_div(left, input) {
        Some(share) => attos_mul(fee, share),
        None => None,
    }
}

/// A fee taken at a rate between zero and one from a non-negative amount is at most that
/// amount.
pub proof fn law_fee_within_amount(amount: Decimal, rate: int)
    requires
        amount.attos() >= 0,
        0 <= rate <= scale(),
    ensures
        attos_mul(amount.attos(), rate) matches Some(f) && 0 <= f <= amount.attos(),
{
    amount.lemma_attos_range();
    lemma_share_of_amount(rate, amount.attos());
}

/// When no more input is left than came in, the refund of a non-negative fee succeeds and is
/// at most the fee.
pub proof fn law_refund_within_fee(fee: Decimal, left: int, input: int)
    requires
        0 <= left <= input,
        input > 0,
        fee.attos() >= 0,
    ensures
        fee_refund(fee.attos(), left, input) matches Some(v) && 0 <= v <= fee.attos(),
{
    lemma_share_ratio(left, input);
    let q = attos_div(left, input).unwrap();
    fee.lemma_attos_range();
    lemma_share_of_amount(q, fee.attos());
}

/// The fee on `amount` swapped at fee rate `rate`: `amount * rate`.
pub fn swap_fee(amount: Decimal, rate: Decimal) -> (r: Result<Decimal, PoolError>)
    ensures
        match attos_mul(amount.attos(), rate.attos()) {
            Some(f) => r matches Ok(v) && v.attos() == f,
            None => r == Err::<Decimal, PoolError>(PoolError::ArithmeticError),
        },
{
    match dec_checked_mul(amount, rate) {
        Some(v) => Ok(v),
        None => Err(PoolError::ArithmeticError),
    }
}

/// Refunds of the protocol fee and of the liquidity fee of a swap that used only part of
/// its `input`: each fee times `left / input`, with `left` the input tokens not used.
pub fn unused_fee_refunds(protocol_fee: Decimal, liquidity_fee: Decimal, left: Decimal, input: Decimal) -> (r: Result<(Decimal, Decimal), PoolError>)
    ensures
        match (fee_refund(protocol_fee.attos(), left.attos(), input.attos()), fee_refund(liquidity_fee.attos(),
            left.attos(), input.attos())) {
            (Some(p), Some(l)) => r matches Ok((a, b)) && a.attos() == p && b.attos() == l,
            _ => r == Err::<(Decimal, Decimal), PoolError>(PoolError::ArithmeticError),
        },
{
    let share = match dec_checked_div(left, input) {
        Some(v) => v,
        None => return Err(PoolError::ArithmeticError),
    };
    let p = match dec_checked_mul(protocol_fee, share) {
        Some(v) => v,
        None => return Err(PoolError::ArithmeticError),
    };
    let l = match dec_checked_mul(liquidity_fee, share) {
        Some(v) => v,
        None => return Err(PoolError::ArithmeticError),
    };
    Ok((p, l))
}

/// Amounts after a swap step that exhausts the active bin, which holds `active_in` input
/// tokens and `active_out` output tokens: the new progress and the bin's new input side.
fn cross_amounts(progress: SwapProgress, active_in: Decimal, active_out: Decimal, amount_in_swap: Decimal,
    liquidity_fee: Decimal) -> (r: Result<(SwapProgress, Decimal), PoolError>)
    ensures
        match cross_effect(progress.amount_in.attos(), progress.amount_out.attos(), active_in.attos(),
            active_out.attos(), amount_in_swap.attos(), liquidity_fee.attos()) {
            None => r == Err::<(SwapProgress, Decimal), PoolError>(PoolError::ArithmeticError),
            Some((i, o, a)) => r matches Ok((p, kept)) && p.amount_in.attos() == i && p.amount_out.attos() == o
                && kept.attos() == a,
        },
{
    let zero = Decimal::zero();
    let used = if zero.lt(&amount_in_swap) {
        amount_in_swap
    } else if active_out.is_zero() {
        zero
    } else {
        Decimal::from_attos(1)
    };
    let d = match dec_checked_sub(Decimal::one(), liquidity_fee) {
        Some(d) => d,
        None => return Err(PoolError::ArithmeticError),
    };
    let with_fee = match dec_checked_div(used, d) {
        Some(v) => v,
        None => return Err(PoolError::ArithmeticError),
    };
    let amount_in = match dec_checked_sub(progress.amount_in, used) {
        Some(v) => v,
        None => return Err(PoolError::ArithmeticError),
    };
    let amount_out = match dec_checked_add(progress.amount_out, active_out) {
        Some(v) => v,
        None => return Err(PoolError::ArithmeticError),
    };
    let kept = match dec_checked_add(active_in, with_fee) {
        Some(v) => v,
        None => return Err(PoolError::ArithmeticError),
    };
    Ok((SwapProgress { amount_in, amount_out }, kept))
}

/// The square of a square-root price limit fits a decimal.
proof fn lemma_square_fits(a: int)
    requires
        0 <= a < crate::decimal::two_128() / 1024,
    ensures
        attos_mul(a, a) is Some,
{
    let t: int = 332306998946228968225951765070086144;
    assert(crate::decimal::two_128() / 1024 == t);
    assert(a * a < t * t) by (nonlinear_arith)
        requires
            0 <= a < t,
    ;
    assert(0 <= a * a) by (nonlinear_arith);
    assert(t * t < crate::decimal::two_255());
    let q = crate::decimal::div_toward_zero(a * a, scale());
    assert(q == (a * a) / scale());
    vstd::arithmetic::div_mod::lemma_div_is_ordered(a * a, t * t, scale());
    vstd::arithmetic::div_mod::lemma_div_pos_is_pos(a * a, scale());
    assert(t * t / scale() < crate::decimal::two_191());
}

/// The share `claim / total` of a positive total, for a claim between zero and the total,
/// is a decimal between zero and one.
proof fn lemma_share_ratio(claim: int, total: int)
    requires
        0 <= claim <= total,
        total > 0,
    ensures
        attos_div(claim, total) matches Some(q) && 0 <= q <= scale(),
{
    let q = (claim * scale()) / total;
    assert(crate::decimal::div_toward_zero(claim * scale(), total) == q);
    assert(claim * scale() <= total * scale()) by (nonlinear_arith)
        requires
            claim <= total,
    ;
    vstd::arithmetic::div_mod::lemma_div_is_ordered(claim * scale(), total * scale(), total);
    vstd::arithmetic::div_mod::lemma_div_multiples_vanish(scale(), total);
    assert(total * scale() == scale() * total) by (nonlinear_arith);
    vstd::arithmetic::div_mod::lemma_div_pos_is_pos(claim * scale(), total);
}

/// A share between zero and one of a non-negative decimal amount is at most the amount.
proof fn lemma_share_of_amount(q: int, amount: int)
    requires
        0 <= q <= scale(),
        0 <= amount < crate::decimal::two_191(),
    ensures
        attos_mul(q, amount) matches Some(p) && 0 <= p <= amount,
        attos_mul(amount, q) == attos_mul(q, amount),
{
    assert(0 <= q * amount <= scale() * amount) by (nonlinear_arith)
        requires
            0 <= q <= scale(),
            0 <= amount,
    ;
    assert(scale() * amount < crate::decimal::two_255()) by (nonlinear_arith)
        requires
            0 <= amount < crate::decimal::two_191(),
    ;
    let p = (q * amount) / scale();
    assert(crate::decimal::div_toward_zero(q * amount, scale()) == p);
    vstd::arithmetic::div_mod::lemma_div_is_ordered(q * amount, scale() * amount, scale());
    vstd::arithmetic::div_mod::lemma_div_multiples_vanish(amount, scale());
    vstd::arithmetic::div_mod::lemma_div_pos_is_pos(q * amount, scale());
    assert(amount * q == q * amount) by (nonlinear_arith);
}

/// A share `a / b * t` of non-negative values, computed in decimal arithmetic, is within
/// rounding of the exact `a * t / b`: never above it, and below it by less than
/// `(1 + t / 10^18)` units.
proof fn lemma_share_bounds(a: int, b: int, t: int, v: int)
    requires
        0 <= a,
        0 < b,
        0 <= t,
        share_of(a, b, t) == Some(v),
    ensures
        0 <= v,
        v * b <= a * t,
        a * t * scale() < b * (scale() * (v + 1) + t),
{
    let s = scale();
    let q = attos_div(a, b).unwrap();
    assert(a * s >= 0) by (nonlinear_arith)
        requires
            a >= 0,
            s > 0,
    ;
    assert(q == (a * s) / b);
    vstd::arithmetic::div_mod::lemma_fundamental_div_mod(a * s, b);
    vstd::arithmetic::div_mod::lemma_mod_pos_bound(a * s, b);
    vstd::arithmetic::div_mod::lemma_div_pos_is_pos(a * s, b);
    assert(q * t >= 0) by (nonlinear_arith)
        requires
            q >= 0,
            t >= 0,
    ;
    assert(v == (q * t) / s);
    vstd::arithmetic::div_mod::lemma_fundamental_div_mod(q * t, s);
    vstd::arithmetic::div_mod::lemma_mod_pos_bound(q * t, s);
    vstd::arithmetic::div_mod::lemma_div_pos_is_pos(q * t, s);
    let r1 = (a * s) % b;
    let r2 = (q * t) % s;
    assert(v * b <= a * t) by (nonlinear_arith)
        requires
            a * s == b * q + r1,
            0 <= r1 < b,
            q * t == s * v + r2,
            0 <= r2 < s,
            s > 0,
            b > 0,
            t >= 0,
            v >= 0,
    {
        assert(v * s * b <= q * t * b);
        assert(q * b * t <= a * s * t);
        assert(v * b * s <= a * t * s);
    }
    assert(a * t * s < b * (s * (v + 1) + t)) by (nonlinear_arith)
        requires
            a * s == b * q + r1,
            0 <= r1 < b,
            q * t == s * v + r2,
            0 <= r2 < s,
            s > 0,
            b > 0,
            t >= 0,
    {
        assert(a * s * t == b * q * t + r1 * t);
        assert(r1 * t <= b * t);
        assert(b * q * t == b * (s * v + r2));
    }
}

/// A deposit of `a` into a non-empty dormant bin holding `amount` under `total_claim` is
/// given the claim `a / amount * total_claim`, so that every claim keeps its worth: the new
/// claim is never worth more than the deposit (`claim * amount <= a * total_claim`) and
/// falls short of it only by rounding. The bin then holds `amount + a` under
/// `total_claim + claim`.
pub proof fn law_bin_deposit_keeps_worth(bin: Bin, a: int)
    requires
        bin.amount.attos() > 0,
        bin.total_claim.attos() >= 0,
        a >= 0,
    ensures
        bin_deposit(bin, a) matches Some((c, amt, total)) ==> {
            &&& 0 <= c
            &&& c * bin.amount.attos() <= a * bin.total_claim.attos()
            &&& a * bin.total_claim.attos() * scale() < bin.amount.attos() * (scale() * (c + 1)
                + bin.total_claim.attos())
            &&& amt == bin.amount.attos() + a
            &&& total == bin.total_claim.attos() + c
        },
{
    if let Some((c, amt, total)) = bin_deposit(bin, a) {
        lemma_share_bounds(a, bin.amount.attos(), bin.total_claim.attos(), c);
    }
}

/// Liquidity added to the active bin, which holds `ax` and `ay` under `total`, is given the
/// claim that the tokens used on the limiting side stand for: `used / side * total`, never
/// more and short only by rounding, so the claims already held keep their worth.
pub proof fn law_active_deposit_keeps_worth(ax: int, ay: int, total: int, x: int, y: int)
    requires
        ax >= 0,
        ay >= 0,
        total >= 0,
        x >= 0,
        y >= 0,
    ensures
        active_deposit(ax, ay, total, x, y) matches Some((c, ux, uy)) ==> 0 <= c && ({
            ||| (ax > 0 && c * ax <= ux * total && ux * total * scale() < ax * (scale() * (c + 1) + total))
            ||| (ay > 0 && c * ay <= uy * total && uy * total * scale() < ay * (scale() * (c + 1) + total))
        }),
{
    if let Some((c, ux, uy)) = active_deposit(ax, ay, total, x, y) {
        if ax == 0 {
            assert(ay != 0);
            lemma_share_bounds(y, ay, total, c);
        } else if ay == 0 {
            lemma_share_bounds(x, ax, total, c);
        } else {
            let ratio = attos_div(ay, ax).unwrap();
            let x_in_y = attos_mul(x, ratio).unwrap();
            if x_in_y > y {
                lemma_share_bounds(y, ay, total, c);
            } else {
                lemma_share_bounds(x, ax, total, c);
            }
        }
    }
}

/// A partial withdrawal of `claim` from a dormant bin pays `claim / total_claim * amount`:
/// never more than the claim's share of the bin and short of it only by rounding; the bin
/// keeps the rest of its amount and its total claim drops by exactly `claim`.
pub proof fn law_bin_withdraw_keeps_worth(bin: Bin, claim: int)
    requires
        bin.total_claim.attos() > 0,
        bin.amount.attos() >= 0,
        claim >= 0,
    ensures
        bin_withdraw(bin, claim) matches Some((paid, amt, total)) ==> {
            &&& 0 <= paid
            &&& paid * bin.total_claim.attos() <= claim * bin.amount.attos()
            &&& claim * bin.amount.attos() * scale() < bin.total_claim.attos() * (scale() * (paid + 1)
                + bin.amount.attos())
            &&& amt == bin.amount.attos() - paid
            &&& total == bin.total_claim.attos() - claim
        },
{
    if let Some((paid, amt, total)) = bin_withdraw(bin, claim) {
        lemma_share_bounds(claim, bin.total_claim.attos(), bin.amount.attos(), paid);
    }
}

/// A partial withdrawal of `claim` from the active bin holding `ax` and `ay` under `total`
/// pays each side its share `side * claim / total`, never more and short only by rounding;
/// the bin keeps the rest and its total claim drops by exactly `claim`, so the claims still
/// held add up to the total.
pub proof fn law_active_withdraw_keeps_worth(ax: int, ay: int, total: int, claim: int)
    requires
        ax >= 0,
        ay >= 0,
        total > 0,
        claim >= 0,
    ensures
        active_withdraw(ax, ay, total, claim) matches Some((px, py, nx, ny, nt)) ==> {
            &&& 0 <= px && px * total <= claim * ax
            &&& claim * ax * scale() < total * (scale() * (px + 1) + ax)
            &&& 0 <= py && py * total <= claim * ay
            &&& claim * ay * scale() < total * (scale() * (py + 1) + ay)
            &&& nx == ax - px
            &&& ny == ay - py
            &&& nt == total - claim
        },
{
    if let Some((px, py, nx, ny, nt)) = active_withdraw(ax, ay, total, claim) {
        let q = attos_div(claim, total).unwrap();
        assert(ax * q == q * ax) by (nonlinear_arith);
        assert(ay * q == q * ay) by (nonlinear_arith);
        assert(share_of(claim, total, ax) == Some(px));
        assert(share_of(claim, total, ay) == Some(py));
        lemma_share_bounds(claim, total, ax, px);
        lemma_share_bounds(claim, total, ay, py);
    }
}

/// A claim on a dormant bin is worth its share of the bin's amount, `amount * claim /
/// total_claim`, never more and short only by rounding: tokens y below the active tick,
/// tokens x above it.
pub proof fn law_dormant_claim_worth(p: QuantaSwap, c: u32, tick: u32, claim: int)
    requires
        tick != c,
        p.bins().contains_key(tick),
        p.bins()[tick].total_claim.attos() > 0,
        p.bins()[tick].amount.attos() >= 0,
        claim >= 0,
    ensures
        claim_value(p, c, tick, claim) matches Ok((x, y)) ==> {
            let t = p.bins()[tick].total_claim.attos();
            let a = p.bins()[tick].amount.attos();
            let v = if tick < c { y } else { x };
            &&& (if tick < c { x == 0 } else { y == 0 })
            &&& 0 <= v && v * t <= claim * a
            &&& claim * a * scale() < t * (scale() * (v + 1) + a)
        },
{
    if let Ok((x, y)) = claim_value(p, c, tick, claim) {
        let bin = p.bins()[tick];
        let v = if tick < c { y } else { x };
        lemma_share_bounds(claim, bin.total_claim.attos(), bin.amount.attos(), v);
    }
}

/// A claim on the active bin is worth its share of each side, `side * claim / total`: never
/// more and short only by rounding, and the whole total claim is worth exactly the bin's
/// tokens.
pub proof fn law_active_claim_worth(p: QuantaSwap, c: u32, claim: int)
    requires
        p.spec_active_total_claim().attos() > 0,
        p.spec_active_x().attos() >= 0,
        p.spec_active_y().attos() >= 0,
        claim >= 0,
    ensures
        claim_value(p, c, c, claim) matches Ok((x, y)) ==> {
            let t = p.spec_active_total_claim().attos();
            let ax = p.spec_active_x().attos();
            let ay = p.spec_active_y().attos();
            &&& 0 <= x && x * t <= claim * ax
            &&& claim * ax * scale() < t * (scale() * (x + 1) + ax)
            &&& 0 <= y && y * t <= claim * ay
            &&& claim * ay * scale() < t * (scale() * (y + 1) + ay)
        },
        claim == p.spec_active_total_claim().attos() ==> claim_value(p, c, c, claim) == Ok::<(int, int), PoolError>(
            (p.spec_active_x().attos(), p.spec_active_y().attos()),
        ),
{
    let t = p.spec_active_total_claim().attos();
    let ax = p.spec_active_x().attos();
    let ay = p.spec_active_y().attos();
    p.spec_active_x().lemma_attos_range();
    p.spec_active_y().lemma_attos_range();
    p.spec_active_total_claim().lemma_attos_range();
    if let Ok((x, y)) = claim_value(p, c, c, claim) {
        let q = attos_div(claim, t).unwrap();
        assert(ax * q == q * ax) by (nonlinear_arith);
        assert(ay * q == q * ay) by (nonlinear_arith);
        assert(share_of(claim, t, ax) == Some(x));
        assert(share_of(claim, t, ay) == Some(y));
        lemma_share_bounds(claim, t, ax, x);
        lemma_share_bounds(claim, t, ay, y);
    }
    if claim == t {
        lemma_share_ratio(t, t);
        assert((t * scale()) / t == scale()) by {
            vstd::arithmetic::div_mod::lemma_div_multiples_vanish(scale(), t);
            assert(t * scale() == scale() * t) by (nonlinear_arith);
        }
        lemma_share_of_amount(scale(), ax);
        lemma_share_of_amount(scale(), ay);
        assert((scale() * ax) / scale() == ax) by {
            vstd::arithmetic::div_mod::lemma_div_multiples_vanish(ax, scale());
        }
        assert((scale() * ay) / scale() == ay) by {
            vstd::arithmetic::div_mod::lemma_div_multiples_vanish(ay, scale());
        }
    }
}

/// Withdrawing a claim between zero and a bin's total claim always succeeds, pays out at
/// most the bin's amount and leaves the amount and the total claim non-negative.
pub proof fn law_bin_withdraw_within_bin(bin: Bin, claim: int)
    requires
        0 < claim <= bin.total_claim.attos(),
        bin.amount.attos() >= 0,
    ensures
        bin_withdraw(bin, claim) matches Some((paid, amt, total)) && 0 <= paid <= bin.amount.attos() && amt >= 0
            && total >= 0,
{
    bin.amount.lemma_attos_range();
    bin.total_claim.lemma_attos_range();
    lemma_share_ratio(claim, bin.total_claim.attos());
    let q = attos_div(claim, bin.total_claim.attos()).unwrap();
    lemma_share_of_amount(q, bin.amount.attos());
}

/// Withdrawing a claim between zero and the active bin's total claim always succeeds, pays
/// out at most the bin's tokens on each side and leaves the bin's amounts and total claim
/// non-negative.
pub proof fn law_active_withdraw_within_bin(ax: Decimal, ay: Decimal, total: Decimal, claim: int)
    requires
        0 < claim <= total.attos(),
        ax.attos() >= 0,
        ay.attos() >= 0,
    ensures
        active_withdraw(ax.attos(), ay.attos(), total.attos(), claim) matches Some((px, py, nx, ny, nt)) && 0 <= px
            <= ax.attos() && 0 <= py <= ay.attos() && nx >= 0 && ny >= 0 && nt >= 0,
{
    ax.lemma_attos_range();
    ay.lemma_attos_range();
    total.lemma_attos_range();
    lemma_share_ratio(claim, total.attos());
    let q = attos_div(claim, total.attos()).unwrap();
    lemma_share_of_amount(q, ax.attos());
    lemma_share_of_amount(q, ay.attos());
}

/// Liquidity added to the active bin never takes more tokens of either kind than offered.
pub proof fn law_active_deposit_within_offer(ax: int, ay: int, total: int, x: int, y: int)
    requires
        ax >= 0,
        ay >= 0,
        x > 0,
        y > 0,
    ensures
        active_deposit(ax, ay, total, x, y) matches Some((c, ux, uy)) ==> 0 <= ux <= x && 0 <= uy <= y,
{
    if ax != 0 && ay != 0 {
        if let Some(ratio) = attos_div(ay, ax) {
            assert(ratio == (ay * scale()) / ax);
            vstd::arithmetic::div_mod::lemma_div_pos_is_pos(ay * scale(), ax);
            if let Some(x_in_y) = attos_mul(x, ratio) {
                assert(x * ratio >= 0) by (nonlinear_arith)
                    requires
                        x > 0,
                        ratio >= 0,
                ;
                assert(x_in_y == (x * ratio) / scale());
                vstd::arithmetic::div_mod::lemma_div_pos_is_pos(x * ratio, scale());
                if x_in_y > y {
                    if let Some(y_in_x) = attos_div(y, ratio) {
                        assert(ratio != 0);
                        assert(y_in_x == (y * scale()) / ratio);
                        vstd::arithmetic::div_mod::lemma_fundamental_div_mod(x * ratio, scale());
                        vstd::arithmetic::div_mod::lemma_mod_pos_bound(x * ratio, scale());
                        assert(y * scale() < x * ratio) by (nonlinear_arith)
                            requires
                                x * ratio == scale() * x_in_y + (x * ratio) % scale(),
                                (x * ratio) % scale() >= 0,
                                x_in_y >= y + 1,
                                scale() > 0,
                        ;
                        vstd::arithmetic::div_mod::lemma_div_is_ordered(y * scale(), x * ratio, ratio);
                        vstd::arithmetic::div_mod::lemma_div_multiples_vanish(x, ratio);
                        assert(x * ratio == ratio * x) by (nonlinear_arith);
                        vstd::arithmetic::div_mod::lemma_div_pos_is_pos(y * scale(), ratio);
                    }
                }
            }
        }
    }
}

/// The whole claim on a dormant bin with a positive total claim and a non-negative amount is
/// worth the bin's whole amount: tokens y below the active tick, tokens x above it.
pub proof fn law_whole_claim_worth_bin(p: QuantaSwap, c: u32, tick: u32)
    requires
        tick != c,
        p.bins().contains_key(tick),
        p.bins()[tick].total_claim.attos() > 0,
        p.bins()[tick].amount.attos() >= 0,
    ensures
        claim_value(p, c, tick, p.bins()[tick].total_claim.attos()) == (if tick < c {
            Ok::<(int, int), PoolError>((0, p.bins()[tick].amount.attos()))
        } else {
            Ok::<(int, int), PoolError>((p.bins()[tick].amount.attos(), 0))
        }),
{
    let bin = p.bins()[tick];
    let t = bin.total_claim.attos();
    bin.amount.lemma_attos_range();
    lemma_share_ratio(t, t);
    assert((t * scale()) / t == scale()) by {
        vstd::arithmetic::div_mod::lemma_div_multiples_vanish(scale(), t);
        assert(t * scale() == scale() * t) by (nonlinear_arith);
    }
    lemma_share_of_amount(scale(), bin.amount.attos());
    assert((scale() * bin.amount.attos()) / scale() == bin.amount.attos()) by {
        vstd::arithmetic::div_mod::lemma_div_multiples_vanish(bin.amount.attos(), scale());
    }
}

/// Liquidity put into an empty pool comes back whole: after the first position, of `x`
/// tokens x and `y` tokens y, withdrawing the claim it was given pays out exactly `x` and `y`
/// and leaves the pool without liquidity.
pub proof fn law_first_position_returned(pre: QuantaSwap, mid: QuantaSwap, post: QuantaSwap, tick: u32, x: Decimal,
    y: Decimal, claim: Decimal, r: Result<(Decimal, Decimal), PoolError>)
    requires
        pre.wf(),
        pre.current_tick() is None,
        position_effect(pre, tick, x.attos(), y.attos()) matches PositionEffect::Done(c, _, _) && c == claim.attos(),
        position_post(pre, mid, tick, x, y),
        active_withdraw_effect(mid, post, Tick(tick), claim, r),
    ensures
        r == Ok::<(Decimal, Decimal), PoolError>((x, y)),
        post.current_tick() is None,
        post.ticks() == pre.ticks(),
{
    pre.tick_index.lemma_wf();
    assert(pre.ticks() == Set::<u32>::empty());
    claim.lemma_attos_injective(mid.spec_active_total_claim());
    assert(post.ticks() =~= Set::<u32>::empty());
    if let Some(t) = post.current_tick() {
        assert(post.ticks().contains(t.0));
    }
}

/// Liquidity put into an empty dormant bin comes back whole: withdrawing the claim it was
/// given pays out exactly the tokens deposited (tokens x above the active tick, tokens y
/// below it) and takes the bin's tick out of the index.
pub proof fn law_fresh_bin_returned(pre: QuantaSwap, mid: QuantaSwap, post: QuantaSwap, tick: u32, x: Decimal,
    y: Decimal, claim: Decimal, r: Result<Decimal, PoolError>)
    requires
        pre.wf(),
        pre.current_tick() matches Some(c) && tick != c.0,
        !pre.bins().contains_key(tick) || pre.bins()[tick].amount.attos() == 0,
        position_effect(pre, tick, x.attos(), y.attos()) matches PositionEffect::Done(cl, _, _) && cl == claim.attos(),
        position_post(pre, mid, tick, x, y),
        bin_withdraw_effect(mid, post, tick, claim, r),
    ensures
        r == Ok::<Decimal, PoolError>(if tick > pre.current_tick().unwrap().0 { x } else { y }),
        post.ticks() == pre.ticks().remove(tick),
{
    let amount = if tick > pre.current_tick().unwrap().0 { x } else { y };
    assert(mid.bins() == pre.bins().insert(tick, Bin { amount, total_claim: amount }));
    claim.lemma_attos_injective(amount);
    assert(post.ticks() =~= pre.ticks().remove(tick));
}

/// Liquidity claims of a liquidity receipt: the claim amount on the bin of each tick, with
/// the list of ticks that hold a claim.
pub struct LiquidityReceipt {
    liquidity_claims: HashMapWithView<u32, Decimal>,
    ticks: Vec<u32>,
}

impl LiquidityReceipt {
    /// Claims by tick.
    pub closed spec fn claims(&self) -> Map<u32, Decimal> {
        self.liquidity_claims@
    }

    /// The tick list names each tick holding a claim exactly once.
    pub closed spec fn wf(&self) -> bool {
        &&& self.ticks@.no_duplicates()
        &&& forall|i: int| 0 <= i < self.ticks@.len() ==> self.liquidity_claims@.contains_key(#[trigger] self.ticks@[i])
        &&& forall|t: u32| #[trigger] self.liquidity_claims@.contains_key(t) ==> self.ticks@.contains(t)
    }

    /// A receipt without claims.
    pub fn new() -> (r: LiquidityReceipt)
        ensures
            r.wf(),
            r.claims() == Map::<u32, Decimal>::empty(),
    {
        LiquidityReceipt { liquidity_claims: HashMapWithView::new(), ticks: Vec::new() }
    }

    /// Number of claims.
    pub fn len(&self) -> (r: usize)
        ensures
            r == self.claims().len(),
    {
        self.liquidity_claims.len()
    }

    /// The claim on the bin at `tick`.
    pub fn get(&self, tick: u32) -> (r: Option<Decimal>)
        ensures
            r == (if self.claims().contains_key(tick) { Some(self.claims()[tick]) } else { None::<Decimal> }),
    {
        match self.liquidity_claims.get(&tick) {
            Some(c) => Some(*c),
            None => None,
        }
    }

    /// The claims as `(tick, claim)` pairs, each tick once.
    pub fn liquidity_claims(&self) -> (r: Vec<(u32, Decimal)>)
        requires
            self.wf(),
        ensures
            lists_claims(self.claims(), r@),
    {
        let mut out: Vec<(u32, Decimal)> = Vec::new();
        let mut i: usize = 0;
        while i < self.ticks.len()
            invariant
                self.wf(),
                0 <= i <= self.ticks@.len(),
                out@.len() == i,
                forall|j: int| 0 <= j < i ==> (#[trigger] out@[j]).0 == self.ticks@[j]
                    && out@[j].1 == self.liquidity_claims@[self.ticks@[j]],
            decreases self.ticks@.len() - i,
        {
            let t = self.ticks[i];
            let c = *self.liquidity_claims.get(&t).unwrap();
            out.push((t, c));
            i = i + 1;
        }
        proof {
            assert(self.ticks@.to_set() =~= self.liquidity_claims@.dom());
            self.ticks@.unique_seq_to_set();
            assert forall|i: int, j: int| 0 <= i < j < out@.len() implies out@[i].0 != out@[j].0 by {
                assert(out@[i].0 == self.ticks@[i]);
                assert(out@[j].0 == self.ticks@[j]);
            }
            assert forall|t: u32| #[trigger] self.claims().contains_key(t) implies exists|i: int| 0 <= i < out@.len()
                && out@[i].0 == t by {
                let k = self.ticks@.index_of(t);
                assert(out@[k].0 == t);
            }
        }
        out
    }

    /// Store `claim` at `tick`.
    fn put(&mut self, tick: u32, claim: Decimal)
        requires
            old(self).wf(),
        ensures
            final(self).wf(),
            final(self).claims() == old(self).claims().insert(tick, claim),
    {
        if !self.liquidity_claims.contains_key(&tick) {
            self.ticks.push(tick);
        }
        self.liquidity_claims.insert(tick, claim);
        proof {
            assert forall|i: int| 0 <= i < self.ticks@.len() implies self.liquidity_claims@.contains_key(
                #[trigger] self.ticks@[i]) by {
                if i < old(self).ticks@.len() {
                    assert(old(self).ticks@[i] == self.ticks@[i]);
                }
            }
            assert forall|t: u32| #[trigger] self.liquidity_claims@.contains_key(t) implies self.ticks@.contains(t) by {
                if t == tick {
                    if !old(self).liquidity_claims@.contains_key(tick) {
                        assert(self.ticks@[self.ticks@.len() - 1] == tick);
                    } else {
                        let k = old(self).ticks@.index_of(t);
                        assert(self.ticks@[k] == t);
                    }
                } else {
                    assert(old(self).liquidity_claims@.contains_key(t));
                    let k = old(self).ticks@.index_of(t);
                    assert(self.ticks@[k] == t);
                }
            }
        }
    }

    /// Drop the claim at `tick`.
    fn drop_tick(&mut self, tick: u32)
        requires
            old(self).wf(),
        ensures
            final(self).wf(),
            final(self).claims() == old(self).claims().remove(tick),
    {
        let mut i: usize = 0;
        while i < self.ticks.len()
            invariant
                self.wf(),
                *self == *old(self),
                0 <= i <= self.ticks@.len(),
                forall|j: int| 0 <= j < i ==> self.ticks@[j] != tick,
            ensures
                *self == *old(self),
                0 <= i <= self.ticks@.len(),
                forall|j: int| 0 <= j < i ==> self.ticks@[j] != tick,
                i < self.ticks@.len() ==> self.ticks@[i as int] == tick,
            decreases self.ticks@.len() - i,
        {
            if self.ticks[i] == tick {
                break;
            }
            i = i + 1;
        }
        if i < self.ticks.len() {
            let ghost pre = self.ticks@;
            self.ticks.remove(i);
            proof {
                assert(self.ticks@ == pre.remove(i as int));
                assert forall|j: int, k: int| 0 <= j < k < self.ticks@.len() implies self.ticks@[j] != self.ticks@[k] by {
                    let jj = if j < i { j } else { j + 1 };
                    let kk = if k < i { k } else { k + 1 };
                    assert(self.ticks@[j] == pre[jj]);
                    assert(self.ticks@[k] == pre[kk]);
                }
            }
        }
        self.liquidity_claims.remove(&tick);
        proof {
            assert(self.ticks@.no_duplicates());
            assert forall|j: int| 0 <= j < self.ticks@.len() implies self.liquidity_claims@.contains_key(
                #[trigger] self.ticks@[j]) by {
                if i < old(self).ticks@.len() {
                    let jj = if j < i { j } else { j + 1 };
                    assert(self.ticks@[j] == old(self).ticks@[jj]);
                    assert(old(self).ticks@[jj] != old(self).ticks@[i as int]);
                } else {
                    assert(self.ticks@[j] == old(self).ticks@[j]);
                }
            }
            assert forall|t: u32| #[trigger] self.liquidity_claims@.contains_key(t) implies self.ticks@.contains(t) by {
                assert(old(self).liquidity_claims@.contains_key(t));
                let k = old(self).ticks@.index_of(t);
                if i < old(self).ticks@.len() {
                    assert(k != i);
                    let kk = if k < i { k } else { k - 1 };
                    assert(self.ticks@[kk] == t);
                } else {
                    assert(self.ticks@[k] == t);
                }
            }
        }
    }

    /// Set the claim on the bin at `tick`.
    pub fn set(&mut self, tick: u32, claim: Decimal)
        requires
            old(self).wf(),
        ensures
            final(self).wf(),
            final(self).claims() == old(self).claims().insert(tick, claim),
    {
        self.put(tick, claim);
    }

    /// Take up to `claim` from the claim on the bin at `tick`: a stored claim that is not
    /// larger is taken whole, zero included, and its entry dropped; otherwise `claim` is
    /// subtracted from it. Returns the part taken. A request that is not positive, and a
    /// stored claim below zero (which no deposit leaves), are refused.
    pub fn take_claim(&mut self, tick: u32, claim: Decimal) -> (r: Result<Decimal, PoolError>)
        requires
            old(self).wf(),
        ensures
            final(self).wf(),
            claim.attos() <= 0 ==> r == Err::<Decimal, PoolError>(PoolError::ClaimNotPositive)
                && final(self).claims() == old(self).claims(),
            claim.attos() > 0 && !old(self).claims().contains_key(tick) ==> r == Err::<Decimal, PoolError>(
                PoolError::ClaimNotFound) && final(self).claims() == old(self).claims(),
            claim.attos() > 0 && old(self).claims().contains_key(tick) ==> {
                let available = old(self).claims()[tick];
                let used = claim_taken(available, claim);
                if used.attos() < 0 {
                    r == Err::<Decimal, PoolError>(PoolError::ClaimNotPositive) && final(self).claims() == old(self).claims()
                } else {
                    &&& r == Ok::<Decimal, PoolError>(used)
                    &&& (available.attos() > claim.attos() ==> final(self).claims().contains_key(tick)
                        && final(self).claims()[tick].attos() == available.attos() - claim.attos()
                        && final(self).claims().remove(tick) == old(self).claims().remove(tick))
                    &&& (available.attos() <= claim.attos() ==> final(self).claims() == old(self).claims().remove(tick))
                }
            },
    {
        let zero = Decimal::zero();
        if !zero.lt(&claim) {
            return Err(PoolError::ClaimNotPositive);
        }
        let available = match self.liquidity_claims.get(&tick) {
            Some(a) => *a,
            None => return Err(PoolError::ClaimNotFound),
        };
        if claim.lt(&available) {
            proof {
                available.lemma_attos_range();
                claim.lemma_attos_range();
            }
            let rest = match dec_checked_sub(available, claim) {
                Some(v) => v,
                None => return Err(PoolError::ArithmeticError),
            };
            self.put(tick, rest);
            proof {
                assert(self.claims().remove(tick) =~= old(self).claims().remove(tick));
            }
            Ok(claim)
        } else {
            if available.lt(&zero) {
                return Err(PoolError::ClaimNotPositive);
            }
            self.drop_tick(tick);
            Ok(available)
        }
    }

    /// Add `claim` to the claim on the bin at `tick` (a new entry when there is none).
    fn add_claim(&mut self, tick: u32, claim: Decimal) -> (r: Result<(), PoolError>)
        requires
            old(self).wf(),
        ensures
            final(self).wf(),
            old(self).claims().contains_key(tick) ==> match attos_add(old(self).claims()[tick].attos(), claim.attos()) {
                Some(v) => r is Ok && final(self).claims().contains_key(tick)
                    && final(self).claims()[tick].attos() == v
                    && final(self).claims().remove(tick) == old(self).claims().remove(tick),
                None => r == Err::<(), PoolError>(PoolError::ArithmeticError) && final(self).claims() == old(self).claims(),
            },
            !old(self).claims().contains_key(tick) ==> r is Ok && final(self).claims() == old(self).claims().insert(tick, claim),
    {
        match self.liquidity_claims.get(&tick) {
            Some(position) => {
                let v = match dec_checked_add(*position, claim) {
                    Some(v) => v,
                    None => return Err(PoolError::ArithmeticError),
                };
                self.put(tick, v);
                proof {
                    assert(self.claims().remove(tick) =~= old(self).claims().remove(tick));
                }
                Ok(())
            },
            None => {
                self.put(tick, claim);
                Ok(())
            },
        }
    }
}

/// Effect of withdrawing `claim` from the dormant bin at `tick`: a missing bin is refused;
/// the whole claim empties the bin and drops its tick; a partial claim is paid
/// `claim / total_claim * amount`.
pub open spec fn bin_withdraw_effect(pre: QuantaSwap, post: QuantaSwap, tick: u32, claim: Decimal, r: Result<Decimal, PoolError>) -> bool {
    &&& (!pre.bins().contains_key(tick) ==> r == Err::<Decimal, PoolError>(PoolError::BinNotFound)
                && post.bins() == pre.bins() && post.ticks() == pre.ticks())
    &&& (pre.bins().contains_key(tick) && claim == pre.bins()[tick].total_claim ==> {
                &&& r == Ok::<Decimal, PoolError>(pre.bins()[tick].amount)
                &&& post.bins() == pre.bins().insert(tick, Bin { amount: Decimal::spec_zero(), total_claim: Decimal::spec_zero() })
                &&& post.ticks() == pre.ticks().remove(tick)
            })
    &&& (pre.bins().contains_key(tick) && claim != pre.bins()[tick].total_claim ==> {
                match bin_withdraw(pre.bins()[tick], claim.attos()) {
                    Some((paid, amt, total)) => {
                        &&& r matches Ok(p) && p.attos() == paid
                        &&& post.bins().contains_key(tick)
                        &&& post.bins()[tick].amount.attos() == amt
                        &&& post.bins()[tick].total_claim.attos() == total
                        &&& post.bins().remove(tick) == pre.bins().remove(tick)
                        &&& post.ticks() == pre.ticks()
                    },
                    None => {
                        &&& r == Err::<Decimal, PoolError>(PoolError::ArithmeticError)
                        &&& post.bins() == pre.bins()
                        &&& post.ticks() == pre.ticks()
                    },
                }
            })
}

/// Effect of withdrawing `claim` from the active bin at `current_tick`: the whole claim pays
/// out the bin, drops its tick and makes the replacement tick's bin active; a partial claim
/// pays each side `side * (claim / total)`.
pub open spec fn active_withdraw_effect(pre: QuantaSwap, post: QuantaSwap, current_tick: Tick, claim: Decimal, r: Result<(Decimal, Decimal), PoolError>) -> bool {
    &&& (claim == pre.spec_active_total_claim() ==> {
                &&& r == Ok::<(Decimal, Decimal), PoolError>((pre.spec_active_x(), pre.spec_active_y()))
                &&& post.ticks() == pre.ticks().remove(current_tick.0)
                &&& is_replacement(post.ticks(), current_tick.0, post.current_tick())
                &&& post.bins() == pre.bins().insert(current_tick.0, Bin { amount: Decimal::spec_zero(), total_claim: Decimal::spec_zero() })
                &&& match post.current_tick() {
                    Some(n) => {
                        &&& post.spec_active_total_claim() == pre.bins()[n.0].total_claim
                        &&& n.0 > current_tick.0 ==> post.spec_active_x() == pre.bins()[n.0].amount
                            && post.spec_active_y().attos() == 0
                        &&& n.0 < current_tick.0 ==> post.spec_active_y() == pre.bins()[n.0].amount
                            && post.spec_active_x().attos() == 0
                    },
                    None => post.spec_active_x().attos() == 0 && post.spec_active_y().attos() == 0
                        && post.spec_active_total_claim().attos() == 0,
                }
            })
    &&& (claim != pre.spec_active_total_claim() ==> {
                &&& post.ticks() == pre.ticks()
                &&& post.bins() == pre.bins()
                &&& post.current_tick() == pre.current_tick()
                &&& match active_withdraw(pre.spec_active_x().attos(), pre.spec_active_y().attos(),
                    pre.spec_active_total_claim().attos(), claim.attos()) {
                    Some((px, py, nx, ny, nt)) => {
                        &&& r matches Ok((x, y)) && x.attos() == px && y.attos() == py
                        &&& post.spec_active_x().attos() == nx
                        &&& post.spec_active_y().attos() == ny
                        &&& post.spec_active_total_claim().attos() == nt
                    },
                    None => r == Err::<(Decimal, Decimal), PoolError>(PoolError::ArithmeticError)
                        && post.spec_active_x() == pre.spec_active_x()
                        && post.spec_active_y() == pre.spec_active_y()
                        && post.spec_active_total_claim() == pre.spec_active_total_claim(),
                }
            })
}

/// The liquidity state of a QuantaSwap pool: the bins of dormant liquidity, the tick index
/// and the active bin.
pub struct QuantaSwap {
    bin_span: u32,
    tick_index: TickIndex,
    bin_map: HashMapWithView<u32, Bin>,
    lower_limit: Decimal,
    upper_limit: Decimal,
    active_x: Decimal,
    active_y: Decimal,
    active_total_claim: Decimal,
}

impl QuantaSwap {
    /// Span of ticks a bin covers.
    pub closed spec fn span(&self) -> u32 {
        self.bin_span
    }

    /// Ticks of the bins holding liquidity.
    pub closed spec fn ticks(&self) -> Set<u32> {
        self.tick_index.ticks()
    }

    /// Tick of the active bin.
    pub closed spec fn current_tick(&self) -> Option<Tick> {
        self.tick_index.current_tick()
    }

    /// Dormant bins by tick (the entry of the active tick is not its live state).
    pub closed spec fn bins(&self) -> Map<u32, Bin> {
        self.bin_map@
    }

    /// Tokens x in the active bin.
    pub closed spec fn spec_active_x(&self) -> Decimal {
        self.active_x
    }

    /// Tokens y in the active bin.
    pub closed spec fn spec_active_y(&self) -> Decimal {
        self.active_y
    }

    /// Total claim on the active bin.
    pub closed spec fn spec_active_total_claim(&self) -> Decimal {
        self.active_total_claim
    }

    /// The pool state is consistent: a well-formed tick index over valid ticks, a stored bin
    /// for every indexed tick but the active one, every non-empty dormant bin indexed, and an
    /// active bin that is empty when there is no active tick and whose limits are the prices
    /// of its tick and the next bin's tick otherwise.
    pub closed spec fn wf(&self) -> bool {
        &&& self.tick_index.wf()
        &&& self.bin_span > 0
        &&& forall|t: u32| #[trigger] self.ticks().contains(t) ==> valid_tick(t, self.bin_span)
        &&& forall|t: u32| #[trigger] self.ticks().contains(t) && self.current_tick() != Some(Tick(t))
            ==> self.bin_map@.contains_key(t)
        &&& forall|t: u32| #[trigger] self.bin_map@.contains_key(t) && self.current_tick() != Some(
            Tick(t),
        ) && (self.bin_map@[t].amount.attos() != 0 || self.bin_map@[t].total_claim.attos() != 0)
            ==> self.ticks().contains(t)
        &&& match self.current_tick() {
            None => {
                &&& self.active_x.attos() == 0
                &&& self.active_y.attos() == 0
                &&& self.active_total_claim.attos() == 0
                &&& self.lower_limit.attos() == 0
                &&& self.upper_limit.attos() == 0
            },
            Some(c) => {
                &&& self.lower_limit.attos() == tick_attos(c.0)
                &&& self.upper_limit.attos() == tick_attos((c.0 + self.bin_span) as u32)
            },
        }
    }

    /// A pool with no liquidity whose bins span `bin_span` ticks.
    pub fn new(bin_span: u32) -> (r: Result<QuantaSwap, PoolError>)
        ensures
            bin_span == 0 ==> r == Err::<QuantaSwap, PoolError>(PoolError::InvalidBinSpan),
            bin_span > 0 ==> (r matches Ok(p) && p.wf() && p.span() == bin_span && p.ticks() == Set::<u32>::empty()
                && p.bins() == Map::<u32, Bin>::empty() && p.current_tick() is None),
    {
        if bin_span == 0 {
            return Err(PoolError::InvalidBinSpan);
        }
        let p = QuantaSwap {
            bin_span,
            tick_index: TickIndex::new(),
            bin_map: HashMapWithView::new(),
            lower_limit: Decimal::zero(),
            upper_limit: Decimal::zero(),
            active_x: Decimal::zero(),
            active_y: Decimal::zero(),
            active_total_claim: Decimal::zero(),
        };
        Ok(p)
    }

    /// Put the first liquidity of the pool into the active bin at `tick`; the claim is the
    /// larger of the two amounts.
    fn add_initial_liquidity(&mut self, tick: Tick, amount_x: Decimal, amount_y: Decimal) -> (claim: Decimal)
        requires
            old(self).wf(),
            old(self).current_tick() is None,
            valid_tick(tick.0, old(self).span()),
        ensures
            final(self).wf(),
            final(self).span() == old(self).span(),
            final(self).ticks() == old(self).ticks().insert(tick.0),
            final(self).current_tick() == Some(tick),
            final(self).bins() == old(self).bins(),
            claim.attos() == (if amount_x.attos() >= amount_y.attos() { amount_x.attos() } else { amount_y.attos() }),
            final(self).spec_active_x() == amount_x,
            final(self).spec_active_y() == amount_y,
            final(self).spec_active_total_claim() == claim,
    {
        proof {
            lemma_valid_tick_upper(tick.0, self.bin_span);
            self.tick_index.lemma_wf();
        }
        self.tick_index.insert(tick);
        self.lower_limit = Decimal::from_tick(tick);
        self.upper_limit = Decimal::from_tick(tick.tick_upper(self.bin_span));
        let claim = amount_x.max(amount_y);
        self.active_total_claim = claim;
        self.active_x = amount_x;
        self.active_y = amount_y;
        proof {
            assert(old(self).ticks() == Set::<u32>::empty());
            assert forall|t: u32| #[trigger] self.bin_map@.contains_key(t) && self.current_tick() != Some(
                Tick(t),
            ) && (self.bin_map@[t].amount.attos() != 0 || self.bin_map@[t].total_claim.attos() != 0)
                implies self.ticks().contains(t) by {
                assert(!old(self).ticks().contains(t));
            }
        }
        claim
    }

    /// Deposit `amount` into the dormant bin at `tick`. An empty or missing bin starts afresh
    /// with claim equal to the amount; otherwise the claim is `amount / bin.amount *
    /// bin.total_claim`.
    fn add_liquidity_to_bin(&mut self, tick: Tick, amount: Decimal) -> (r: Result<Decimal, PoolError>)
        requires
            old(self).wf(),
            old(self).current_tick() matches Some(c) && c.0 != tick.0,
            valid_tick(tick.0, old(self).span()),
            amount.attos() > 0,
        ensures
            final(self).wf(),
            final(self).span() == old(self).span(),
            final(self).current_tick() == old(self).current_tick(),
            final(self).spec_active_x() == old(self).spec_active_x(),
            final(self).spec_active_y() == old(self).spec_active_y(),
            final(self).spec_active_total_claim() == old(self).spec_active_total_claim(),
            ({
                let fresh = !old(self).bins().contains_key(tick.0) || old(self).bins()[tick.0].amount.attos() == 0;
                if fresh {
                    &&& r == Ok::<Decimal, PoolError>(amount)
                    &&& final(self).bins() == old(self).bins().insert(tick.0, Bin { amount, total_claim: amount })
                    &&& final(self).ticks() == old(self).ticks().insert(tick.0)
                } else {
                    match bin_deposit(old(self).bins()[tick.0], amount.attos()) {
                        Some((claim, amt, total)) => {
                            &&& r matches Ok(c) && c.attos() == claim
                            &&& final(self).bins().contains_key(tick.0)
                            &&& final(self).bins()[tick.0].amount.attos() == amt
                            &&& final(self).bins()[tick.0].total_claim.attos() == total
                            &&& final(self).bins().remove(tick.0) == old(self).bins().remove(tick.0)
                            &&& final(self).ticks() == old(self).ticks()
                        },
                        None => {
                            &&& r == Err::<Decimal, PoolError>(PoolError::ArithmeticError)
                            &&& final(self).bins() == old(self).bins()
                            &&& final(self).ticks() == old(self).ticks()
                        },
                    }
                }
            }),
    {
        let (bin, claim, fresh) = match self.bin_map.get(&tick.0) {
            Some(bin) => {
                let bin = *bin;
                if bin.amount.is_zero() {
                    (Bin { amount, total_claim: amount }, amount, true)
                } else {
                    let q = match dec_checked_div(amount, bin.amount) {
                        Some(q) => q,
                        None => return Err(PoolError::ArithmeticError),
                    };
                    let claim = match dec_checked_mul(q, bin.total_claim) {
                        Some(c) => c,
                        None => return Err(PoolError::ArithmeticError),
                    };
                    let total = match dec_checked_add(bin.total_claim, claim) {
                        Some(t) => t,
                        None => return Err(PoolError::ArithmeticError),
                    };
                    let amt = match dec_checked_add(bin.amount, amount) {
                        Some(a) => a,
                        None => return Err(PoolError::ArithmeticError),
                    };
                    (Bin { amount: amt, total_claim: total }, claim, false)
                }
            },
            None => (Bin { amount, total_claim: amount }, amount, true),
        };
        proof {
            self.tick_index.lemma_wf();
            if !fresh {
                assert(self.bin_map@.contains_key(tick.0));
                assert(self.ticks().contains(tick.0));
            }
        }
        if fresh {
            self.tick_index.insert(tick);
        }
        self.bin_map.insert(tick.0, bin);
        proof {
            assert(self.bin_map@.remove(tick.0) =~= old(self).bin_map@.remove(tick.0));
            assert forall|t: u32| #[trigger] self.ticks().contains(t) && self.current_tick() != Some(Tick(t))
                implies self.bin_map@.contains_key(t) by {
                if t != tick.0 {
                    assert(old(self).ticks().contains(t));
                }
            }
            assert forall|t: u32| #[trigger] self.bin_map@.contains_key(t) && self.current_tick() != Some(
                Tick(t),
            ) && (self.bin_map@[t].amount.attos() != 0 || self.bin_map@[t].total_claim.attos() != 0)
                implies self.ticks().contains(t) by {
                if t != tick.0 {
                    assert(old(self).bin_map@.contains_key(t));
                    assert(old(self).ticks().contains(t));
                }
            }
            assert forall|t: u32| #[trigger] self.ticks().contains(t) implies valid_tick(t, self.bin_span) by {
                if t != tick.0 {
                    assert(old(self).ticks().contains(t));
                }
            }
            assert(self.tick_index.wf());
            assert(self.bin_span > 0);
        }
        Ok(claim)
    }

    /// Whether `tick` is in the tick index.
    fn is_indexed(&self, tick: Tick) -> (r: bool)
        requires
            self.wf(),
        ensures
            r == self.ticks().contains(tick.0),
    {
        proof {
            self.tick_index.lemma_wf();
        }
        if tick.0 >= TickIndex::KEY_FLAG {
            return false;
        }
        if tick.0 + 1 < TickIndex::KEY_FLAG {
            match self.tick_index.next_down(Tick(tick.0 + 1)) {
                Some(t) => t.0 == tick.0,
                None => false,
            }
        } else {
            match self.tick_index.next_up(Tick(tick.0 - 1)) {
                Some(t) => t.0 == tick.0,
                None => false,
            }
        }
    }

    /// Withdraw `claim` from the dormant bin at `tick`; returns the tokens paid out. The
    /// whole claim empties the bin and drops its tick from the index; a partial claim is paid
    /// `claim / total_claim * amount`.
    fn remove_liquidity_from_bin(&mut self, tick: Tick, claim: Decimal) -> (r: Result<Decimal, PoolError>)
        requires
            old(self).wf(),
            old(self).current_tick() != Some(tick),
            claim.attos() >= 0,
        ensures
            final(self).wf(),
            final(self).span() == old(self).span(),
            final(self).current_tick() == old(self).current_tick(),
            final(self).spec_active_x() == old(self).spec_active_x(),
            final(self).spec_active_y() == old(self).spec_active_y(),
            final(self).spec_active_total_claim() == old(self).spec_active_total_claim(),
            bin_withdraw_effect(*old(self), *final(self), tick.0, claim, r),
    {
        let bin = match self.bin_map.get(&tick.0) {
            Some(bin) => *bin,
            None => return Err(PoolError::BinNotFound),
        };
        if claim == bin.total_claim {
            if self.is_indexed(tick) {
                self.tick_index.remove(tick);
            } else {
                proof {
                    assert(self.ticks() =~= old(self).ticks().remove(tick.0));
                }
            }
            let amount = bin.amount;
            self.bin_map.insert(tick.0, Bin { amount: Decimal::zero(), total_claim: Decimal::zero() });
            proof {
                Decimal::lemma_spec_zero();
            }
            Ok(amount)
        } else {
            let q = match dec_checked_div(claim, bin.total_claim) {
                Some(q) => q,
                None => return Err(PoolError::ArithmeticError),
            };
            let amount = match dec_checked_mul(q, bin.amount) {
                Some(a) => a,
                None => return Err(PoolError::ArithmeticError),
            };
            let amt = match dec_checked_sub(bin.amount, amount) {
                Some(a) => a,
                None => return Err(PoolError::ArithmeticError),
            };
            let total = match dec_checked_sub(bin.total_claim, claim) {
                Some(t) => t,
                None => return Err(PoolError::ArithmeticError),
            };
            self.bin_map.insert(tick.0, Bin { amount: amt, total_claim: total });
            proof {
                assert(self.bin_map@.remove(tick.0) =~= old(self).bin_map@.remove(tick.0));
            }
            Ok(amount)
        }
    }

    /// Deposit into the active bin; returns the claim and the tokens x and y used.
    fn add_active_liquidity(&mut self, amount_x: Decimal, amount_y: Decimal) -> (r: Result<(Decimal, Decimal, Decimal), PoolError>)
        requires
            old(self).wf(),
            old(self).current_tick() is Some,
            amount_x.attos() > 0,
            amount_y.attos() > 0,
        ensures
            final(self).wf(),
            final(self).span() == old(self).span(),
            final(self).current_tick() == old(self).current_tick(),
            final(self).ticks() == old(self).ticks(),
            final(self).bins() == old(self).bins(),
            ({
                let d = active_deposit(old(self).spec_active_x().attos(), old(self).spec_active_y().attos(),
                    old(self).spec_active_total_claim().attos(), amount_x.attos(), amount_y.attos());
                match d {
                    Some((claim, ux, uy)) => {
                        match (attos_add(old(self).spec_active_x().attos(), ux), attos_add(old(self).spec_active_y().attos(), uy),
                            attos_add(old(self).spec_active_total_claim().attos(), claim)) {
                            (Some(nx), Some(ny), Some(nt)) => {
                                &&& r matches Ok((c, x, y)) && c.attos() == claim && x.attos() == ux && y.attos() == uy
                                &&& final(self).spec_active_x().attos() == nx
                                &&& final(self).spec_active_y().attos() == ny
                                &&& final(self).spec_active_total_claim().attos() == nt
                            },
                            _ => r == Err::<(Decimal, Decimal, Decimal), PoolError>(PoolError::ArithmeticError)
                                && final(self).spec_active_x() == old(self).spec_active_x()
                                && final(self).spec_active_y() == old(self).spec_active_y()
                                && final(self).spec_active_total_claim() == old(self).spec_active_total_claim(),
                        }
                    },
                    None => r == Err::<(Decimal, Decimal, Decimal), PoolError>(PoolError::ArithmeticError)
                        && final(self).spec_active_x() == old(self).spec_active_x()
                        && final(self).spec_active_y() == old(self).spec_active_y()
                        && final(self).spec_active_total_claim() == old(self).spec_active_total_claim(),
                }
            }),
    {
        let (claim, used_x, used_y) = if self.active_x.is_zero() {
            let q = match dec_checked_div(amount_y, self.active_y) {
                Some(q) => q,
                None => return Err(PoolError::ArithmeticError),
            };
            let claim = match dec_checked_mul(q, self.active_total_claim) {
                Some(c) => c,
                None => return Err(PoolError::ArithmeticError),
            };
            (claim, Decimal::zero(), amount_y)
        } else if self.active_y.is_zero() {
            let q = match dec_checked_div(amount_x, self.active_x) {
                Some(q) => q,
                None => return Err(PoolError::ArithmeticError),
            };
            let claim = match dec_checked_mul(q, self.active_total_claim) {
                Some(c) => c,
                None => return Err(PoolError::ArithmeticError),
            };
            (claim, amount_x, Decimal::zero())
        } else {
            let token_ratio = match dec_checked_div(self.active_y, self.active_x) {
                Some(q) => q,
                None => return Err(PoolError::ArithmeticError),
            };
            let amount_x_in_y = match dec_checked_mul(amount_x, token_ratio) {
                Some(v) => v,
                None => return Err(PoolError::ArithmeticError),
            };
            if amount_y.lt(&amount_x_in_y) {
                let q = match dec_checked_div(amount_y, self.active_y) {
                    Some(q) => q,
                    None => return Err(PoolError::ArithmeticError),
                };
                let claim = match dec_checked_mul(q, self.active_total_claim) {
                    Some(c) => c,
                    None => return Err(PoolError::ArithmeticError),
                };
                let amount_y_in_x = match dec_checked_div(amount_y, token_ratio) {
                    Some(v) => v,
                    None => return Err(PoolError::ArithmeticError),
                };
                (claim, amount_y_in_x, amount_y)
            } else {
                let q = match dec_checked_div(amount_x, self.active_x) {
                    Some(q) => q,
                    None => return Err(PoolError::ArithmeticError),
                };
                let claim = match dec_checked_mul(q, self.active_total_claim) {
                    Some(c) => c,
                    None => return Err(PoolError::ArithmeticError),
                };
                (claim, amount_x, amount_x_in_y)
            }
        };
        let new_x = match dec_checked_add(self.active_x, used_x) {
            Some(v) => v,
            None => return Err(PoolError::ArithmeticError),
        };
        let new_y = match dec_checked_add(self.active_y, used_y) {
            Some(v) => v,
            None => return Err(PoolError::ArithmeticError),
        };
        let new_total = match dec_checked_add(self.active_total_claim, claim) {
            Some(v) => v,
            None => return Err(PoolError::ArithmeticError),
        };
        self.active_x = new_x;
        self.active_y = new_y;
        self.active_total_claim = new_total;
        proof {
            assert(self.tick_index == old(self).tick_index);
            assert(self.bin_map@ == old(self).bin_map@);
            assert(self.ticks() == old(self).ticks());
            assert(self.current_tick() == old(self).current_tick());
        }
        Ok((claim, used_x, used_y))
    }

    /// Withdraw `claim` from the active bin; returns the tokens x and y paid out. The whole
    /// claim empties the bin, drops its tick and makes the replacement tick's bin active.
    fn remove_active_liquidity(&mut self, current_tick: Tick, claim: Decimal) -> (r: Result<(Decimal, Decimal), PoolError>)
        requires
            old(self).wf(),
            old(self).current_tick() == Some(current_tick) || old(self).current_tick() is None,
        ensures
            final(self).wf(),
            final(self).span() == old(self).span(),
            active_withdraw_effect(*old(self), *final(self), current_tick, claim, r),
    {
        if claim == self.active_total_claim {
            let amount_x_claim = self.active_x;
            let amount_y_claim = self.active_y;
            proof {
                self.tick_index.lemma_wf();
            }
            if self.tick_index.current().is_some() {
                self.tick_index.remove(current_tick);
            } else {
                proof {
                    assert(self.ticks() =~= old(self).ticks().remove(current_tick.0));
                }
            }
            self.bin_map.insert(current_tick.0, Bin { amount: Decimal::zero(), total_claim: Decimal::zero() });
            proof {
                Decimal::lemma_spec_zero();
                self.tick_index.lemma_wf();
            }
            let next_tick = self.tick_index.current();
            match next_tick {
                Some(next_tick) => {
                    proof {
                        assert(old(self).ticks().contains(next_tick.0));
                        assert(next_tick.0 != current_tick.0);
                        assert(old(self).bin_map@.contains_key(next_tick.0));
                        lemma_valid_tick_upper(next_tick.0, self.bin_span);
                    }
                    let bin = *self.bin_map.get(&next_tick.0).unwrap();
                    if next_tick.0 > current_tick.0 {
                        self.active_x = bin.amount;
                        self.active_y = Decimal::zero();
                    } else {
                        self.active_x = Decimal::zero();
                        self.active_y = bin.amount;
                    }
                    self.active_total_claim = bin.total_claim;
                    self.lower_limit = Decimal::from_tick(next_tick);
                    self.upper_limit = Decimal::from_tick(next_tick.tick_upper(self.bin_span));
                },
                None => {
                    self.active_x = Decimal::zero();
                    self.active_y = Decimal::zero();
                    self.active_total_claim = Decimal::zero();
                    self.lower_limit = Decimal::zero();
                    self.upper_limit = Decimal::zero();
                },
            }
            proof {
                assert forall|t: u32| #[trigger] self.ticks().contains(t) && self.current_tick() != Some(Tick(t))
                    implies self.bin_map@.contains_key(t) by {
                    assert(old(self).ticks().contains(t));
                }
                assert forall|t: u32| #[trigger] self.bin_map@.contains_key(t) && self.current_tick() != Some(
                    Tick(t),
                ) && (self.bin_map@[t].amount.attos() != 0 || self.bin_map@[t].total_claim.attos() != 0)
                    implies self.ticks().contains(t) by {
                    assert(t != current_tick.0);
                    assert(old(self).bin_map@.contains_key(t));
                    assert(old(self).ticks().contains(t));
                }
                assert forall|t: u32| #[trigger] self.ticks().contains(t) implies valid_tick(t, self.bin_span) by {
                    assert(old(self).ticks().contains(t));
                }
            }
            Ok((amount_x_claim, amount_y_claim))
        } else {
            let share = match dec_checked_div(claim, self.active_total_claim) {
                Some(v) => v,
                None => return Err(PoolError::ArithmeticError),
            };
            let amount_x_claim = match dec_checked_mul(self.active_x, share) {
                Some(v) => v,
                None => return Err(PoolError::ArithmeticError),
            };
            let amount_y_claim = match dec_checked_mul(self.active_y, share) {
                Some(v) => v,
                None => return Err(PoolError::ArithmeticError),
            };
            let new_x = match dec_checked_sub(self.active_x, amount_x_claim) {
                Some(v) => v,
                None => return Err(PoolError::ArithmeticError),
            };
            let new_y = match dec_checked_sub(self.active_y, amount_y_claim) {
                Some(v) => v,
                None => return Err(PoolError::ArithmeticError),
            };
            let new_total = match dec_checked_sub(self.active_total_claim, claim) {
                Some(v) => v,
                None => return Err(PoolError::ArithmeticError),
            };
            self.active_x = new_x;
            self.active_y = new_y;
            self.active_total_claim = new_total;
            proof {
                assert(self.tick_index == old(self).tick_index);
                assert(self.bin_map@ == old(self).bin_map@);
                assert(self.ticks() == old(self).ticks());
                assert(self.current_tick() == old(self).current_tick());
            }
            Ok((amount_x_claim, amount_y_claim))
        }
    }

    /// Offer one liquidity position `(tick, amount_x, amount_y)` to the pool and record its
    /// claim on the receipt. Returns `None` for a position that is passed over.
    pub fn add_position(&mut self, receipt: &mut LiquidityReceipt, tick: u32, amount_x: Decimal, amount_y: Decimal) -> (r: Result<Option<PositionOutcome>, PoolError>)
        requires
            old(self).wf(),
            old(receipt).wf(),
        ensures
            final(receipt).wf(),
            position_step(*old(self), *old(receipt), *final(self), *final(receipt), tick, amount_x, amount_y, r),
    {
        let t = Tick(tick);
        if !t.is_valid(self.bin_span) {
            return Err(PoolError::InvalidTick);
        }
        let zero = Decimal::zero();
        if amount_x.lt(&zero) || amount_y.lt(&zero) {
            return Err(PoolError::NegativeAmount);
        }
        let current = self.tick_index.current();
        let out = match current {
            None => {
                if amount_x.is_zero() && amount_y.is_zero() {
                    return Ok(None);
                }
                let claim = self.add_initial_liquidity(t, amount_x, amount_y);
                proof {
                    assert(claim == (if amount_x.attos() >= amount_y.attos() { amount_x } else { amount_y })) by {
                        if amount_x.attos() >= amount_y.attos() {
                            claim.lemma_attos_injective(amount_x);
                        } else {
                            claim.lemma_attos_injective(amount_y);
                        }
                    }
                }
                PositionOutcome { claim, added_x: Some(amount_x), added_y: Some(amount_y) }
            },
            Some(c) => {
                if tick > c.0 && zero.lt(&amount_x) {
                    let claim = match self.add_liquidity_to_bin(t, amount_x) {
                        Ok(claim) => claim,
                        Err(e) => return Err(e),
                    };
                    PositionOutcome { claim, added_x: Some(amount_x), added_y: None }
                } else if tick < c.0 && zero.lt(&amount_y) {
                    let claim = match self.add_liquidity_to_bin(t, amount_y) {
                        Ok(claim) => claim,
                        Err(e) => return Err(e),
                    };
                    PositionOutcome { claim, added_x: None, added_y: Some(amount_y) }
                } else if tick == c.0 && zero.lt(&amount_x) && zero.lt(&amount_y) {
                    let (claim, change_x, change_y) = match self.add_active_liquidity(amount_x, amount_y) {
                        Ok(v) => v,
                        Err(e) => return Err(e),
                    };
                    PositionOutcome { claim, added_x: Some(change_x), added_y: Some(change_y) }
                } else {
                    return Ok(None);
                }
            },
        };
        match receipt.add_claim(tick, out.claim) {
            Ok(()) => Ok(Some(out)),
            Err(e) => Err(e),
        }
    }

    /// Add liquidity at the given positions `(tick, amount_x, amount_y)`, in order, recording
    /// the claims on the receipt, which may then hold at most 200 claims.
    pub fn add_liquidity_to_receipt(&mut self, receipt: &mut LiquidityReceipt, positions: &Vec<(u32, Decimal, Decimal)>) -> (r: Result<AddLiquidityOutcome, PoolError>)
        requires
            old(self).wf(),
            old(receipt).wf(),
        ensures
            final(receipt).wf(),
            final(self).wf(),
            final(self).span() == old(self).span(),
            addition_outcome(*old(self), *old(receipt), positions@, *final(self), *final(receipt), r),
    {
        let n = positions.len();
        let mut amount_x_used = Decimal::zero();
        let mut amount_y_used = Decimal::zero();
        let mut added_x: Vec<(u32, Decimal)> = Vec::new();
        let mut added_y: Vec<(u32, Decimal)> = Vec::new();
        let ghost mut pools: Seq<QuantaSwap> = seq![*self];
        let ghost mut receipts: Seq<LiquidityReceipt> = seq![*receipt];
        let ghost mut outs: Seq<Option<PositionOutcome>> = Seq::empty();
        let mut i: usize = 0;
        while i < n
            invariant
                n == positions@.len(),
                0 <= i <= n,
                self.wf(),
                receipt.wf(),
                self.span() == old(self).span(),
                positions_applied(pools, receipts, outs, positions@, i as int),
                pools[0] == *old(self),
                receipts[0] == *old(receipt),
                pools.last() == *self,
                receipts.last() == *receipt,
                added_x@ == added_x_seq(positions@, outs),
                added_y@ == added_y_seq(positions@, outs),
                checked_sum(added_x@) == Some(amount_x_used.attos()),
                checked_sum(added_y@) == Some(amount_y_used.attos()),
            decreases n - i,
        {
            let (tick, amount_x, amount_y) = positions[i];
            let ghost pre = *self;
            let ghost pre_r = *receipt;
            let res = self.add_position(receipt, tick, amount_x, amount_y);
            let out = match res {
                Err(e) => {
                    proof {
                        assert(positions_applied(pools, receipts, outs, positions@, i as int));
                    }
                    return Err(e);
                },
                Ok(out) => out,
            };
            let ghost outs2 = outs.push(out);
            let ghost prev_x = added_x@;
            let ghost prev_y = added_y@;
            let ghost pools2 = pools.push(*self);
            let ghost receipts2 = receipts.push(*receipt);
            proof {
                assert(outs2.drop_last() == outs);
                assert forall|j: int| 0 <= j < i + 1 implies #[trigger] position_step(pools2[j], receipts2[j], pools2[j + 1],
                    receipts2[j + 1], positions@[j].0, positions@[j].1, positions@[j].2, Ok(outs2[j])) by {
                    if j < i {
                        assert(position_step(pools[j], receipts[j], pools[j + 1],
                            receipts[j + 1], positions@[j].0, positions@[j].1, positions@[j].2, Ok(outs[j])));
                    }
                }
                assert(positions_applied(pools2, receipts2, outs2, positions@, i + 1));
            }
            match out {
                Some(o) => {
                    match o.added_x {
                        Some(a) => {
                            match dec_checked_add(amount_x_used, a) {
                                Some(v) => {
                                    amount_x_used = v;
                                },
                                None => {
                                    proof {
                                        assert(added_x_seq(positions@, outs2) == prev_x.push((tick, a)));
                                        assert(prev_x.push((tick, a)).drop_last() == prev_x);
                                    }
                                    return Err(PoolError::ArithmeticError);
                                },
                            }
                            added_x.push((tick, a));
                            proof {
                                assert(added_x@.drop_last() == prev_x);
                            }
                        },
                        None => {},
                    }
                    match o.added_y {
                        Some(a) => {
                            match dec_checked_add(amount_y_used, a) {
                                Some(v) => {
                                    amount_y_used = v;
                                },
                                None => {
                                    proof {
                                        assert(added_y_seq(positions@, outs2) == prev_y.push((tick, a)));
                                        assert(prev_y.push((tick, a)).drop_last() == prev_y);
                                    }
                                    return Err(PoolError::ArithmeticError);
                                },
                            }
                            added_y.push((tick, a));
                            proof {
                                assert(added_y@.drop_last() == prev_y);
                            }
                        },
                        None => {},
                    }
                },
                None => {},
            }
            proof {
                pools = pools2;
                receipts = receipts2;
                outs = outs2;
            }
            i = i + 1;
        }
        if receipt.len() > 200 {
            proof {
                assert(positions_applied(pools, receipts, outs, positions@, n as int));
            }
            return Err(PoolError::TooManyClaims);
        }
        proof {
            assert(positions_applied(pools, receipts, outs, positions@, n as int));
        }
        Ok(AddLiquidityOutcome { amount_x_used, amount_y_used, added_x, added_y })
    }

    /// Remove `claim` at `tick` from the receipt and pay it out from the pool, the active tick
    /// being `current_tick` (the last active tick when the pool has become empty).
    pub fn remove_claim(&mut self, receipt: &mut LiquidityReceipt, current_tick: Tick, tick: u32, claim: Decimal) -> (r: (Result<ClaimOutcome, PoolError>, Tick))
        requires
            old(self).wf(),
            old(receipt).wf(),
            old(self).current_tick() == Some(current_tick) || old(self).current_tick() is None,
        ensures
            final(receipt).wf(),
            claim_step(*old(self), *old(receipt), current_tick, *final(self), *final(receipt), r.1, tick, claim, r.0),
            final(self).current_tick() == Some(r.1) || final(self).current_tick() is None,
    {
        let used = match receipt.take_claim(tick, claim) {
            Ok(u) => u,
            Err(e) => return (Err(e), current_tick),
        };
        let t = Tick(tick);
        if tick > current_tick.0 {
            match self.remove_liquidity_from_bin(t, used) {
                Ok(paid) => (Ok(ClaimOutcome { paid_x: Some(paid), paid_y: None }), current_tick),
                Err(e) => (Err(e), current_tick),
            }
        } else if tick < current_tick.0 {
            match self.remove_liquidity_from_bin(t, used) {
                Ok(paid) => (Ok(ClaimOutcome { paid_x: None, paid_y: Some(paid) }), current_tick),
                Err(e) => (Err(e), current_tick),
            }
        } else {
            let res = self.remove_active_liquidity(current_tick, used);
            let next = match self.tick_index.current() {
                Some(n) => n,
                None => current_tick,
            };
            match res {
                Ok((px, py)) => (Ok(ClaimOutcome { paid_x: Some(px), paid_y: Some(py) }), next),
                Err(e) => (Err(e), next),
            }
        }
    }

    /// Remove the given claims `(tick, claim)` from the receipt, in order, paying each out
    /// from the pool. A pool without liquidity pays nothing and leaves everything as it is,
    /// but still refuses a claim that is not positive or that the receipt does not hold.
    pub fn remove_specific_liquidity(&mut self, receipt: &mut LiquidityReceipt, claims: &Vec<(u32, Decimal)>) -> (r: Result<RemoveLiquidityOutcome, PoolError>)
        requires
            old(self).wf(),
            old(receipt).wf(),
        ensures
            final(self).wf(),
            final(receipt).wf(),
            final(self).span() == old(self).span(),
            removal_outcome(*old(self), *old(receipt), claims@, *final(self), *final(receipt), r),
    {
        let mut amount_x = Decimal::zero();
        let mut amount_y = Decimal::zero();
        let mut removed_x: Vec<(u32, Decimal)> = Vec::new();
        let mut removed_y: Vec<(u32, Decimal)> = Vec::new();
        let mut current_tick = match self.tick_index.current() {
            Some(t) => t,
            None => {
                let mut j: usize = 0;
                while j < claims.len()
                    invariant
                        0 <= j <= claims@.len(),
                        *self == *old(self),
                        *receipt == *old(receipt),
                        old(self).wf(),
                        old(receipt).wf(),
                        old(self).current_tick() is None,
                        forall|i: int| 0 <= i < j ==> #[trigger] claim_refused(receipt.claims(), claims@[i].0,
                            claims@[i].1) is None,
                    decreases claims@.len() - j,
                {
                    let (tick, claim) = claims[j];
                    let refusal = if !Decimal::zero().lt(&claim) {
                        Some(PoolError::ClaimNotPositive)
                    } else if receipt.get(tick).is_none() {
                        Some(PoolError::ClaimNotFound)
                    } else {
                        None
                    };
                    proof {
                        Decimal::lemma_spec_zero();
                        assert(refusal == claim_refused(receipt.claims(), claims@[j as int].0, claims@[j as int].1));
                    }
                    if let Some(e) = refusal {
                        return Err(e);
                    }
                    j = j + 1;
                }
                proof {
                    Decimal::lemma_spec_zero();
                }
                return Ok(RemoveLiquidityOutcome { amount_x, amount_y, removed_x, removed_y });
            },
        };
        let n = claims.len();
        let ghost c0 = current_tick;
        let ghost mut pools: Seq<QuantaSwap> = seq![*self];
        let ghost mut receipts: Seq<LiquidityReceipt> = seq![*receipt];
        let ghost mut curs: Seq<Tick> = seq![current_tick];
        let ghost mut outs: Seq<ClaimOutcome> = Seq::empty();
        let mut i: usize = 0;
        while i < n
            invariant
                n == claims@.len(),
                0 <= i <= n,
                self.wf(),
                receipt.wf(),
                self.span() == old(self).span(),
                old(self).current_tick() == Some(c0),
                self.current_tick() == Some(current_tick) || self.current_tick() is None,
                claims_applied(pools, receipts, curs, outs, claims@, i as int),
                pools[0] == *old(self),
                receipts[0] == *old(receipt),
                curs[0] == c0,
                pools.last() == *self,
                receipts.last() == *receipt,
                curs.last() == current_tick,
                paid_ok(claims@, outs),
                checked_sum(paid_x_seq(claims@, outs)) == Some(amount_x.attos()),
                checked_sum(paid_y_seq(claims@, outs)) == Some(amount_y.attos()),
                negated(paid_x_seq(claims@, outs), removed_x@),
                negated(paid_y_seq(claims@, outs), removed_y@),
            decreases n - i,
        {
            let (tick, claim) = claims[i];
            let (res, next) = self.remove_claim(receipt, current_tick, tick, claim);
            let out = match res {
                Err(e) => {
                    proof {
                        assert(claims_applied(pools, receipts, curs, outs, claims@, i as int));
                        assert(claim_fails(pools[i as int], receipts[i as int], curs[i as int], *self, *receipt,
                            claims@[i as int].0, claims@[i as int].1, e));
                    }
                    return Err(e);
                },
                Ok(out) => out,
            };
            let ghost outs2 = outs.push(out);
            let ghost prev_x = paid_x_seq(claims@, outs);
            let ghost prev_y = paid_y_seq(claims@, outs);
            let ghost pools2 = pools.push(*self);
            let ghost receipts2 = receipts.push(*receipt);
            let ghost curs2 = curs.push(next);
            proof {
                assert(outs2.drop_last() == outs);
                assert forall|j: int| 0 <= j < i + 1 implies #[trigger] claim_step(pools2[j], receipts2[j], curs2[j],
                    pools2[j + 1], receipts2[j + 1], curs2[j + 1], claims@[j].0, claims@[j].1, Ok(outs2[j])) by {
                    if j < i {
                        assert(claim_step(pools[j], receipts[j], curs[j], pools[j + 1], receipts[j + 1], curs[j + 1],
                            claims@[j].0, claims@[j].1, Ok(outs[j])));
                    }
                }
                assert(claims_applied(pools2, receipts2, curs2, outs2, claims@, i + 1));
            }
            proof {
                assert(paid_x_seq(claims@, outs2) == paid_next(prev_x, tick, out.paid_x));
                assert(paid_y_seq(claims@, outs2) == paid_next(prev_y, tick, out.paid_y));
            }
            if !record_payment(&mut amount_x, &mut removed_x, tick, out.paid_x, Ghost(prev_x)) {
                proof {
                    assert(paid_ok(claims@, outs2.drop_last()));
                }
                return Err(PoolError::ArithmeticError);
            }
            if !record_payment(&mut amount_y, &mut removed_y, tick, out.paid_y, Ghost(prev_y)) {
                proof {
                    assert(paid_ok(claims@, outs2.drop_last()));
                }
                return Err(PoolError::ArithmeticError);
            }
            current_tick = next;
            proof {
                pools = pools2;
                receipts = receipts2;
                curs = curs2;
                outs = outs2;
            }
            i = i + 1;
        }
        Ok(RemoveLiquidityOutcome { amount_x, amount_y, removed_x, removed_y })
    }

    /// A new liquidity receipt, without claims.
    pub fn mint_liquidity_receipt(&self) -> (r: LiquidityReceipt)
        ensures
            r.wf(),
            r.claims() == Map::<u32, Decimal>::empty(),
    {
        LiquidityReceipt::new()
    }

    /// Burn a liquidity receipt; one that still holds claims is refused.
    pub fn burn_liquidity_receipt(&self, receipt: LiquidityReceipt) -> (r: Result<(), PoolError>)
        ensures
            r is Ok <==> receipt.claims().len() == 0,
            r is Err ==> r == Err::<(), PoolError>(PoolError::ClaimsRemain),
    {
        if receipt.len() == 0 {
            Ok(())
        } else {
            Err(PoolError::ClaimsRemain)
        }
    }

    /// Remove all claims of the receipt, in the order in which the receipt lists them, and
    /// burn it.
    pub fn remove_liquidity(&mut self, receipt: LiquidityReceipt) -> (r: Result<RemoveLiquidityOutcome, PoolError>)
        requires
            old(self).wf(),
            receipt.wf(),
        ensures
            final(self).wf(),
            final(self).span() == old(self).span(),
            exists|l: Seq<(u32, Decimal)>, post_r: LiquidityReceipt, inner: Result<RemoveLiquidityOutcome, PoolError>|
                #![trigger removal_outcome(*old(self), receipt, l, *final(self), post_r, inner)]
                {
                &&& lists_claims(receipt.claims(), l)
                &&& removal_outcome(*old(self), receipt, l, *final(self), post_r, inner)
                &&& (old(self).current_tick() is Some && inner is Ok ==> post_r.claims().len() == 0)
                &&& match inner {
                    Ok(_) => if post_r.claims().len() == 0 {
                        r == inner
                    } else {
                        r == Err::<RemoveLiquidityOutcome, PoolError>(PoolError::ClaimsRemain)
                    },
                    Err(e) => r == Err::<RemoveLiquidityOutcome, PoolError>(e),
                }
            },
    {
        let claims = receipt.liquidity_claims();
        let ghost r0 = receipt;
        let mut receipt = receipt;
        let inner = self.remove_specific_liquidity(&mut receipt, &claims);
        let ghost post_r = receipt;
        let ghost l = claims@;
        let r = match inner {
            Ok(o) => match self.burn_liquidity_receipt(receipt) {
                Ok(()) => Ok(o),
                Err(e) => Err(e),
            },
            Err(e) => Err(e),
        };
        proof {
            assert(removal_outcome(*old(self), r0, l, *self, post_r, inner));
            if old(self).current_tick() is Some && inner is Ok {
                let (pools, receipts, curs, outs) = choose|pools: Seq<QuantaSwap>, receipts: Seq<LiquidityReceipt>,
                    curs: Seq<Tick>, outs: Seq<ClaimOutcome>| {
                    &&& claims_applied(pools, receipts, curs, outs, l, l.len() as int)
                    &&& receipts[0] == r0
                    &&& receipts.last() == post_r
                };
                lemma_receipt_emptied(r0.claims(), l, pools, receipts, curs, outs);
            }
        }
        r
    }

    /// The bins from the active bin upward with their tokens x, in ascending tick order:
    /// from the active tick when `start_tick` is `None` or below it, otherwise from above
    /// `start_tick`; up to `stop_tick` (the largest tick by default) and at most `number`
    /// bins. Empty without an active tick.
    pub fn get_bins_above(&self, start_tick: Option<u32>, stop_tick: Option<u32>, number: Option<u32>) -> (r: Vec<(u32, Decimal)>)
        requires
            self.wf(),
        ensures
            match self.current_tick() {
                None => r@.len() == 0,
                Some(c) => {
                    let lo: int = match start_tick {
                        Some(t) => if t < c.0 { c.0 as int } else { t + 1 },
                        None => c.0 as int,
                    };
                    let hi: int = match stop_tick {
                        Some(t) => t as int,
                        None => TICK_MAX_VALUE as int,
                    };
                    let n: int = match number {
                        Some(k) => k as int,
                        None => u32::MAX as int,
                    };
                    bins_listed(*self, lo, hi, n, true, r@)
                },
            },
    {
        let mut bins: Vec<(u32, Decimal)> = Vec::new();
        let current = match self.tick_index.current() {
            Some(c) => c,
            None => return bins,
        };
        proof {
            self.tick_index.lemma_wf();
        }
        let stop: u32 = match stop_tick {
            Some(t) => t,
            None => TICK_MAX_VALUE,
        };
        let limit: u32 = match number {
            Some(k) => k,
            None => u32::MAX,
        };
        let ghost lo: int = match start_tick {
            Some(t) => if t < current.0 { current.0 as int } else { t + 1 },
            None => current.0 as int,
        };
        let mut next: Option<Tick> = match start_tick {
            Some(t) => if t < current.0 {
                Some(current)
            } else if t < TickIndex::KEY_FLAG {
                self.tick_index.next_up(Tick(t))
            } else {
                None
            },
            None => Some(current),
        };
        let mut count: u32 = 0;
        loop
            invariant
                self.wf(),
                self.current_tick() == Some(current),
                forall|t: u32| #[trigger] self.ticks().contains(t) ==> valid_tick(t, self.span()),
                count == bins@.len(),
                count <= limit,
                lo == (match start_tick {
                    Some(t) => if t < current.0 { current.0 as int } else { t + 1 },
                    None => current.0 as int,
                }),
                stop == (match stop_tick {
                    Some(t) => t,
                    None => TICK_MAX_VALUE,
                }),
                limit == (match number {
                    Some(k) => k,
                    None => u32::MAX,
                }),
                bins@.len() > 0 ==> bins@.len() <= bins@.last().0 + 1,
                forall|i: int| 0 <= i < bins@.len() ==> self.ticks().contains((#[trigger] bins@[i]).0)
                    && lo <= bins@[i].0 <= stop && bins@[i].1 == shown_amount(*self, bins@[i].0, true),
                forall|i: int, j: int| 0 <= i < j < bins@.len() ==> bins@[i].0 < bins@[j].0,
                match next {
                    Some(n) => self.ticks().contains(n.0) && lo <= n.0 && (bins@.len() > 0 ==> bins@.last().0 < n.0)
                        && forall|u: u32| #[trigger] self.ticks().contains(u) && lo <= u < n.0 ==> listed(bins@, u),
                    None => forall|u: u32| #[trigger] self.ticks().contains(u) && lo <= u ==> listed(bins@, u),
                },
            decreases 54001 - bins@.len(),
        {
            let tick = match next {
                Some(t) => t,
                None => return bins,
            };
            proof {
                assert(valid_tick(tick.0, self.span()));
            }
            if tick.0 > stop || count >= limit {
                return bins;
            }
            count = count + 1;
            let amount = if tick.0 == current.0 {
                self.active_x
            } else {
                proof {
                    assert(self.bin_map@.contains_key(tick.0));
                }
                self.bin_map.get(&tick.0).unwrap().amount
            };
            let ghost prev = bins@;
            bins.push((tick.0, amount));
            proof {
                lemma_listed_push(prev, (tick.0, amount));
                assert(bins@ == prev.push((tick.0, amount)));
                assert forall|i: int, j: int| 0 <= i < j < bins@.len() implies bins@[i].0 < bins@[j].0 by {
                    if j < prev.len() {
                        assert(bins@[i] == prev[i] && bins@[j] == prev[j]);
                    } else if i < prev.len() {
                        assert(bins@[i] == prev[i]);
                        assert(prev[i].0 <= prev.last().0);
                    }
                }
                assert forall|i: int| 0 <= i < bins@.len() implies self.ticks().contains((#[trigger] bins@[i]).0)
                    && lo <= bins@[i].0 <= stop && bins@[i].1 == shown_amount(*self, bins@[i].0, true) by {
                    if i < prev.len() {
                        assert(bins@[i] == prev[i]);
                    }
                }
            }
            next = self.tick_index.next_up(tick);
        }
    }

    /// The bins from the active bin downward with their tokens y, in descending tick order:
    /// from the active tick when `start_tick` is `None` or above it, otherwise from below
    /// `start_tick`; down to `stop_tick` (the smallest tick by default) and at most `number`
    /// bins. Empty without an active tick.
    pub fn get_bins_below(&self, start_tick: Option<u32>, stop_tick: Option<u32>, number: Option<u32>) -> (r: Vec<(u32, Decimal)>)
        requires
            self.wf(),
        ensures
            match self.current_tick() {
                None => r@.len() == 0,
                Some(c) => {
                    let hi: int = match start_tick {
                        Some(t) => if t > c.0 { c.0 as int } else { t - 1 },
                        None => c.0 as int,
                    };
                    let lo: int = match stop_tick {
                        Some(t) => t as int,
                        None => 0,
                    };
                    let n: int = match number {
                        Some(k) => k as int,
                        None => u32::MAX as int,
                    };
                    bins_listed(*self, lo, hi, n, false, r@)
                },
            },
    {
        let mut bins: Vec<(u32, Decimal)> = Vec::new();
        let current = match self.tick_index.current() {
            Some(c) => c,
            None => return bins,
        };
        proof {
            self.tick_index.lemma_wf();
        }
        let stop: u32 = match stop_tick {
            Some(t) => t,
            None => 0,
        };
        let limit: u32 = match number {
            Some(k) => k,
            None => u32::MAX,
        };
        let ghost hi: int = match start_tick {
            Some(t) => if t > current.0 { current.0 as int } else { t - 1 },
            None => current.0 as int,
        };
        let mut next: Option<Tick> = match start_tick {
            Some(t) => if t > current.0 {
                Some(current)
            } else {
                self.tick_index.next_down(Tick(t))
            },
            None => Some(current),
        };
        let mut count: u32 = 0;
        loop
            invariant
                self.wf(),
                self.current_tick() == Some(current),
                forall|t: u32| #[trigger] self.ticks().contains(t) ==> valid_tick(t, self.span()),
                count == bins@.len(),
                count <= limit,
                hi == (match start_tick {
                    Some(t) => if t > current.0 { current.0 as int } else { t - 1 },
                    None => current.0 as int,
                }),
                stop == (match stop_tick {
                    Some(t) => t,
                    None => 0,
                }),
                limit == (match number {
                    Some(k) => k,
                    None => u32::MAX,
                }),
                bins@.len() > 0 ==> bins@.len() + bins@.last().0 <= 54001,
                forall|i: int| 0 <= i < bins@.len() ==> self.ticks().contains((#[trigger] bins@[i]).0)
                    && stop <= bins@[i].0 <= hi && bins@[i].1 == shown_amount(*self, bins@[i].0, false),
                forall|i: int, j: int| 0 <= i < j < bins@.len() ==> bins@[i].0 > bins@[j].0,
                match next {
                    Some(n) => self.ticks().contains(n.0) && n.0 <= hi && (bins@.len() > 0 ==> n.0 < bins@.last().0)
                        && forall|u: u32| #[trigger] self.ticks().contains(u) && n.0 < u <= hi ==> listed(bins@, u),
                    None => forall|u: u32| #[trigger] self.ticks().contains(u) && u <= hi ==> listed(bins@, u),
                },
            decreases 54001 - bins@.len(),
        {
            let tick = match next {
                Some(t) => t,
                None => return bins,
            };
            proof {
                assert(valid_tick(tick.0, self.span()));
            }
            if tick.0 < stop || count >= limit {
                return bins;
            }
            count = count + 1;
            let amount = if tick.0 == current.0 {
                self.active_y
            } else {
                proof {
                    assert(self.bin_map@.contains_key(tick.0));
                }
                self.bin_map.get(&tick.0).unwrap().amount
            };
            let ghost prev = bins@;
            bins.push((tick.0, amount));
            proof {
                lemma_listed_push(prev, (tick.0, amount));
                assert(bins@ == prev.push((tick.0, amount)));
                assert forall|i: int, j: int| 0 <= i < j < bins@.len() implies bins@[i].0 > bins@[j].0 by {
                    if j < prev.len() {
                        assert(bins@[i] == prev[i] && bins@[j] == prev[j]);
                    } else if i < prev.len() {
                        assert(bins@[i] == prev[i]);
                        assert(prev[i].0 >= prev.last().0);
                    }
                }
                assert forall|i: int| 0 <= i < bins@.len() implies self.ticks().contains((#[trigger] bins@[i]).0)
                    && stop <= bins@[i].0 <= hi && bins@[i].1 == shown_amount(*self, bins@[i].0, false) by {
                    if i < prev.len() {
                        assert(bins@[i] == prev[i]);
                    }
                }
            }
            next = self.tick_index.next_down(tick);
        }
    }

    /// Tokens x and y that `claim` on the bin at `tick` is worth, the active tick being `c`.
    fn claim_value(&self, c: Tick, tick: u32, claim: Decimal) -> (r: Result<(Decimal, Decimal), PoolError>)
        requires
            self.wf(),
        ensures
            match claim_value(*self, c.0, tick, claim.attos()) {
                Ok((x, y)) => r matches Ok((a, b)) && a.attos() == x && b.attos() == y,
                Err(e) => r == Err::<(Decimal, Decimal), PoolError>(e),
            },
    {
        if tick != c.0 {
            let bin = match self.bin_map.get(&tick) {
                Some(b) => *b,
                None => return Err(PoolError::BinNotFound),
            };
            let q = match dec_checked_div(claim, bin.total_claim) {
                Some(q) => q,
                None => return Err(PoolError::ArithmeticError),
            };
            let v = match dec_checked_mul(q, bin.amount) {
                Some(v) => v,
                None => return Err(PoolError::ArithmeticError),
            };
            proof {
                Decimal::lemma_spec_zero();
            }
            if tick < c.0 {
                Ok((Decimal::zero(), v))
            } else {
                Ok((v, Decimal::zero()))
            }
        } else {
            let share = match dec_checked_div(claim, self.active_total_claim) {
                Some(s) => s,
                None => return Err(PoolError::ArithmeticError),
            };
            let x = match dec_checked_mul(self.active_x, share) {
                Some(v) => v,
                None => return Err(PoolError::ArithmeticError),
            };
            let y = match dec_checked_mul(self.active_y, share) {
                Some(v) => v,
                None => return Err(PoolError::ArithmeticError),
            };
            Ok((x, y))
        }
    }

    /// Tokens x and y that the claims of the receipt are worth, summed in the order in which
    /// the receipt lists them. Zero without an active tick.
    pub fn get_redemption_value(&self, receipt: &LiquidityReceipt) -> (r: Result<(Decimal, Decimal), PoolError>)
        requires
            self.wf(),
            receipt.wf(),
        ensures
            match self.current_tick() {
                None => r matches Ok((a, b)) && a.attos() == 0 && b.attos() == 0,
                Some(c) => exists|l: Seq<(u32, Decimal)>| #[trigger] lists_claims(receipt.claims(), l)
                    && match redemption_total(*self, c.0, l) {
                    Ok((x, y)) => r matches Ok((a, b)) && a.attos() == x && b.attos() == y,
                    Err(e) => r == Err::<(Decimal, Decimal), PoolError>(e),
                },
            },
    {
        let mut amount_x = Decimal::zero();
        let mut amount_y = Decimal::zero();
        proof {
            Decimal::lemma_spec_zero();
        }
        let current = match self.tick_index.current() {
            Some(c) => c,
            None => return Ok((amount_x, amount_y)),
        };
        let claims = receipt.liquidity_claims();
        let mut i: usize = 0;
        while i < claims.len()
            invariant
                self.wf(),
                self.current_tick() == Some(current),
                lists_claims(receipt.claims(), claims@),
                0 <= i <= claims@.len(),
                redemption_total(*self, current.0, claims@.take(i as int)) == Ok::<(int, int), PoolError>(
                    (amount_x.attos(), amount_y.attos())),
            decreases claims@.len() - i,
        {
            let (tick, claim) = claims[i];
            proof {
                assert(claims@.take(i + 1).drop_last() == claims@.take(i as int));
                assert(claims@.take(i + 1).last() == claims@[i as int]);
            }
            let (vx, vy) = match self.claim_value(current, tick, claim) {
                Ok(v) => v,
                Err(e) => {
                    proof {
                        lemma_total_error(*self, current.0, claims@, i + 1);
                    }
                    return Err(e);
                },
            };
            let sx = dec_checked_add(amount_x, vx);
            let sy = dec_checked_add(amount_y, vy);
            match (sx, sy) {
                (Some(a), Some(b)) => {
                    amount_x = a;
                    amount_y = b;
                },
                _ => {
                    proof {
                        lemma_total_error(*self, current.0, claims@, i + 1);
                    }
                    return Err(PoolError::ArithmeticError);
                },
            }
            i = i + 1;
        }
        proof {
            assert(claims@.take(claims@.len() as int) == claims@);
        }
        Ok((amount_x, amount_y))
    }

    /// Tokens x and y that each claim of the receipt is worth, as `(tick, amount_x,
    /// amount_y)` in ascending tick order. Empty without an active tick.
    pub fn get_redemption_bin_values(&self, receipt: &LiquidityReceipt) -> (r: Result<Vec<(u32, Decimal, Decimal)>, PoolError>)
        requires
            self.wf(),
            receipt.wf(),
        ensures
            match self.current_tick() {
                None => r matches Ok(v) && v@.len() == 0,
                Some(c) => {
                    &&& r is Ok <==> forall|t: u32| #[trigger] receipt.claims().contains_key(t)
                        ==> claim_value(*self, c.0, t, receipt.claims()[t].attos()) is Ok
                    &&& r matches Ok(v) ==> bin_values_listed(*self, c.0, receipt.claims(), v@)
                    &&& r matches Err(e) ==> exists|t: u32| #[trigger] receipt.claims().contains_key(t)
                        && claim_value(*self, c.0, t, receipt.claims()[t].attos()) == Err::<(int, int), PoolError>(e)
                },
            },
    {
        let mut out: Vec<(u32, Decimal, Decimal)> = Vec::new();
        let current = match self.tick_index.current() {
            Some(c) => c,
            None => return Ok(out),
        };
        let claims = receipt.liquidity_claims();
        let mut i: usize = 0;
        while i < claims.len()
            invariant
                self.wf(),
                self.current_tick() == Some(current),
                lists_claims(receipt.claims(), claims@),
                0 <= i <= claims@.len(),
                out@.len() == i,
                forall|a: int, b: int| 0 <= a < b < out@.len() ==> out@[a].0 < out@[b].0,
                forall|a: int| 0 <= a < out@.len() ==> receipt.claims().contains_key(#[trigger] out@[a].0)
                    && claim_value(*self, current.0, out@[a].0, receipt.claims()[out@[a].0].attos())
                    == Ok::<(int, int), PoolError>((out@[a].1.attos(), out@[a].2.attos())),
                forall|a: int| 0 <= a < out@.len() ==> exists|k: int| 0 <= k < i && claims@[k].0 == (#[trigger] out@[a]).0,
                forall|k: int| #![trigger claims@[k]] 0 <= k < i ==> exists|a: int| 0 <= a < out@.len()
                    && (#[trigger] out@[a]).0 == claims@[k].0,
                forall|k: int| 0 <= k < i ==> claim_value(*self, current.0, (#[trigger] claims@[k]).0, claims@[k].1.attos()) is Ok,
            decreases claims@.len() - i,
        {
            let (tick, claim) = claims[i];
            let (vx, vy) = match self.claim_value(current, tick, claim) {
                Ok(v) => v,
                Err(e) => return Err(e),
            };
            let ghost prev = out@;
            proof {
                assert forall|a: int| 0 <= a < prev.len() implies prev[a].0 != tick by {
                    let k = choose|k: int| 0 <= k < i && claims@[k].0 == (#[trigger] prev[a]).0;
                    assert(claims@[k].0 != claims@[i as int].0);
                }
            }
            insert_sorted(&mut out, (tick, vx, vy));
            proof {
                assert forall|a: int| 0 <= a < out@.len() implies exists|k: int| 0 <= k < i + 1
                    && claims@[k].0 == (#[trigger] out@[a]).0 by {
                    if out@[a].0 == tick {
                        assert(claims@[i as int].0 == tick);
                    } else {
                        let b = choose|b: int| 0 <= b < prev.len() && prev[b] == out@[a];
                        let k = choose|k: int| 0 <= k < i && claims@[k].0 == (#[trigger] prev[b]).0;
                        assert(claims@[k].0 == out@[a].0);
                    }
                }
                assert forall|k: int| #![trigger claims@[k]] 0 <= k < i + 1 implies exists|a: int| 0 <= a < out@.len()
                    && (#[trigger] out@[a]).0 == claims@[k].0 by {
                    if k == i {
                        let a = choose|a: int| 0 <= a < out@.len() && out@[a] == (tick, vx, vy);
                        assert(out@[a].0 == claims@[k].0);
                    } else {
                        let b = choose|b: int| 0 <= b < prev.len() && (#[trigger] prev[b]).0 == claims@[k].0;
                        let a = choose|a: int| 0 <= a < out@.len() && out@[a] == prev[b];
                        assert(out@[a].0 == claims@[k].0);
                    }
                }
                assert forall|a: int| 0 <= a < out@.len() implies receipt.claims().contains_key(#[trigger] out@[a].0)
                    && claim_value(*self, current.0, out@[a].0, receipt.claims()[out@[a].0].attos())
                    == Ok::<(int, int), PoolError>((out@[a].1.attos(), out@[a].2.attos())) by {
                    if out@[a] != (tick, vx, vy) {
                        let b = choose|b: int| 0 <= b < prev.len() && prev[b] == out@[a];
                        assert(receipt.claims().contains_key(prev[b].0));
                    } else {
                        assert(receipt.claims().contains_key(claims@[i as int].0));
                    }
                }
            }
            i = i + 1;
        }
        proof {
            assert forall|t: u32| #[trigger] receipt.claims().contains_key(t) implies claim_value(*self, current.0, t,
                receipt.claims()[t].attos()) is Ok by {
                let k = choose|k: int| 0 <= k < claims@.len() && claims@[k].0 == t;
                assert(claims@[k].1 == receipt.claims()[t]);
            }
        }
        Ok(out)
    }

    /// Selling tokens x: when `amount_y_swap`, the tokens y that the remaining input buys at
    /// the active bin's virtual amounts, is below the bin's tokens y, the swap ends in this
    /// bin and the new progress is returned; otherwise the bin would be exhausted, nothing
    /// changes and `None` is returned.
    pub fn swap_x_within_bin(&mut self, progress: SwapProgress, amount_y_swap: Decimal, liquidity_fee: Decimal) -> (r: Result<Option<SwapProgress>, PoolError>)
        requires
            old(self).wf(),
            old(self).current_tick() is Some,
        ensures
            final(self).wf(),
            final(self).span() == old(self).span(),
            final(self).ticks() == old(self).ticks(),
            final(self).bins() == old(self).bins(),
            final(self).current_tick() == old(self).current_tick(),
            final(self).spec_active_total_claim() == old(self).spec_active_total_claim(),
            amount_y_swap.attos() >= old(self).spec_active_y().attos() ==> r == Ok::<Option<SwapProgress>, PoolError>(None)
                && *final(self) == *old(self),
            amount_y_swap.attos() < old(self).spec_active_y().attos() ==> match fill_effect(progress.amount_in.attos(),
                progress.amount_out.attos(), old(self).spec_active_x().attos(), old(self).spec_active_y().attos(),
                amount_y_swap.attos(), liquidity_fee.attos()) {
                Some((out, ax, ay)) => r matches Ok(Some(p)) && p.amount_in.attos() == 0 && p.amount_out.attos() == out
                    && final(self).spec_active_x().attos() == ax && final(self).spec_active_y().attos() == ay,
                None => r == Err::<Option<SwapProgress>, PoolError>(PoolError::ArithmeticError) && *final(self) == *old(self),
            },
    {
        if !amount_y_swap.lt(&self.active_y) {
            return Ok(None);
        }
        let d = match dec_checked_sub(Decimal::one(), liquidity_fee) {
            Some(d) => d,
            None => return Err(PoolError::ArithmeticError),
        };
        let with_fee = match dec_checked_div(progress.amount_in, d) {
            Some(v) => v,
            None => return Err(PoolError::ArithmeticError),
        };
        let out = match dec_checked_add(progress.amount_out, amount_y_swap) {
            Some(v) => v,
            None => return Err(PoolError::ArithmeticError),
        };
        let ax = match dec_checked_add(self.active_x, with_fee) {
            Some(v) => v,
            None => return Err(PoolError::ArithmeticError),
        };
        let ay = match dec_checked_sub(self.active_y, amount_y_swap) {
            Some(v) => v,
            None => return Err(PoolError::ArithmeticError),
        };
        self.active_x = ax;
        self.active_y = ay;
        proof {
            Decimal::lemma_spec_zero();
            assert(self.tick_index == old(self).tick_index);
            assert(self.bin_map@ == old(self).bin_map@);
            assert(self.ticks() == old(self).ticks());
            assert(self.current_tick() == old(self).current_tick());
        }
        Ok(Some(SwapProgress { amount_in: Decimal::zero(), amount_out: out }))
    }

    /// Selling tokens x past the active bin: `amount_x_swap`, the input that buys all the
    /// bin's tokens y, is rounded up from zero and sold; the bin keeps it with the fee added
    /// back. With a bin below, the active bin is stored and the next lower bin becomes active
    /// (`true` is returned: the swap goes on); without one, the swap ends in this bin.
    pub fn swap_x_cross_bin(&mut self, progress: SwapProgress, amount_x_swap: Decimal, liquidity_fee: Decimal) -> (r: Result<(SwapProgress, bool), PoolError>)
        requires
            old(self).wf(),
            old(self).current_tick() is Some,
        ensures
            final(self).wf(),
            final(self).span() == old(self).span(),
            final(self).ticks() == old(self).ticks(),
            match cross_effect(progress.amount_in.attos(), progress.amount_out.attos(), old(self).spec_active_x().attos(),
                old(self).spec_active_y().attos(), amount_x_swap.attos(), liquidity_fee.attos()) {
                None => r == Err::<(SwapProgress, bool), PoolError>(PoolError::ArithmeticError) && *final(self) == *old(self),
                Some((i, o, ax)) => {
                    let c = old(self).current_tick().unwrap();
                    &&& r matches Ok((p, more)) && p.amount_in.attos() == i && p.amount_out.attos() == o
                    &&& is_next_down(old(self).ticks(), c.0, if r.unwrap().1 { final(self).current_tick() } else { None })
                    &&& if r.unwrap().1 {
                        let n = final(self).current_tick().unwrap();
                        &&& final(self).bins().contains_key(c.0)
                        &&& final(self).bins()[c.0].amount.attos() == ax
                        &&& final(self).bins()[c.0].total_claim == old(self).spec_active_total_claim()
                        &&& final(self).bins().remove(c.0) == old(self).bins().remove(c.0)
                        &&& final(self).spec_active_x().attos() == 0
                        &&& final(self).spec_active_y() == old(self).bins()[n.0].amount
                        &&& final(self).spec_active_total_claim() == old(self).bins()[n.0].total_claim
                    } else {
                        &&& final(self).current_tick() == old(self).current_tick()
                        &&& final(self).bins() == old(self).bins()
                        &&& final(self).spec_active_x().attos() == ax
                        &&& final(self).spec_active_y().attos() == 0
                        &&& final(self).spec_active_total_claim() == old(self).spec_active_total_claim()
                    }
                },
            },
    {
        let (p, ax) = match cross_amounts(progress, self.active_x, self.active_y, amount_x_swap, liquidity_fee) {
            Ok(v) => v,
            Err(e) => return Err(e),
        };
        let more = self.retire_active_down(ax);
        Ok((p, more))
    }

    /// Selling tokens y: when `amount_x_swap`, the tokens x that the remaining input buys at
    /// the active bin's virtual amounts, is below the bin's tokens x, the swap ends in this
    /// bin and the new progress is returned; otherwise the bin would be exhausted, nothing
    /// changes and `None` is returned.
    pub fn swap_y_within_bin(&mut self, progress: SwapProgress, amount_x_swap: Decimal, liquidity_fee: Decimal) -> (r: Result<Option<SwapProgress>, PoolError>)
        requires
            old(self).wf(),
            old(self).current_tick() is Some,
        ensures
            final(self).wf(),
            final(self).span() == old(self).span(),
            final(self).ticks() == old(self).ticks(),
            final(self).bins() == old(self).bins(),
            final(self).current_tick() == old(self).current_tick(),
            final(self).spec_active_total_claim() == old(self).spec_active_total_claim(),
            amount_x_swap.attos() >= old(self).spec_active_x().attos() ==> r == Ok::<Option<SwapProgress>, PoolError>(None)
                && *final(self) == *old(self),
            amount_x_swap.attos() < old(self).spec_active_x().attos() ==> match fill_effect(progress.amount_in.attos(),
                progress.amount_out.attos(), old(self).spec_active_y().attos(), old(self).spec_active_x().attos(),
                amount_x_swap.attos(), liquidity_fee.attos()) {
                Some((out, ay, ax)) => r matches Ok(Some(p)) && p.amount_in.attos() == 0 && p.amount_out.attos() == out
                    && final(self).spec_active_x().attos() == ax && final(self).spec_active_y().attos() == ay,
                None => r == Err::<Option<SwapProgress>, PoolError>(PoolError::ArithmeticError) && *final(self) == *old(self),
            },
    {
        if !amount_x_swap.lt(&self.active_x) {
            return Ok(None);
        }
        let d = match dec_checked_sub(Decimal::one(), liquidity_fee) {
            Some(d) => d,
            None => return Err(PoolError::ArithmeticError),
        };
        let with_fee = match dec_checked_div(progress.amount_in, d) {
            Some(v) => v,
            None => return Err(PoolError::ArithmeticError),
        };
        let out = match dec_checked_add(progress.amount_out, amount_x_swap) {
            Some(v) => v,
            None => return Err(PoolError::ArithmeticError),
        };
        let ay = match dec_checked_add(self.active_y, with_fee) {
            Some(v) => v,
            None => return Err(PoolError::ArithmeticError),
        };
        let ax = match dec_checked_sub(self.active_x, amount_x_swap) {
            Some(v) => v,
            None => return Err(PoolError::ArithmeticError),
        };
        self.active_x = ax;
        self.active_y = ay;
        proof {
            Decimal::lemma_spec_zero();
            assert(self.tick_index == old(self).tick_index);
            assert(self.bin_map@ == old(self).bin_map@);
            assert(self.ticks() == old(self).ticks());
            assert(self.current_tick() == old(self).current_tick());
        }
        Ok(Some(SwapProgress { amount_in: Decimal::zero(), amount_out: out }))
    }

    /// Selling tokens y past the active bin: `amount_y_swap`, the input that buys all the
    /// bin's tokens x, is rounded up from zero and sold; the bin keeps it with the fee added
    /// back. With a bin above, the active bin is stored and the next higher bin becomes active
    /// (`true` is returned: the swap goes on); without one, the swap ends in this bin.
    pub fn swap_y_cross_bin(&mut self, progress: SwapProgress, amount_y_swap: Decimal, liquidity_fee: Decimal) -> (r: Result<(SwapProgress, bool), PoolError>)
        requires
            old(self).wf(),
            old(self).current_tick() is Some,
        ensures
            final(self).wf(),
            final(self).span() == old(self).span(),
            final(self).ticks() == old(self).ticks(),
            match cross_effect(progress.amount_in.attos(), progress.amount_out.attos(), old(self).spec_active_y().attos(),
                old(self).spec_active_x().attos(), amount_y_swap.attos(), liquidity_fee.attos()) {
                None => r == Err::<(SwapProgress, bool), PoolError>(PoolError::ArithmeticError) && *final(self) == *old(self),
                Some((i, o, ay)) => {
                    let c = old(self).current_tick().unwrap();
                    &&& r matches Ok((p, more)) && p.amount_in.attos() == i && p.amount_out.attos() == o
                    &&& is_next_up(old(self).ticks(), c.0, if r.unwrap().1 { final(self).current_tick() } else { None })
                    &&& if r.unwrap().1 {
                        let n = final(self).current_tick().unwrap();
                        &&& final(self).bins().contains_key(c.0)
                        &&& final(self).bins()[c.0].amount.attos() == ay
                        &&& final(self).bins()[c.0].total_claim == old(self).spec_active_total_claim()
                        &&& final(self).bins().remove(c.0) == old(self).bins().remove(c.0)
                        &&& final(self).spec_active_y().attos() == 0
                        &&& final(self).spec_active_x() == old(self).bins()[n.0].amount
                        &&& final(self).spec_active_total_claim() == old(self).bins()[n.0].total_claim
                    } else {
                        &&& final(self).current_tick() == old(self).current_tick()
                        &&& final(self).bins() == old(self).bins()
                        &&& final(self).spec_active_y().attos() == ay
                        &&& final(self).spec_active_x().attos() == 0
                        &&& final(self).spec_active_total_claim() == old(self).spec_active_total_claim()
                    }
                },
            },
    {
        let (p, ay) = match cross_amounts(progress, self.active_y, self.active_x, amount_y_swap, liquidity_fee) {
            Ok(v) => v,
            Err(e) => return Err(e),
        };
        let more = self.retire_active_up(ay);
        Ok((p, more))
    }

    /// The active bin is out of tokens y and keeps `kept` tokens x. The next bin below becomes
    /// active and the old one is stored (`true`); without one the active bin stays, holding
    /// only `kept` (`false`).
    fn retire_active_down(&mut self, kept: Decimal) -> (more: bool)
        requires
            old(self).wf(),
            old(self).current_tick() is Some,
        ensures
            final(self).wf(),
            final(self).span() == old(self).span(),
            final(self).ticks() == old(self).ticks(),
            ({
                let c = old(self).current_tick().unwrap();
                &&& is_next_down(old(self).ticks(), c.0, if more { final(self).current_tick() } else { None })
                &&& if more {
                    let n = final(self).current_tick().unwrap();
                    &&& final(self).bins() == old(self).bins().insert(c.0, Bin { amount: kept,
                        total_claim: old(self).spec_active_total_claim() })
                    &&& final(self).spec_active_total_claim() == old(self).bins()[n.0].total_claim
                    &&& final(self).spec_active_y() == old(self).bins()[n.0].amount
                    &&& final(self).spec_active_x().attos() == 0
                } else {
                    &&& final(self).current_tick() == old(self).current_tick()
                    &&& final(self).bins() == old(self).bins()
                    &&& final(self).spec_active_total_claim() == old(self).spec_active_total_claim()
                    &&& final(self).spec_active_x() == kept
                    &&& final(self).spec_active_y().attos() == 0
                }
            }),
    {
        let c = self.tick_index.current().unwrap();
        proof {
            self.tick_index.lemma_wf();
            Decimal::lemma_spec_zero();
        }
        match self.tick_index.move_down() {
            Some(next) => {
                self.bin_map.insert(c.0, Bin { amount: kept, total_claim: self.active_total_claim });
                proof {
                    assert(old(self).ticks().contains(next.0));
                    assert(old(self).bin_map@.contains_key(next.0));
                    lemma_valid_tick_upper(next.0, self.bin_span);
                }
                let bin = *self.bin_map.get(&next.0).unwrap();
                self.active_x = Decimal::zero();
                self.active_y = bin.amount;
                self.active_total_claim = bin.total_claim;
                self.lower_limit = Decimal::from_tick(next);
                self.upper_limit = Decimal::from_tick(next.tick_upper(self.bin_span));
                proof {
                    assert forall|t: u32| #[trigger] self.ticks().contains(t) implies valid_tick(t, self.bin_span) by {
                        assert(old(self).ticks().contains(t));
                    }
                    assert forall|t: u32| #[trigger] self.ticks().contains(t) && self.current_tick() != Some(Tick(t))
                        implies self.bin_map@.contains_key(t) by {
                        if t != c.0 {
                            assert(old(self).bin_map@.contains_key(t));
                        }
                    }
                    assert forall|t: u32| #[trigger] self.bin_map@.contains_key(t) && self.current_tick() != Some(
                        Tick(t),
                    ) && (self.bin_map@[t].amount.attos() != 0 || self.bin_map@[t].total_claim.attos() != 0)
                        implies self.ticks().contains(t) by {
                        if t != c.0 {
                            assert(old(self).bin_map@.contains_key(t));
                            assert(old(self).bin_map@[t] == self.bin_map@[t]);
                        }
                    }
                }
                true
            },
            None => {
                self.active_x = kept;
                self.active_y = Decimal::zero();
                proof {
                    assert(self.tick_index.current_tick() == old(self).current_tick());
                    assert(self.bin_map@ == old(self).bin_map@);
                    assert forall|t: u32| #[trigger] self.ticks().contains(t) implies valid_tick(t, self.bin_span) by {
                        assert(old(self).ticks().contains(t));
                    }
                    assert forall|t: u32| #[trigger] self.ticks().contains(t) && self.current_tick() != Some(Tick(t))
                        implies self.bin_map@.contains_key(t) by {
                        assert(old(self).ticks().contains(t));
                    }
                }
                false
            },
        }
    }

    /// The active bin is out of tokens x and keeps `kept` tokens y. The next bin above becomes
    /// active and the old one is stored (`true`); without one the active bin stays, holding
    /// only `kept` (`false`).
    fn retire_active_up(&mut self, kept: Decimal) -> (more: bool)
        requires
            old(self).wf(),
            old(self).current_tick() is Some,
        ensures
            final(self).wf(),
            final(self).span() == old(self).span(),
            final(self).ticks() == old(self).ticks(),
            ({
                let c = old(self).current_tick().unwrap();
                &&& is_next_up(old(self).ticks(), c.0, if more { final(self).current_tick() } else { None })
                &&& if more {
                    let n = final(self).current_tick().unwrap();
                    &&& final(self).bins() == old(self).bins().insert(c.0, Bin { amount: kept,
                        total_claim: old(self).spec_active_total_claim() })
                    &&& final(self).spec_active_total_claim() == old(self).bins()[n.0].total_claim
                    &&& final(self).spec_active_x() == old(self).bins()[n.0].amount
                    &&& final(self).spec_active_y().attos() == 0
                } else {
                    &&& final(self).current_tick() == old(self).current_tick()
                    &&& final(self).bins() == old(self).bins()
                    &&& final(self).spec_active_total_claim() == old(self).spec_active_total_claim()
                    &&& final(self).spec_active_y() == kept
                    &&& final(self).spec_active_x().attos() == 0
                }
            }),
    {
        let c = self.tick_index.current().unwrap();
        proof {
            self.tick_index.lemma_wf();
            Decimal::lemma_spec_zero();
        }
        match self.tick_index.move_up() {
            Some(next) => {
                self.bin_map.insert(c.0, Bin { amount: kept, total_claim: self.active_total_claim });
                proof {
                    assert(old(self).ticks().contains(next.0));
                    assert(old(self).bin_map@.contains_key(next.0));
                    lemma_valid_tick_upper(next.0, self.bin_span);
                }
                let bin = *self.bin_map.get(&next.0).unwrap();
                self.active_x = bin.amount;
                self.active_y = Decimal::zero();
                self.active_total_claim = bin.total_claim;
                self.lower_limit = Decimal::from_tick(next);
                self.upper_limit = Decimal::from_tick(next.tick_upper(self.bin_span));
                proof {
                    assert forall|t: u32| #[trigger] self.ticks().contains(t) implies valid_tick(t, self.bin_span) by {
                        assert(old(self).ticks().contains(t));
                    }
                    assert forall|t: u32| #[trigger] self.ticks().contains(t) && self.current_tick() != Some(Tick(t))
                        implies self.bin_map@.contains_key(t) by {
                        if t != c.0 {
                            assert(old(self).bin_map@.contains_key(t));
                        }
                    }
                    assert forall|t: u32| #[trigger] self.bin_map@.contains_key(t) && self.current_tick() != Some(
                        Tick(t),
                    ) && (self.bin_map@[t].amount.attos() != 0 || self.bin_map@[t].total_claim.attos() != 0)
                        implies self.ticks().contains(t) by {
                        if t != c.0 {
                            assert(old(self).bin_map@.contains_key(t));
                            assert(old(self).bin_map@[t] == self.bin_map@[t]);
                        }
                    }
                }
                true
            },
            None => {
                self.active_x = Decimal::zero();
                self.active_y = kept;
                proof {
                    assert(self.tick_index.current_tick() == old(self).current_tick());
                    assert(self.bin_map@ == old(self).bin_map@);
                    assert forall|t: u32| #[trigger] self.ticks().contains(t) implies valid_tick(t, self.bin_span) by {
                        assert(old(self).ticks().contains(t));
                    }
                    assert forall|t: u32| #[trigger] self.ticks().contains(t) && self.current_tick() != Some(Tick(t))
                        implies self.bin_map@.contains_key(t) by {
                        assert(old(self).ticks().contains(t));
                    }
                }
                false
            },
        }
    }

    /// Span of ticks a bin covers.
    pub fn get_bin_span(&self) -> (r: u32)
        ensures
            r == self.span(),
    {
        self.bin_span
    }

    /// Tick of the active bin; `None` without liquidity.
    pub fn get_active_tick(&self) -> (r: Option<u32>)
        ensures
            r == (match self.current_tick() {
                Some(t) => Some(t.0),
                None => None::<u32>,
            }),
    {
        match self.tick_index.current() {
            Some(t) => Some(t.0),
            None => None,
        }
    }

    /// Price range of the active bin: the squares of its square-root price limits, those of
    /// its tick and of the tick one bin span above; `None` without liquidity.
    pub fn get_active_bin_price_range(&self) -> (r: Option<(Decimal, Decimal)>)
        requires
            self.wf(),
        ensures
            match self.current_tick() {
                None => r is None,
                Some(c) => r matches Some((lo, hi))
                    && attos_mul(tick_attos(c.0), tick_attos(c.0)) == Some(lo.attos())
                    && attos_mul(tick_attos((c.0 + self.span()) as u32), tick_attos((c.0 + self.span()) as u32))
                        == Some(hi.attos()),
            },
    {
        match self.tick_index.current() {
            None => None,
            Some(c) => {
                proof {
                    let a = self.lower_limit.attos();
                    let b = self.upper_limit.attos();
                    lemma_tick_attos_bound(c.0);
                    lemma_tick_attos_bound((c.0 + self.bin_span) as u32);
                    lemma_square_fits(a);
                    lemma_square_fits(b);
                }
                let lo = dec_checked_mul(self.lower_limit, self.lower_limit).unwrap();
                let hi = dec_checked_mul(self.upper_limit, self.upper_limit).unwrap();
                Some((lo, hi))
            },
        }
    }

    /// Tokens x and y in the active bin; `None` without liquidity.
    pub fn get_active_amounts(&self) -> (r: Option<(Decimal, Decimal)>)
        ensures
            r == (match self.current_tick() {
                Some(_) => Some((self.spec_active_x(), self.spec_active_y())),
                None => None::<(Decimal, Decimal)>,
            }),
    {
        match self.tick_index.current() {
            Some(_) => Some((self.active_x, self.active_y)),
            None => None,
        }
    }

    /// Add liquidity at the given positions to a new liquidity receipt, which is returned.
    pub fn add_liquidity(&mut self, positions: &Vec<(u32, Decimal, Decimal)>) -> (r: Result<(LiquidityReceipt, AddLiquidityOutcome), PoolError>)
        requires
            old(self).wf(),
        ensures
            final(self).wf(),
            final(self).span() == old(self).span(),
            exists|r0: LiquidityReceipt, post_r: LiquidityReceipt, inner: Result<AddLiquidityOutcome, PoolError>|
                #![trigger addition_outcome(*old(self), r0, positions@, *final(self), post_r, inner)]
                {
                &&& r0.claims() == Map::<u32, Decimal>::empty()
                &&& post_r.wf()
                &&& addition_outcome(*old(self), r0, positions@, *final(self), post_r, inner)
                &&& r == match inner {
                    Ok(o) => Ok::<(LiquidityReceipt, AddLiquidityOutcome), PoolError>((post_r, o)),
                    Err(e) => Err(e),
                }
            },
    {
        let mut receipt = self.mint_liquidity_receipt();
        let ghost r0 = receipt;
        let inner = self.add_liquidity_to_receipt(&mut receipt, positions);
        proof {
            assert(addition_outcome(*old(self), r0, positions@, *self, receipt, inner));
        }
        match inner {
            Ok(o) => Ok((receipt, o)),
            Err(e) => Err(e),
        }
    }

    /// The claims of a liquidity receipt as `(tick, claim)` pairs, each tick once.
    pub fn get_liquidity_claims(&self, receipt: &LiquidityReceipt) -> (r: Vec<(u32, Decimal)>)
        requires
            receipt.wf(),
        ensures
            lists_claims(receipt.claims(), r@),
    {
        receipt.liquidity_claims()
    }
}

} // verus!
