use scrypto::math::{Decimal, I192};
use quantaswap::decimal::Decimal as LibDecimal;
use quantaswap::pool::{swap_fee, swap_side, unused_fee_refunds, LiquidityReceipt, PoolError, QuantaSwap, SwapSide};
use scrypto::prelude::ResourceAddress;

fn dec(s: &str) -> Decimal {
    Decimal::try_from(s).unwrap()
}

fn to_lib(d: Decimal) -> LibDecimal {
    let digits = d.attos().to_digits();
    LibDecimal::from_digits(digits[0], digits[1], digits[2])
}

fn from_lib(d: LibDecimal) -> Decimal {
    let (lo, mid, hi) = d.to_digits();
    Decimal::from_attos(I192::from_digits([lo, mid, hi]))
}

/// A receipt holding a claim of 1 at tick 27000 in a pool without liquidity.
fn empty_pool_with_claim() -> (QuantaSwap, LiquidityReceipt) {
    let pool = QuantaSwap::new(20).unwrap();
    let mut receipt = LiquidityReceipt::new();
    receipt.set(27000, to_lib(dec("1")));
    (pool, receipt)
}

#[test]
fn test_new_pool_with_positive_span_is_empty() {
    let pool = QuantaSwap::new(3).unwrap();
    assert_eq!(pool.get_bin_span(), 3);
    assert_eq!(pool.get_active_tick(), None);
    assert_eq!(pool.get_active_amounts(), None);
    assert!(pool.get_bins_above(None, None, None).is_empty());
}

#[test]
fn test_remove_specific_liquidity_without_liquidity_missing_claim() {
    let (mut pool, mut receipt) = empty_pool_with_claim();
    let r = pool.remove_specific_liquidity(&mut receipt, &vec![(27020, to_lib(dec("1")))]);
    assert_eq!(r.err(), Some(PoolError::ClaimNotFound));
}

#[test]
fn test_remove_specific_liquidity_without_liquidity_claim_not_positive() {
    let (mut pool, mut receipt) = empty_pool_with_claim();
    let r = pool.remove_specific_liquidity(&mut receipt, &vec![(27000, to_lib(dec("0")))]);
    assert_eq!(r.err(), Some(PoolError::ClaimNotPositive));
}

#[test]
fn test_remove_specific_liquidity_without_liquidity_pays_nothing() {
    let (mut pool, mut receipt) = empty_pool_with_claim();
    let o = pool.remove_specific_liquidity(&mut receipt, &vec![(27000, to_lib(dec("1")))]).ok().unwrap();
    assert_eq!(from_lib(o.amount_x), dec("0"));
    assert_eq!(from_lib(o.amount_y), dec("0"));
    assert!(o.removed_x.is_empty() && o.removed_y.is_empty());
    assert_eq!(receipt.get(27000).map(from_lib), Some(dec("1")));
}

#[test]
fn test_swap_fee() {
    assert_eq!(from_lib(swap_fee(to_lib(dec("10")), to_lib(dec("0.003"))).ok().unwrap()), dec("0.03"));
}

#[test]
fn test_unused_fee_refunds() {
    let (p, l) = unused_fee_refunds(to_lib(dec("0.03")), to_lib(dec("0.01")), to_lib(dec("4")), to_lib(dec("10"))).ok().unwrap();
    assert_eq!(from_lib(p), dec("0.012"));
    assert_eq!(from_lib(l), dec("0.004"));
    assert_eq!(
        unused_fee_refunds(to_lib(dec("1")), to_lib(dec("1")), to_lib(dec("1")), to_lib(dec("0"))).err(),
        Some(PoolError::ArithmeticError)
    );
}

fn resource(i: u8) -> ResourceAddress {
    let mut bytes = [0u8; 30];
    bytes[0] = 93;
    bytes[1] = i;
    ResourceAddress::new_or_panic(bytes)
}

/// A pool with liquidity at tick 27000, a large bin of tokens x at 27020, and a receipt whose
/// deposit of one atto into that bin was worth a claim of zero.
fn pool_with_zero_claim() -> (QuantaSwap, LiquidityReceipt) {
    let mut pool = QuantaSwap::new(20).unwrap();
    pool.add_liquidity(&vec![(27000, to_lib(dec("1")), to_lib(dec("1")))]).ok().unwrap();
    pool.add_liquidity(&vec![(27020, to_lib(dec("1000000000000")), to_lib(dec("0")))]).ok().unwrap();
    let (receipt, outcome) = pool.add_liquidity(&vec![(27020, to_lib(dec("0.000000000000000001")), to_lib(dec("0")))]).ok().unwrap();
    assert_eq!(from_lib(outcome.amount_x_used), dec("0.000000000000000001"));
    assert_eq!(receipt.get(27020).map(from_lib), Some(dec("0")));
    (pool, receipt)
}

#[test]
fn test_remove_specific_liquidity_zero_claim_pays_nothing() {
    let (mut pool, mut receipt) = pool_with_zero_claim();
    let before = pool.get_bins_above(None, None, None);
    let o = pool.remove_specific_liquidity(&mut receipt, &vec![(27020, to_lib(dec("1")))]).ok().unwrap();
    assert_eq!(from_lib(o.amount_x), dec("0"));
    assert_eq!(from_lib(o.amount_y), dec("0"));
    assert_eq!(receipt.get(27020), None);
    let after = pool.get_bins_above(None, None, None);
    assert_eq!(before.len(), after.len());
    assert_eq!(from_lib(before[1].1), from_lib(after[1].1));
}

#[test]
fn test_remove_liquidity_zero_claim_refused() {
    // Removing all liquidity requests each stored claim, and a request of zero is refused.
    let (mut pool, receipt) = pool_with_zero_claim();
    assert_eq!(pool.remove_liquidity(receipt).err(), Some(PoolError::ClaimNotPositive));
}

#[test]
fn test_addition_claims_cover_added_ticks() {
    let mut pool = QuantaSwap::new(20).unwrap();
    let mut receipt = pool.mint_liquidity_receipt();
    receipt.set(26000, to_lib(dec("3")));
    let o = pool
        .add_liquidity_to_receipt(&mut receipt, &vec![
            (27000, to_lib(dec("1")), to_lib(dec("2"))),
            (27020, to_lib(dec("0")), to_lib(dec("5"))),
            (26980, to_lib(dec("0")), to_lib(dec("4"))),
        ])
        .ok()
        .unwrap();
    let mut ticks: Vec<u32> = receipt.liquidity_claims().into_iter().map(|(t, _)| t).collect();
    ticks.sort();
    assert_eq!(ticks, vec![26000, 26980, 27000]);
    assert_eq!(from_lib(o.amount_x_used), dec("1"));
    assert_eq!(from_lib(o.amount_y_used), dec("6"));
}

#[test]
fn test_swap_side() {
    let (x, y, z) = (resource(1), resource(2), resource(3));
    assert_eq!(swap_side(x, x, y), Some(SwapSide::SellX));
    assert_eq!(swap_side(y, x, y), Some(SwapSide::SellY));
    assert_eq!(swap_side(z, x, y), None);
}
