#![allow(dead_code)]
use std::collections::HashMap;
use scrypto::math::Decimal;
use scrypto::math::I192;
use scrypto::math::RoundingMode;
use quantaswap::decimal::Decimal as LibDecimal;
use quantaswap::pool::{LiquidityReceipt, PoolError, QuantaSwap};
use quantaswap::tick::Tick;

#[derive(Clone, Copy, PartialEq, Debug)]
enum Token {
    X,
    Y,
    Receipt,
}

#[derive(Debug)]
enum TestError {
    Panic(String),
    Bucket,
}

struct Outcome(Result<(), TestError>);

impl Outcome {
    fn expect_commit_success(&self) {
        if let Err(e) = &self.0 {
            panic!("expected success, got {:?}", e);
        }
    }

    fn expect_specific_failure(&self, f: impl Fn(&TestError) -> bool) {
        match &self.0 {
            Ok(()) => panic!("expected failure"),
            Err(e) => assert!(f(e), "unexpected failure {:?}", e),
        }
    }
}

struct Vars {
    pool: QuantaSwap,
    receipts: Vec<Option<LiquidityReceipt>>,
    bin_span: u32,
    token_x: Token,
    token_y: Token,
    liquidity_receipt: Token,
    amount_x: Decimal,
    amount_y: Decimal,
    divisibility_x: u8,
    divisibility_y: u8,
    balance_x: Decimal,
    balance_y: Decimal,
    vault_x: Decimal,
    vault_y: Decimal,
}

fn dec(s: &str) -> Decimal {
    Decimal::try_from(s).unwrap()
}

fn to_lib(d: Decimal) -> LibDecimal {
    let digits = d.attos().to_digits();
    LibDecimal::from_digits(digits[0], digits[1], digits[2])
}

fn from_lib(d: LibDecimal) -> Decimal {
    let (lo, mid, hi) = d.to_digits();
    Decimal::from_attos(I192::from_digits([lo, mid, hi]))
}

fn price_of(t: Tick) -> Decimal {
    from_lib(LibDecimal::from_tick(t))
}

fn message(e: PoolError) -> String {
    match e {
        PoolError::InvalidBinSpan => "Bin span must be greater than zero.".to_string(),
        PoolError::InvalidTick => "Invalid tick".to_string(),
        PoolError::NegativeAmount => "Amounts must be greater than or equal to zero.".to_string(),
        PoolError::ClaimNotPositive => "Claim must be greater than zero.".to_string(),
        PoolError::ClaimNotFound => "Claim does not exist.".to_string(),
        PoolError::TooManyClaims => "Too many liquidity claims for this liquidity receipt.".to_string(),
        PoolError::BinNotFound => "Bin does not exist.".to_string(),
        PoolError::ArithmeticError => "Overflow".to_string(),
        PoolError::ClaimsRemain => "Cannot burn liquidity receipt with liquidity claims.".to_string(),
    }
}

fn setup_with_span(bin_span: u32) -> Vars {
    let supply = Decimal::from_attos(I192::from_digits([0, 0, 1u64 << 24])).checked_floor().unwrap();
    let pool = match QuantaSwap::new(bin_span) {
        Ok(p) => p,
        Err(e) => panic!("{}", message(e)),
    };
    Vars {
        pool,
        receipts: Vec::new(),
        bin_span,
        token_x: Token::X,
        token_y: Token::Y,
        liquidity_receipt: Token::Receipt,
        amount_x: supply,
        amount_y: supply,
        divisibility_x: 18,
        divisibility_y: 18,
        balance_x: supply,
        balance_y: supply,
        vault_x: Decimal::ZERO,
        vault_y: Decimal::ZERO,
    }
}

fn setup() -> Vars {
    setup_with_span(20)
}

fn round_up(amount: Decimal, divisibility: u8) -> Decimal {
    amount.checked_round(divisibility, RoundingMode::ToPositiveInfinity).unwrap()
}

fn mint_liquidity_receipt(vars: &mut Vars) -> usize {
    let r = vars.pool.mint_liquidity_receipt();
    vars.receipts.push(Some(r));
    vars.receipts.len() - 1
}

fn add_liquidity_to_receipt(id: usize, amount_x: Decimal, amount_y: Decimal, positions: Vec<(u32, Decimal, Decimal)>, vars: &mut Vars) -> Outcome {
    if amount_x > vars.balance_x || amount_y > vars.balance_y {
        return Outcome(Err(TestError::Bucket));
    }
    let positions: Vec<(u32, LibDecimal, LibDecimal)> = positions.into_iter().map(|(t, x, y)| (t, to_lib(x), to_lib(y))).collect();
    let receipt = vars.receipts[id].as_mut().unwrap();
    match vars.pool.add_liquidity_to_receipt(receipt, &positions) {
        Ok(o) => {
            let used_x = from_lib(o.amount_x_used);
            let used_y = from_lib(o.amount_y_used);
            if used_x > amount_x || used_y > amount_y {
                return Outcome(Err(TestError::Bucket));
            }
            vars.balance_x = vars.balance_x - used_x;
            vars.balance_y = vars.balance_y - used_y;
            vars.vault_x = vars.vault_x + used_x;
            vars.vault_y = vars.vault_y + used_y;
            Outcome(Ok(()))
        },
        Err(e) => Outcome(Err(TestError::Panic(message(e)))),
    }
}

fn add_liquidity(amount_x: Decimal, amount_y: Decimal, positions: Vec<(u32, Decimal, Decimal)>, vars: &mut Vars) -> Outcome {
    let id = mint_liquidity_receipt(vars);
    add_liquidity_to_receipt(id, amount_x, amount_y, positions, vars)
}

fn remove_specific_liquidity(id: usize, claims: Vec<(u32, Decimal)>, vars: &mut Vars) -> Outcome {
    let claims: Vec<(u32, LibDecimal)> = claims.into_iter().map(|(t, c)| (t, to_lib(c))).collect();
    let receipt = vars.receipts[id].as_mut().unwrap();
    match vars.pool.remove_specific_liquidity(receipt, &claims) {
        Ok(o) => {
            let x = from_lib(o.amount_x);
            let y = from_lib(o.amount_y);
            vars.balance_x = vars.balance_x + x;
            vars.balance_y = vars.balance_y + y;
            vars.vault_x = vars.vault_x - x;
            vars.vault_y = vars.vault_y - y;
            Outcome(Ok(()))
        },
        Err(e) => Outcome(Err(TestError::Panic(message(e)))),
    }
}

fn remove_liquidity(id: usize, vars: &mut Vars) -> Outcome {
    let receipt = vars.receipts[id].take().unwrap();
    match vars.pool.remove_liquidity(receipt) {
        Ok(o) => {
            let x = from_lib(o.amount_x);
            let y = from_lib(o.amount_y);
            vars.balance_x = vars.balance_x + x;
            vars.balance_y = vars.balance_y + y;
            vars.vault_x = vars.vault_x - x;
            vars.vault_y = vars.vault_y - y;
            Outcome(Ok(()))
        },
        Err(e) => Outcome(Err(TestError::Panic(message(e)))),
    }
}

fn burn_liquidity_receipt(id: usize, vars: &mut Vars) -> Outcome {
    let receipt = vars.receipts[id].take().unwrap();
    let claims = receipt.len();
    match vars.pool.burn_liquidity_receipt(receipt) {
        Ok(()) => Outcome(Ok(())),
        Err(e) => {
            assert!(claims > 0);
            Outcome(Err(TestError::Panic(message(e))))
        },
    }
}

fn balance(token: Token, vars: &Vars) -> Decimal {
    match token {
        Token::X => vars.balance_x,
        Token::Y => vars.balance_y,
        Token::Receipt => Decimal::from(vars.receipts.iter().filter(|r| r.is_some()).count() as u64),
    }
}

fn assert_balance(token: Token, amount: Decimal, vars: &mut Vars) {
    assert_eq!(balance(token, vars), amount);
}

fn get_bin_span(vars: &mut Vars) -> u32 {
    vars.pool.get_bin_span()
}

fn get_active_tick(vars: &mut Vars) -> Option<u32> {
    vars.pool.get_active_tick()
}

fn get_active_bin_price_range(vars: &mut Vars) -> Option<(Decimal, Decimal)> {
    vars.pool.get_active_bin_price_range().map(|(a, b)| (from_lib(a), from_lib(b)))
}

fn get_active_amounts(vars: &mut Vars) -> Option<(Decimal, Decimal)> {
    vars.pool.get_active_amounts().map(|(a, b)| (from_lib(a), from_lib(b)))
}

fn get_amount_x(vars: &mut Vars) -> Decimal {
    vars.vault_x
}

fn get_amount_y(vars: &mut Vars) -> Decimal {
    vars.vault_y
}

fn get_bins_above(start: Option<u32>, stop: Option<u32>, number: Option<u32>, vars: &mut Vars) -> Vec<(u32, Decimal)> {
    vars.pool.get_bins_above(start, stop, number).into_iter().map(|(t, a)| (t, from_lib(a))).collect()
}

fn get_bins_below(start: Option<u32>, stop: Option<u32>, number: Option<u32>, vars: &mut Vars) -> Vec<(u32, Decimal)> {
    vars.pool.get_bins_below(start, stop, number).into_iter().map(|(t, a)| (t, from_lib(a))).collect()
}

fn get_liquidity_claims(id: usize, vars: &mut Vars) -> HashMap<u32, Decimal> {
    let receipt = vars.receipts[id].as_ref().unwrap();
    vars.pool.get_liquidity_claims(receipt).into_iter().map(|(t, c)| (t, from_lib(c))).collect()
}

fn get_redemption_value(id: usize, vars: &mut Vars) -> (Decimal, Decimal) {
    let receipt = vars.receipts[id].as_ref().unwrap();
    let (x, y) = vars.pool.get_redemption_value(receipt).unwrap();
    (from_lib(x), from_lib(y))
}

fn get_redemption_bin_values(id: usize, vars: &mut Vars) -> Vec<(u32, Decimal, Decimal)> {
    let receipt = vars.receipts[id].as_ref().unwrap();
    vars.pool.get_redemption_bin_values(receipt).unwrap().into_iter().map(|(t, x, y)| (t, from_lib(x), from_lib(y))).collect()
}

#[test]
fn test_pool_instantiation_setup() {
    setup();
}

#[test]
fn test_instantiation() {
    let mut vars: Vars = setup();

    assert_eq!(
        get_active_tick(&mut vars),
        None
    );
}

#[test]
fn test_instantiation_bin_span_zero_invalid() {
    match QuantaSwap::new(0) {
        Ok(_) => panic!("expected failure"),
        Err(e) => assert!(message(e).contains("Bin span must be greater than zero.")),
    }
}

#[test]
fn test_instantiation_with_add_liquidity_after() {
    let mut vars: Vars = setup();

    let tick0 = Tick::one().0 + vars.bin_span;
    let amount_x0 = dec("1.5");
    let amount_y0 = dec("0.5");

    let tick1 = tick0 + vars.bin_span;
    let amount_x1 = dec("3");
    let amount_y1 = dec("0");

    let tick2 = tick0 - vars.bin_span;
    let amount_x2 = dec("0");
    let amount_y2 = dec("2");

    let total_x = amount_x0 + amount_x1 + amount_x2;
    let total_y = amount_y0 + amount_y1 + amount_y2;
    let positions = vec![
        (tick0, amount_x0, amount_y0),
        (tick1, amount_x1, amount_y1),
        (tick2, amount_x2, amount_y2),
    ];

    add_liquidity(total_x, total_y, positions, &mut vars).expect_commit_success();
}
