use std::collections::HashMap;
use scrypto::math::Decimal;
use scrypto::math::I192;
use scrypto::prelude::ResourceAddress;
use quantaswap::decimal::Decimal as LibDecimal;
use quantaswap::token_bridge::{BridgeError, TokenBridge};

struct Vars {
    token_floop_old: ResourceAddress,
    token_caviar_old: ResourceAddress,
    supplies: HashMap<ResourceAddress, (bool, Decimal)>,
    balances: HashMap<ResourceAddress, Decimal>,
    next: u8,
}

fn dec(s: &str) -> Decimal {
    Decimal::try_from(s).unwrap()
}

fn to_lib(d: Decimal) -> LibDecimal {
    let digits = d.attos().to_digits();
    LibDecimal::from_digits(digits[0], digits[1], digits[2])
}

fn from_lib(d: LibDecimal) -> Decimal {
    let (lo, mid, hi) = d.to_digits();
    Decimal::from_attos(I192::from_digits([lo, mid, hi]))
}

fn resource(vars: &mut Vars) -> ResourceAddress {
    let mut bytes = [0u8; 30];
    bytes[0] = 93;
    bytes[1] = vars.next;
    vars.next += 1;
    ResourceAddress::new_or_panic(bytes)
}

fn create_resource(fungible: bool, supply: Decimal, vars: &mut Vars) -> ResourceAddress {
    let r = resource(vars);
    vars.supplies.insert(r, (fungible, supply));
    vars.balances.insert(r, supply);
    r
}

fn setup() -> Vars {
    let mut vars = Vars {
        token_floop_old: ResourceAddress::new_or_panic([93; 30]),
        token_caviar_old: ResourceAddress::new_or_panic([93; 30]),
        supplies: HashMap::new(),
        balances: HashMap::new(),
        next: 1,
    };
    vars.token_floop_old = create_resource(true, dec("1000"), &mut vars);
    vars.token_caviar_old = create_resource(true, dec("1000000000"), &mut vars);
    vars
}

/// Check the old token, mint the new one to its supply and set up the bridge.
fn new_token_bridge(old: ResourceAddress, vars: &mut Vars) -> Result<TokenBridge, BridgeError> {
    let (fungible, supply) = vars.supplies[&old];
    let supply = TokenBridge::check_source(fungible, Some(to_lib(supply)))?;
    let new_token = create_resource(true, Decimal::ZERO, vars);
    vars.supplies.insert(new_token, (true, from_lib(supply)));
    TokenBridge::new_local(old, new_token, fungible, Some(supply))
}

/// Send `amount` of `token` from the account to the bridge and take the new tokens back.
fn bridge(b: &mut TokenBridge, token: ResourceAddress, amount: Decimal, vars: &mut Vars) -> Result<(), BridgeError> {
    let out = b.bridge(token, to_lib(amount))?;
    *vars.balances.get_mut(&token).unwrap() -= amount;
    *vars.balances.entry(b.get_new_token_address()).or_insert(Decimal::ZERO) += from_lib(out);
    Ok(())
}

#[test]
fn test_initialization_success_01() {
    let mut vars = setup();
    let old_resource_token = vars.token_floop_old;
    assert!(new_token_bridge(old_resource_token, &mut vars).is_ok());
}

#[test]
fn test_initialization_success_02() {
    let mut vars = setup();
    let old_resource_token = vars.token_floop_old;
    assert!(new_token_bridge(old_resource_token, &mut vars).is_ok());
}

#[test]
fn test_initialization_failure_01() {
    let mut vars = setup();
    let old_resource_token = create_resource(true, dec("0"), &mut vars);
    assert!(matches!(new_token_bridge(old_resource_token, &mut vars), Err(BridgeError::InvalidTotalSupply)));
}

#[test]
fn test_initialization_failure_02() {
    let mut vars = setup();
    let old_resource_token = create_resource(false, dec("1"), &mut vars);
    assert!(matches!(new_token_bridge(old_resource_token, &mut vars), Err(BridgeError::NotFungible)));
}

#[test]
fn test_initialization_unknown_supply() {
    assert!(matches!(TokenBridge::check_source(true, None), Err(BridgeError::TokenNotFound)));
}

#[test]
fn test_get_new_token_address_success() {
    let mut vars = setup();
    let old_resource_address = vars.token_floop_old;
    let b = new_token_bridge(old_resource_address, &mut vars).unwrap();
    let _ = b.get_new_token_address();
}

#[test]
fn test_get_new_token_address_01() {
    let mut vars = setup();
    let old_resource_address = vars.token_floop_old;
    let b = new_token_bridge(old_resource_address, &mut vars).unwrap();
    let new_token_address = b.get_new_token_address();
    assert_ne!(old_resource_address, new_token_address);
    assert_ne!(old_resource_address, vars.token_caviar_old);
}

#[test]
fn test_get_old_token_address_success() {
    let mut vars = setup();
    let old_resource_address = vars.token_floop_old;
    let b = new_token_bridge(old_resource_address, &mut vars).unwrap();
    let _ = b.get_old_token_address();
}

#[test]
fn test_get_old_token_address_01() {
    let mut vars = setup();
    let old_resource_address = vars.token_floop_old;
    let b = new_token_bridge(old_resource_address, &mut vars).unwrap();
    let old_token_address = b.get_old_token_address();
    assert_eq!(old_resource_address, old_token_address);
    assert_ne!(old_resource_address, vars.token_caviar_old);
}

#[test]
fn test_old_tokens_vault_amount_01() {
    let mut vars = setup();
    let old_resource_address = vars.token_floop_old;
    let b = new_token_bridge(old_resource_address, &mut vars).unwrap();
    assert_eq!(dec("0"), from_lib(b.get_old_tokens_amount()));
}

#[test]
fn test_bridge_tokens_vault_amount_01() {
    let mut vars = setup();
    let old_resource_address = vars.token_floop_old;
    let b = new_token_bridge(old_resource_address, &mut vars).unwrap();
    assert_eq!(dec("1000"), from_lib(b.get_new_tokens_amount()));
}

#[test]
fn test_bridge_tokens_vault_amount_02() {
    let mut vars = setup();
    let old_resource_address = vars.token_caviar_old;
    let b = new_token_bridge(old_resource_address, &mut vars).unwrap();
    assert_eq!(dec("1000000000"), from_lib(b.get_new_tokens_amount()));
}

#[test]
fn test_bridge_success_01() {
    let mut vars = setup();
    let old_resource_address = vars.token_caviar_old;
    let mut b = new_token_bridge(old_resource_address, &mut vars).unwrap();
    assert!(bridge(&mut b, old_resource_address, dec("17"), &mut vars).is_ok());
}

#[test]
fn test_bridge_failure_01() {
    let mut vars = setup();
    let old_resource_address = vars.token_caviar_old;
    let wrong_resource_address = vars.token_floop_old;
    let mut b = new_token_bridge(old_resource_address, &mut vars).unwrap();
    assert!(matches!(bridge(&mut b, wrong_resource_address, dec("17"), &mut vars), Err(BridgeError::InvalidToken)));
}

#[test]
fn test_bridge_balances_01() {
    let mut vars = setup();
    let old_resource_address = vars.token_caviar_old;
    let mut b = new_token_bridge(old_resource_address, &mut vars).unwrap();
    let new_token_address = b.get_new_token_address();
    let balance_amounts_before = vars.balances.clone();
    let bridge_tokens_vault_amount_before = from_lib(b.get_new_tokens_amount());
    let old_tokens_vault_amount_before = from_lib(b.get_old_tokens_amount());

    let amount = dec("17");
    bridge(&mut b, old_resource_address, amount, &mut vars).unwrap();

    let balance_amounts_after = vars.balances.clone();
    let bridge_tokens_vault_amount_after = from_lib(b.get_new_tokens_amount());
    let old_tokens_vault_amount_after = from_lib(b.get_old_tokens_amount());

    assert_eq!(
        *balance_amounts_before.get(&old_resource_address).unwrap_or(&Decimal::ZERO) - amount,
        *balance_amounts_after.get(&old_resource_address).unwrap_or(&Decimal::ZERO),
    );
    assert_eq!(
        *balance_amounts_before.get(&new_token_address).unwrap_or(&Decimal::ZERO) + amount,
        *balance_amounts_after.get(&new_token_address).unwrap_or(&Decimal::ZERO),
    );
    assert_eq!(
        old_tokens_vault_amount_before + amount,
        old_tokens_vault_amount_after
    );
    assert_eq!(
        bridge_tokens_vault_amount_before - amount,
        bridge_tokens_vault_amount_after
    );
}

#[test]
fn test_bridge_more_than_held_invalid() {
    let mut vars = setup();
    let old_resource_address = vars.token_floop_old;
    let mut b = new_token_bridge(old_resource_address, &mut vars).unwrap();
    assert!(matches!(b.bridge(old_resource_address, to_lib(dec("1000.000000000000000001"))), Err(BridgeError::InsufficientTokens)));
    assert_eq!(from_lib(b.get_new_tokens_amount()), dec("1000"));
}

#[test]
fn test_bridge_keeps_total() {
    let mut vars = setup();
    let old_resource_address = vars.token_floop_old;
    let mut b = new_token_bridge(old_resource_address, &mut vars).unwrap();
    for amount in ["1", "2.5", "0.000000000000000001", "996.499999999999999999"] {
        bridge(&mut b, old_resource_address, dec(amount), &mut vars).unwrap();
        assert_eq!(from_lib(b.get_new_tokens_amount()) + from_lib(b.get_old_tokens_amount()), dec("1000"));
    }
    assert_eq!(from_lib(b.get_new_tokens_amount()), dec("0"));
}
