use vstd::prelude::*;
use scrypto::prelude::ResourceAddress;
use crate::address::resource_eq;
use crate::decimal::{Decimal, attos_add, attos_sub, dec_checked_add, dec_checked_sub};

verus! {

/// Why a bridge operation was refused.
#[derive(Clone, Copy, Debug, PartialEq, Eq, Structural)]
pub enum BridgeError {
    /// The old token is not fungible.
    NotFungible,
    /// The old token's supply is unknown.
    TokenNotFound,
    /// The old token's total supply is not greater than zero.
    InvalidTotalSupply,
    /// Tokens of another resource were offered.
    InvalidToken,
    /// The bridge does not hold enough new tokens.
    InsufficientTokens,
    /// Decimal arithmetic overflowed.
    ArithmeticError,
}

/// Token bridge: exchanges old tokens for new ones one for one. The old tokens received stay
/// locked; the new tokens were minted to the old token's total supply.
pub struct TokenBridge {
    old_token: ResourceAddress,
    new_token: ResourceAddress,
    old_amount: Decimal,
    new_amount: Decimal,
}

impl TokenBridge {
    /// Resource of the old tokens.
    pub closed spec fn old_token(&self) -> ResourceAddress {
        self.old_token
    }

    /// Resource of the new tokens.
    pub closed spec fn new_token(&self) -> ResourceAddress {
        self.new_token
    }

    /// Attos of old tokens locked.
    pub closed spec fn old_attos(&self) -> int {
        self.old_amount.attos()
    }

    /// Attos of new tokens not yet claimed.
    pub closed spec fn new_attos(&self) -> int {
        self.new_amount.attos()
    }

    /// The amounts held are not negative.
    pub closed spec fn wf(&self) -> bool {
        self.old_amount.attos() >= 0 && self.new_amount.attos() >= 0
    }

    /// The total supply of new tokens to mint for an old token: refused when the old token is
    /// not fungible, its supply is unknown, or the supply is not greater than zero.
    pub fn check_source(fungible: bool, total_supply: Option<Decimal>) -> (r: Result<Decimal, BridgeError>)
        ensures
            r == TokenBridge::check_source_spec(fungible, total_supply),
    {
        if !fungible {
            return Err(BridgeError::NotFungible);
        }
        let supply = match total_supply {
            Some(s) => s,
            None => return Err(BridgeError::TokenNotFound),
        };
        if !Decimal::zero().lt(&supply) {
            return Err(BridgeError::InvalidTotalSupply);
        }
        Ok(supply)
    }

    /// A bridge from `old_token`, described by `fungible` and `total_supply`, to `new_token`,
    /// holding the whole supply of new tokens and no old tokens.
    pub fn new_local(old_token: ResourceAddress, new_token: ResourceAddress, fungible: bool, total_supply: Option<Decimal>) -> (r: Result<TokenBridge, BridgeError>)
        ensures
            match TokenBridge::check_source_spec(fungible, total_supply) {
                Ok(s) => r matches Ok(b) && b.wf() && b.old_token() == old_token && b.new_token() == new_token
                    && b.old_attos() == 0 && b.new_attos() == s.attos(),
                Err(e) => r == Err::<TokenBridge, BridgeError>(e),
            },
    {
        let supply = match TokenBridge::check_source(fungible, total_supply) {
            Ok(s) => s,
            Err(e) => return Err(e),
        };
        Ok(TokenBridge { old_token, new_token, old_amount: Decimal::zero(), new_amount: supply })
    }

    /// What `check_source` returns.
    pub open spec fn check_source_spec(fungible: bool, total_supply: Option<Decimal>) -> Result<Decimal, BridgeError> {
        if !fungible {
            Err(BridgeError::NotFungible)
        } else {
            match total_supply {
                None => Err(BridgeError::TokenNotFound),
                Some(s) => if s.attos() > 0 {
                    Ok(s)
                } else {
                    Err(BridgeError::InvalidTotalSupply)
                },
            }
        }
    }

    /// Resource of the old tokens.
    pub fn get_old_token_address(&self) -> (r: ResourceAddress)
        ensures
            r == self.old_token(),
    {
        self.old_token
    }

    /// Resource of the new tokens.
    pub fn get_new_token_address(&self) -> (r: ResourceAddress)
        ensures
            r == self.new_token(),
    {
        self.new_token
    }

    /// Old tokens locked.
    pub fn get_old_tokens_amount(&self) -> (r: Decimal)
        ensures
            r.attos() == self.old_attos(),
    {
        self.old_amount
    }

    /// New tokens not yet claimed.
    pub fn get_new_tokens_amount(&self) -> (r: Decimal)
        ensures
            r.attos() == self.new_attos(),
    {
        self.new_amount
    }

    /// Exchange `amount` old tokens of resource `token` for as many new tokens; returns the
    /// amount of new tokens handed out.
    pub fn bridge(&mut self, token: ResourceAddress, amount: Decimal) -> (r: Result<Decimal, BridgeError>)
        requires
            old(self).wf(),
            amount.attos() >= 0,
        ensures
            final(self).wf(),
            final(self).old_token() == old(self).old_token(),
            final(self).new_token() == old(self).new_token(),
            final(self).old_attos() + final(self).new_attos() == old(self).old_attos() + old(self).new_attos(),
            token != old(self).old_token() ==> r == Err::<Decimal, BridgeError>(BridgeError::InvalidToken)
                && *final(self) == *old(self),
            token == old(self).old_token() && amount.attos() > old(self).new_attos() ==> r == Err::<Decimal, BridgeError>(
                BridgeError::InsufficientTokens) && *final(self) == *old(self),
            token == old(self).old_token() && amount.attos() <= old(self).new_attos() ==> match attos_add(
                old(self).old_attos(), amount.attos()) {
                Some(v) => r == Ok::<Decimal, BridgeError>(amount) && final(self).old_attos() == v
                    && final(self).new_attos() == old(self).new_attos() - amount.attos(),
                None => r == Err::<Decimal, BridgeError>(BridgeError::ArithmeticError) && *final(self) == *old(self),
            },
    {
        if !resource_eq(&token, &self.old_token) {
            return Err(BridgeError::InvalidToken);
        }
        if self.new_amount.lt(&amount) {
            return Err(BridgeError::InsufficientTokens);
        }
        let old_amount = match dec_checked_add(self.old_amount, amount) {
            Some(v) => v,
            None => return Err(BridgeError::ArithmeticError),
        };
        proof {
            self.new_amount.lemma_attos_range();
            amount.lemma_attos_range();
        }
        let new_amount = match dec_checked_sub(self.new_amount, amount) {
            Some(v) => v,
            None => return Err(BridgeError::ArithmeticError),
        };
        self.old_amount = old_amount;
        self.new_amount = new_amount;
        Ok(amount)
    }
}

} // verus!
