use vstd::prelude::*;
use scrypto::prelude::ResourceAddress;
use crate::address::resource_eq;

verus! {

/// A set of resource addresses, each held once.
pub struct AddressSet {
    items: Vec<ResourceAddress>,
}

impl AddressSet {
    /// The addresses in the set.
    pub closed spec fn view_set(&self) -> Set<ResourceAddress> {
        self.items@.to_set()
    }

    /// No address is held twice.
    pub closed spec fn wf(&self) -> bool {
        self.items@.no_duplicates()
    }

    /// An empty set.
    pub fn new() -> (r: AddressSet)
        ensures
            r.wf(),
            r.view_set() == Set::<ResourceAddress>::empty(),
    {
        let r = AddressSet { items: Vec::new() };
        proof {
            assert(r.items@.to_set() =~= Set::<ResourceAddress>::empty());
        }
        r
    }

    /// Position of `a` in the set, if it is there.
    fn find(&self, a: &ResourceAddress) -> (r: Option<usize>)
        ensures
            match r {
                Some(i) => i < self.items@.len() && self.items@[i as int] == *a,
                None => !self.items@.contains(*a),
            },
    {
        let mut i: usize = 0;
        while i < self.items.len()
            invariant
                0 <= i <= self.items@.len(),
                forall|j: int| 0 <= j < i ==> self.items@[j] != *a,
            decreases self.items@.len() - i,
        {
            if resource_eq(&self.items[i], a) {
                return Some(i);
            }
            i = i + 1;
        }
        None
    }

    /// Whether `a` is in the set.
    pub fn contains(&self, a: &ResourceAddress) -> (r: bool)
        ensures
            r == self.view_set().contains(*a),
    {
        match self.find(a) {
            Some(i) => {
                proof {
                    assert(self.items@.contains(*a));
                }
                true
            },
            None => false,
        }
    }

    /// Add `a` to the set.
    pub fn insert(&mut self, a: ResourceAddress)
        requires
            old(self).wf(),
        ensures
            final(self).wf(),
            final(self).view_set() == old(self).view_set().insert(a),
    {
        if self.find(&a).is_none() {
            let ghost pre = self.items@;
            self.items.push(a);
            proof {
                assert(self.items@ == pre.push(a));
                assert forall|i: int, j: int| 0 <= i < j < self.items@.len() implies self.items@[i] != self.items@[j] by {
                    if j == pre.len() {
                        assert(pre.contains(pre[i]));
                    }
                }
                assert(self.items@.to_set() =~= pre.to_set().insert(a)) by {
                    assert forall|x: ResourceAddress| self.items@.to_set().contains(x) <==> pre.to_set().insert(a).contains(x) by {
                        if self.items@.contains(x) && x != a {
                            let k = self.items@.index_of(x);
                            assert(pre[k] == x);
                        }
                        if pre.contains(x) {
                            let k = pre.index_of(x);
                            assert(self.items@[k] == x);
                        }
                        assert(self.items@[pre.len() as int] == a);
                    }
                }
            }
        } else {
            proof {
                assert(self.items@.contains(a));
                assert(self.items@.to_set() =~= self.items@.to_set().insert(a));
            }
        }
    }

    /// Remove `a` from the set.
    pub fn remove(&mut self, a: &ResourceAddress)
        requires
            old(self).wf(),
        ensures
            final(self).wf(),
            final(self).view_set() == old(self).view_set().remove(*a),
    {
        match self.find(a) {
            Some(i) => {
                let ghost pre = self.items@;
                self.items.remove(i);
                proof {
                    assert(self.items@ == pre.remove(i as int));
                    assert forall|p: int, q: int| 0 <= p < q < self.items@.len() implies self.items@[p] != self.items@[q] by {
                        let pp = if p < i { p } else { p + 1 };
                        let qq = if q < i { q } else { q + 1 };
                        assert(self.items@[p] == pre[pp]);
                        assert(self.items@[q] == pre[qq]);
                    }
                    assert(self.items@.to_set() =~= pre.to_set().remove(*a)) by {
                        assert forall|x: ResourceAddress| self.items@.to_set().contains(x) <==> pre.to_set().remove(*a).contains(x) by {
                            if self.items@.contains(x) {
                                let k = self.items@.index_of(x);
                                let kk = if k < i { k } else { k + 1 };
                                assert(pre[kk] == x);
                                assert(kk != i);
                            }
                            if pre.contains(x) && x != *a {
                                let k = pre.index_of(x);
                                assert(k != i);
                                let kk = if k < i { k } else { k - 1 };
                                assert(self.items@[kk] == x);
                            }
                        }
                    }
                }
            },
            None => {
                proof {
                    assert(self.items@.to_set() =~= self.items@.to_set().remove(*a));
                }
            },
        }
    }
}

/// How a role of a resource is set: not at all, to deny all, to allow all, or to some other
/// rule.
#[derive(Clone, Copy, Debug, PartialEq, Eq, Structural)]
pub enum RoleRule {
    Unset,
    DenyAll,
    AllowAll,
    Other,
}

/// The role is given to someone: set, and not to deny all.
pub open spec fn granted(r: RoleRule) -> bool {
    r != RoleRule::Unset && r != RoleRule::DenyAll
}

/// The role is open to everyone: unset, or set to allow all.
pub open spec fn open_to_all(r: RoleRule) -> bool {
    r == RoleRule::Unset || r == RoleRule::AllowAll
}

/// Kind of a resource: fungible with its divisibility, or non-fungible.
#[derive(Clone, Copy, Debug, PartialEq, Eq, Structural)]
pub enum ResourceKind {
    Fungible(u8),
    NonFungible,
}

/// What the validator reads of a token: its kind and the rules of its recall, freeze,
/// deposit and withdraw roles and of their updater roles.
#[derive(Clone, Copy, Debug, PartialEq, Eq, Structural)]
pub struct TokenFacts {
    pub kind: ResourceKind,
    pub recaller: RoleRule,
    pub recaller_updater: RoleRule,
    pub freezer: RoleRule,
    pub freezer_updater: RoleRule,
    pub depositor: RoleRule,
    pub depositor_updater: RoleRule,
    pub withdrawer: RoleRule,
    pub withdrawer_updater: RoleRule,
}

/// Why a token was refused.
#[derive(Clone, Copy, Debug, PartialEq, Eq, Structural)]
pub enum ValidationError {
    /// The token is blacklisted.
    Blacklisted,
    /// The token is not fungible.
    NotFungible,
    /// The token is not divisible by at least the minimum number of decimals.
    NotDivisible,
    /// Only whitelisted tokens may be recallable.
    RecallableNotWhitelisted,
    /// Only whitelisted tokens may be freezable.
    FreezableNotWhitelisted,
    /// The token cannot be deposited by everyone.
    NotDepositable,
    /// Only whitelisted tokens may have an updatable deposit rule.
    DepositUpdatableNotWhitelisted,
    /// The token cannot be withdrawn by everyone.
    NotWithdrawable,
    /// Only whitelisted tokens may have an updatable withdraw rule.
    WithdrawUpdatableNotWhitelisted,
}

/// Verdict on a token with facts `f`, given the lists and settings of the validator; the
/// first rule that fails is reported.
pub open spec fn validation(
    white: Set<ResourceAddress>,
    black: Set<ResourceAddress>,
    restrict_recallable: bool,
    restrict_freezable: bool,
    minimum_divisibility: u8,
    token: ResourceAddress,
    f: TokenFacts,
) -> Result<(), ValidationError> {
    let wl = white.contains(token);
    if black.contains(token) {
        Err(ValidationError::Blacklisted)
    } else {
        match f.kind {
            ResourceKind::NonFungible => Err(ValidationError::NotFungible),
            ResourceKind::Fungible(d) => if d < minimum_divisibility {
                Err(ValidationError::NotDivisible)
            } else if restrict_recallable && (granted(f.recaller) || granted(f.recaller_updater)) && !wl {
                Err(ValidationError::RecallableNotWhitelisted)
            } else if restrict_freezable && (granted(f.freezer) || granted(f.freezer_updater)) && !wl {
                Err(ValidationError::FreezableNotWhitelisted)
            } else if !open_to_all(f.depositor) {
                Err(ValidationError::NotDepositable)
            } else if restrict_freezable && granted(f.depositor_updater) && !wl {
                Err(ValidationError::DepositUpdatableNotWhitelisted)
            } else if !open_to_all(f.withdrawer) {
                Err(ValidationError::NotWithdrawable)
            } else if restrict_freezable && granted(f.withdrawer_updater) && !wl {
                Err(ValidationError::WithdrawUpdatableNotWhitelisted)
            } else {
                Ok(())
            },
        }
    }
}

/// A blacklisted token is refused whatever its facts and settings.
pub proof fn law_blacklisted_refused(
    white: Set<ResourceAddress>,
    black: Set<ResourceAddress>,
    restrict_recallable: bool,
    restrict_freezable: bool,
    minimum_divisibility: u8,
    token: ResourceAddress,
    f: TokenFacts,
)
    requires
        black.contains(token),
    ensures
        validation(white, black, restrict_recallable, restrict_freezable, minimum_divisibility, token, f) == Err::<
            (),
            ValidationError,
        >(ValidationError::Blacklisted),
{
}

/// A whitelisted token that is not blacklisted is refused only for being non-fungible, not
/// divisible enough, or not open to deposits and withdrawals by everyone: the restrictions
/// on recalling, freezing and updatable rules do not apply to it.
pub proof fn law_whitelisted_unrestricted(
    white: Set<ResourceAddress>,
    black: Set<ResourceAddress>,
    restrict_recallable: bool,
    restrict_freezable: bool,
    minimum_divisibility: u8,
    token: ResourceAddress,
    f: TokenFacts,
)
    requires
        white.contains(token),
        !black.contains(token),
    ensures
        validation(white, black, restrict_recallable, restrict_freezable, minimum_divisibility, token, f) == validation(
            white,
            black,
            false,
            false,
            minimum_divisibility,
            token,
            f,
        ),
{
}

fn is_granted(r: RoleRule) -> (b: bool)
    ensures
        b == granted(r),
{
    match r {
        RoleRule::Unset => false,
        RoleRule::DenyAll => false,
        _ => true,
    }
}

fn is_open_to_all(r: RoleRule) -> (b: bool)
    ensures
        b == open_to_all(r),
{
    match r {
        RoleRule::Unset => true,
        RoleRule::AllowAll => true,
        _ => false,
    }
}

/// Token validator: decides which tokens the protocol accepts, from a whitelist, a
/// blacklist, restrictions on recallable and freezable tokens and a minimum divisibility.
pub struct TokenValidator {
    white_list: AddressSet,
    black_list: AddressSet,
    restrict_recallable: bool,
    restrict_freezable: bool,
    minimum_divisibility: u8,
}

impl TokenValidator {
    /// Whitelisted tokens.
    pub closed spec fn white(&self) -> Set<ResourceAddress> {
        self.white_list.view_set()
    }

    /// Blacklisted tokens.
    pub closed spec fn black(&self) -> Set<ResourceAddress> {
        self.black_list.view_set()
    }

    /// Whether recallable tokens must be whitelisted.
    pub closed spec fn spec_restrict_recallable(&self) -> bool {
        self.restrict_recallable
    }

    /// Whether freezable tokens must be whitelisted.
    pub closed spec fn spec_restrict_freezable(&self) -> bool {
        self.restrict_freezable
    }

    /// Minimum divisibility required of tokens.
    pub closed spec fn spec_minimum_divisibility(&self) -> u8 {
        self.minimum_divisibility
    }

    /// The lists hold each address once.
    pub closed spec fn wf(&self) -> bool {
        self.white_list.wf() && self.black_list.wf()
    }

    /// A validator with empty lists that restricts recallable and freezable tokens and asks
    /// for a divisibility of at least 6.
    pub fn new_local() -> (r: TokenValidator)
        ensures
            r.wf(),
            r.white() == Set::<ResourceAddress>::empty(),
            r.black() == Set::<ResourceAddress>::empty(),
            r.spec_restrict_recallable(),
            r.spec_restrict_freezable(),
            r.spec_minimum_divisibility() == 6,
    {
        TokenValidator {
            white_list: AddressSet::new(),
            black_list: AddressSet::new(),
            restrict_recallable: true,
            restrict_freezable: true,
            minimum_divisibility: 6,
        }
    }

    /// Put `resource_address` on the whitelist when `contain`, take it off otherwise.
    pub fn update_white_list(&mut self, resource_address: ResourceAddress, contain: bool)
        requires
            old(self).wf(),
        ensures
            final(self).wf(),
            final(self).white() == (if contain { old(self).white().insert(resource_address) } else {
                old(self).white().remove(resource_address)
            }),
            final(self).black() == old(self).black(),
            final(self).spec_restrict_recallable() == old(self).spec_restrict_recallable(),
            final(self).spec_restrict_freezable() == old(self).spec_restrict_freezable(),
            final(self).spec_minimum_divisibility() == old(self).spec_minimum_divisibility(),
    {
        if contain {
            self.white_list.insert(resource_address);
        } else {
            self.white_list.remove(&resource_address);
        }
    }

    /// Put `resource_address` on the blacklist when `contain`, take it off otherwise.
    pub fn update_black_list(&mut self, resource_address: ResourceAddress, contain: bool)
        requires
            old(self).wf(),
        ensures
            final(self).wf(),
            final(self).black() == (if contain { old(self).black().insert(resource_address) } else {
                old(self).black().remove(resource_address)
            }),
            final(self).white() == old(self).white(),
            final(self).spec_restrict_recallable() == old(self).spec_restrict_recallable(),
            final(self).spec_restrict_freezable() == old(self).spec_restrict_freezable(),
            final(self).spec_minimum_divisibility() == old(self).spec_minimum_divisibility(),
    {
        if contain {
            self.black_list.insert(resource_address);
        } else {
            self.black_list.remove(&resource_address);
        }
    }

    /// Set whether recallable tokens must be whitelisted.
    pub fn set_restrict_recallable(&mut self, restrict: bool)
        ensures
            final(self).spec_restrict_recallable() == restrict,
            final(self).white() == old(self).white(),
            final(self).black() == old(self).black(),
            final(self).wf() == old(self).wf(),
            final(self).spec_restrict_freezable() == old(self).spec_restrict_freezable(),
            final(self).spec_minimum_divisibility() == old(self).spec_minimum_divisibility(),
    {
        self.restrict_recallable = restrict;
    }

    /// Set whether freezable tokens must be whitelisted.
    pub fn set_restrict_freezable(&mut self, restrict: bool)
        ensures
            final(self).spec_restrict_freezable() == restrict,
            final(self).white() == old(self).white(),
            final(self).black() == old(self).black(),
            final(self).wf() == old(self).wf(),
            final(self).spec_restrict_recallable() == old(self).spec_restrict_recallable(),
            final(self).spec_minimum_divisibility() == old(self).spec_minimum_divisibility(),
    {
        self.restrict_freezable = restrict;
    }

    /// Set the minimum divisibility required of tokens.
    pub fn set_minimum_divisibility(&mut self, minimum_divisibility: u8)
        ensures
            final(self).spec_minimum_divisibility() == minimum_divisibility,
            final(self).white() == old(self).white(),
            final(self).black() == old(self).black(),
            final(self).wf() == old(self).wf(),
            final(self).spec_restrict_recallable() == old(self).spec_restrict_recallable(),
            final(self).spec_restrict_freezable() == old(self).spec_restrict_freezable(),
    {
        self.minimum_divisibility = minimum_divisibility;
    }

    /// Whether the token is whitelisted.
    pub fn get_white_listed(&self, token_address: ResourceAddress) -> (r: bool)
        ensures
            r == self.white().contains(token_address),
    {
        self.white_list.contains(&token_address)
    }

    /// Whether the token is blacklisted.
    pub fn get_black_listed(&self, token_address: ResourceAddress) -> (r: bool)
        ensures
            r == self.black().contains(token_address),
    {
        self.black_list.contains(&token_address)
    }

    /// Whether recallable tokens must be whitelisted.
    pub fn get_restrict_recallable(&self) -> (r: bool)
        ensures
            r == self.spec_restrict_recallable(),
    {
        self.restrict_recallable
    }

    /// Whether freezable tokens must be whitelisted.
    pub fn get_restrict_freezable(&self) -> (r: bool)
        ensures
            r == self.spec_restrict_freezable(),
    {
        self.restrict_freezable
    }

    /// Minimum divisibility required of tokens.
    pub fn get_minimum_divisibility(&self) -> (r: u8)
        ensures
            r == self.spec_minimum_divisibility(),
    {
        self.minimum_divisibility
    }

    /// Validate a token from its facts: it must not be blacklisted, must be fungible with at
    /// least the minimum divisibility, must be depositable and withdrawable by everyone, and
    /// must be whitelisted to be recallable, freezable, or to have updatable deposit or
    /// withdraw rules while those restrictions are on.
    pub fn validate_token(&self, token_address: ResourceAddress, facts: TokenFacts) -> (r: Result<(), ValidationError>)
        ensures
            r == validation(self.white(), self.black(), self.spec_restrict_recallable(), self.spec_restrict_freezable(),
                self.spec_minimum_divisibility(), token_address, facts),
    {
        if self.black_list.contains(&token_address) {
            return Err(ValidationError::Blacklisted);
        }
        let divisibility = match facts.kind {
            ResourceKind::Fungible(d) => d,
            ResourceKind::NonFungible => return Err(ValidationError::NotFungible),
        };
        let white_listed = self.white_list.contains(&token_address);
        if divisibility < self.minimum_divisibility {
            return Err(ValidationError::NotDivisible);
        }
        let recallable = is_granted(facts.recaller) || is_granted(facts.recaller_updater);
        if self.restrict_recallable && recallable && !white_listed {
            return Err(ValidationError::RecallableNotWhitelisted);
        }
        let freezable = is_granted(facts.freezer) || is_granted(facts.freezer_updater);
        if self.restrict_freezable && freezable && !white_listed {
            return Err(ValidationError::FreezableNotWhitelisted);
        }
        if !is_open_to_all(facts.depositor) {
            return Err(ValidationError::NotDepositable);
        }
        if self.restrict_freezable && is_granted(facts.depositor_updater) && !white_listed {
            return Err(ValidationError::DepositUpdatableNotWhitelisted);
        }
        if !is_open_to_all(facts.withdrawer) {
            return Err(ValidationError::NotWithdrawable);
        }
        if self.restrict_freezable && is_granted(facts.withdrawer_updater) && !white_listed {
            return Err(ValidationError::WithdrawUpdatableNotWhitelisted);
        }
        Ok(())
    }
}

} // verus!
