use vstd::prelude::*;
use scrypto::prelude::ResourceAddress;
use scrypto::prelude::ComponentAddress;
use crate::address::{resource_eq, component_eq};
use crate::list::{List, range_of};

verus! {

/// The pair of tokens of a pool: token x and token y.
pub type Pair = (ResourceAddress, ResourceAddress);

/// Pair of the last of the first `k` pools that is `pool`, if any.
pub open spec fn last_pair(pools: Seq<ComponentAddress>, pairs: Seq<Pair>, pool: ComponentAddress, k: int) -> Option<Pair>
    decreases k,
{
    if k <= 0 {
        None
    } else if pools[k - 1] == pool {
        Some(pairs[k - 1])
    } else {
        last_pair(pools, pairs, pool, k - 1)
    }
}

/// The first `k` pools whose pair is `pair`, in the order they were created.
pub open spec fn pools_with_pair(pools: Seq<ComponentAddress>, pairs: Seq<Pair>, pair: Pair, k: int) -> Seq<ComponentAddress>
    decreases k,
{
    if k <= 0 {
        Seq::empty()
    } else if pairs[k - 1] == pair {
        pools_with_pair(pools, pairs, pair, k - 1).push(pools[k - 1])
    } else {
        pools_with_pair(pools, pairs, pair, k - 1)
    }
}

/// Appending a pool leaves what the first `k` pools say unchanged.
proof fn lemma_prefix_unchanged(pools: Seq<ComponentAddress>, pairs: Seq<Pair>, pool: ComponentAddress, pair: Pair,
    c: ComponentAddress, q: Pair, k: int)
    requires
        0 <= k <= pools.len(),
        pools.len() == pairs.len(),
    ensures
        last_pair(pools.push(pool), pairs.push(pair), c, k) == last_pair(pools, pairs, c, k),
        pools_with_pair(pools.push(pool), pairs.push(pair), q, k) == pools_with_pair(pools, pairs, q, k),
    decreases k,
{
    if k > 0 {
        lemma_prefix_unchanged(pools, pairs, pool, pair, c, q, k - 1);
        assert(pools.push(pool)[k - 1] == pools[k - 1]);
        assert(pairs.push(pair)[k - 1] == pairs[k - 1]);
    }
}

/// After a pool of a pair is registered, looking the pool up gives the pair, other pools
/// keep their pairs, the pair's pools end with the new pool, and other pairs keep their pools.
pub proof fn law_register_then_lookup(pools: Seq<ComponentAddress>, pairs: Seq<Pair>, pool: ComponentAddress,
    pair: Pair, other_pool: ComponentAddress, other_pair: Pair)
    requires
        pools.len() == pairs.len(),
    ensures
        last_pair(pools.push(pool), pairs.push(pair), pool, (pools.len() + 1) as int) == Some(pair),
        other_pool != pool ==> last_pair(pools.push(pool), pairs.push(pair), other_pool, (pools.len() + 1) as int)
            == last_pair(pools, pairs, other_pool, pools.len() as int),
        pools_with_pair(pools.push(pool), pairs.push(pair), pair, (pools.len() + 1) as int) == pools_with_pair(pools, pairs,
            pair, pools.len() as int).push(pool),
        other_pair != pair ==> pools_with_pair(pools.push(pool), pairs.push(pair), other_pair, (pools.len() + 1) as int)
            == pools_with_pair(pools, pairs, other_pair, pools.len() as int),
{
    let n = pools.len() as int;
    lemma_prefix_unchanged(pools, pairs, pool, pair, other_pool, pair, n);
    lemma_prefix_unchanged(pools, pairs, pool, pair, pool, other_pair, n);
    assert(pools.push(pool)[n] == pool);
    assert(pairs.push(pair)[n] == pair);
}

/// Registry of QuantaSwap pools: every pool created, in order, with its token pair, and the
/// token validator that new pools' tokens must pass.
pub struct QuantaSwapFactory {
    token_validator: ComponentAddress,
    pools: List<ComponentAddress>,
    pairs: Vec<Pair>,
}

impl QuantaSwapFactory {
    /// Pools in the order they were created.
    pub closed spec fn pools(&self) -> Seq<ComponentAddress> {
        self.pools.items()
    }

    /// Token pairs of the pools, in the same order.
    pub closed spec fn pairs(&self) -> Seq<Pair> {
        self.pairs@
    }

    /// The token validator's address.
    pub closed spec fn validator(&self) -> ComponentAddress {
        self.token_validator
    }

    /// Each pool has its pair, and the pools can be counted.
    pub closed spec fn wf(&self) -> bool {
        &&& self.pools.items().len() == self.pairs@.len()
        &&& self.pools.items().len() <= u64::MAX
    }

    /// The pair of `pool`.
    pub open spec fn pair_of(&self, pool: ComponentAddress) -> Option<Pair> {
        last_pair(self.pools(), self.pairs(), pool, self.pools().len() as int)
    }

    /// The pools of `pair`, in the order they were created.
    pub open spec fn pools_of(&self, pair: Pair) -> Seq<ComponentAddress> {
        pools_with_pair(self.pools(), self.pairs(), pair, self.pools().len() as int)
    }

    /// A factory without pools using the given token validator.
    pub fn new(token_validator_address: ComponentAddress) -> (r: QuantaSwapFactory)
        ensures
            r.wf(),
            r.pools() == Seq::<ComponentAddress>::empty(),
            r.validator() == token_validator_address,
    {
        QuantaSwapFactory { token_validator: token_validator_address, pools: List::new(), pairs: Vec::new() }
    }

    /// Use another token validator.
    pub fn set_token_validator(&mut self, token_validator_address: ComponentAddress)
        ensures
            final(self).validator() == token_validator_address,
            final(self).pools() == old(self).pools(),
            final(self).pairs() == old(self).pairs(),
            final(self).wf() == old(self).wf(),
    {
        self.token_validator = token_validator_address;
    }

    /// The token validator's address.
    pub fn get_token_validator_address(&self) -> (r: ComponentAddress)
        ensures
            r == self.validator(),
    {
        self.token_validator
    }

    /// Number of pools.
    pub fn get_pool_count(&self) -> (r: u64)
        requires
            self.wf(),
        ensures
            r == self.pools().len(),
    {
        self.pools.len()
    }

    /// Pools numbered `start` (0 by default, included) to `end` (the count by default,
    /// excluded).
    pub fn get_pools(&self, start: Option<u64>, end: Option<u64>) -> (r: Vec<ComponentAddress>)
        requires
            self.wf(),
        ensures
            r@ == range_of(self.pools(), match start {
                Some(s) => s,
                None => 0,
            }, match end {
                Some(e) => e,
                None => self.pools().len() as u64,
            }),
    {
        let start = match start {
            Some(s) => s,
            None => 0,
        };
        let end = match end {
            Some(e) => e,
            None => self.pools.len(),
        };
        self.pools.range(start, end)
    }

    /// Token pair of a pool; `None` for an unknown pool.
    pub fn get_pool_pair(&self, pool_address: ComponentAddress) -> (r: Option<Pair>)
        requires
            self.wf(),
        ensures
            r == self.pair_of(pool_address),
    {
        let mut k: u64 = self.pools.len();
        let plen: usize = self.pairs.len();
        while k > 0
            invariant
                self.wf(),
                plen == self.pairs@.len(),
                k <= self.pools.items().len(),
                last_pair(self.pools(), self.pairs(), pool_address, self.pools().len() as int)
                    == last_pair(self.pools(), self.pairs(), pool_address, k as int),
            decreases k,
        {
            let p = self.pools.get(k - 1).unwrap();
            if component_eq(&p, &pool_address) {
                let j: usize = (k - 1) as usize;
                assert(j == k - 1);
                return Some(self.pairs[j]);
            }
            k = k - 1;
        }
        None
    }

    /// Pools of the token pair `(token_x_address, token_y_address)`, in the order they were
    /// created, numbered `start` (0 by default, included) to `end` (their count by default,
    /// excluded).
    pub fn get_pools_by_pair(&self, token_x_address: ResourceAddress, token_y_address: ResourceAddress, start: Option<u64>, end: Option<u64>) -> (r: Vec<ComponentAddress>)
        requires
            self.wf(),
        ensures
            ({
                let of_pair = self.pools_of((token_x_address, token_y_address));
                r@ == range_of(of_pair, match start {
                    Some(s) => s,
                    None => 0,
                }, match end {
                    Some(e) => e,
                    None => of_pair.len() as u64,
                })
            }),
    {
        let ghost pair = (token_x_address, token_y_address);
        let mut found: List<ComponentAddress> = List::new();
        let n = self.pools.len();
        let plen: usize = self.pairs.len();
        let mut i: u64 = 0;
        while i < n
            invariant
                self.wf(),
                plen == self.pairs@.len(),
                pair == (token_x_address, token_y_address),
                n == self.pools().len(),
                i <= n,
                found.items() == pools_with_pair(self.pools(), self.pairs(), pair, i as int),
                found.items().len() <= i,
            decreases n - i,
        {
            let j: usize = i as usize;
            assert(j == i);
            let (x, y) = self.pairs[j];
            let ghost prev = found.items();
            if resource_eq(&x, &token_x_address) && resource_eq(&y, &token_y_address) {
                let p = self.pools.get(i).unwrap();
                found.push(p);
                proof {
                    assert(self.pairs()[i as int] == pair);
                    assert(pools_with_pair(self.pools(), self.pairs(), pair, i + 1) == prev.push(self.pools()[i as int]));
                }
            } else {
                proof {
                    assert(self.pairs()[i as int] != pair);
                    assert(pools_with_pair(self.pools(), self.pairs(), pair, i + 1) == prev);
                }
            }
            i = i + 1;
        }
        let start = match start {
            Some(s) => s,
            None => 0,
        };
        let end = match end {
            Some(e) => e,
            None => found.len(),
        };
        found.range(start, end)
    }

    /// Record a new pool of the token pair `(token_x_address, token_y_address)`.
    pub fn register_pool(&mut self, pool_address: ComponentAddress, token_x_address: ResourceAddress, token_y_address: ResourceAddress)
        requires
            old(self).wf(),
            old(self).pools().len() < u64::MAX,
        ensures
            final(self).wf(),
            final(self).pools() == old(self).pools().push(pool_address),
            final(self).pairs() == old(self).pairs().push((token_x_address, token_y_address)),
            final(self).validator() == old(self).validator(),
    {
        self.pools.push(pool_address);
        self.pairs.push((token_x_address, token_y_address));
    }
}

} // verus!
