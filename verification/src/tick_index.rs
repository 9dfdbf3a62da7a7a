use vstd::prelude::*;
use vstd::std_specs::bits::u64_trailing_zeros;
use vstd::std_specs::bits::u64_leading_zeros;
use vstd::hash_map::HashMapWithView;
use crate::tick::Tick;
use crate::bits::{has_bit, lemma_shr_bit, lemma_shl_bit, lemma_mask_bits, lemma_trailing_zeros, lemma_leading_zeros, lemma_zero_iff_no_bits, lemma_bits_ext};

verus! {

/// Index node: a 64-bit map recording which of 64 consecutive children (ticks, or lower
/// index nodes) hold at least one tick.
#[derive(Clone, Copy, Debug)]
pub struct IndexNode {
    index: u64,
}

impl IndexNode {
    /// Size of index in index node.
    pub const INDEX_SIZE: u32 = 64;
    /// Mask for getting factor from value.
    pub const FACTOR_MASK: u32 = 63;

    /// The bit word of the node.
    pub closed spec fn word(self) -> u64 {
        self.index
    }

    /// Bit `i` of the node is set.
    pub open spec fn has(self, i: u64) -> bool {
        has_bit(self.word(), i)
    }

    /// Create a node holding only the bit of `value % 64`.
    pub fn new(value: u32) -> (r: IndexNode)
        ensures
            forall|i: u64| i < 64 ==> #[trigger] r.has(i) == (i == value % 64),
    {
        let factor: u32 = value & 63;
        proof {
            lemma_low_bits(value);
        }
        let mask: u64 = 1u64 << factor;
        let r = IndexNode { index: mask };
        proof {
            assert forall|i: u64| i < 64 implies #[trigger] r.has(i) == (i == value % 64) by {
                lemma_mask_bits(0, factor as u64, i);
            }
        }
        r
    }

    /// The lowest set bit of the node, `None` when the node is empty.
    pub fn first(&self) -> (r: Option<u32>)
        ensures
            r is None <==> (forall|i: u64| i < 64 ==> !#[trigger] self.has(i)),
            r matches Some(b) ==> b < 64 && self.has(b as u64) && (forall|i: u64|
                i < b ==> !#[trigger] self.has(i)),
    {
        proof {
            lemma_trailing_zeros(self.index);
            lemma_node_empty(*self);
        }
        if self.index > 0 {
            Some(self.index.trailing_zeros())
        } else {
            None
        }
    }

    /// The highest set bit of the node, `None` when the node is empty.
    pub fn last(&self) -> (r: Option<u32>)
        ensures
            r is None <==> (forall|i: u64| i < 64 ==> !#[trigger] self.has(i)),
            r matches Some(b) ==> b < 64 && self.has(b as u64) && (forall|i: u64|
                b < i < 64 ==> !#[trigger] self.has(i)),
    {
        proof {
            lemma_leading_zeros(self.index);
            lemma_node_empty(*self);
        }
        if self.index > 0 {
            let lz = self.index.leading_zeros();
            Some(63 - lz)
        } else {
            None
        }
    }

    /// The lowest set bit above bit `value % 64`, `None` when there is none.
    pub fn next(&self, value: u32) -> (r: Option<u32>)
        ensures
            r matches Some(b) ==> value % 64 < b < 64 && self.has(b as u64) && (forall|i: u64|
                value % 64 < i < b ==> !#[trigger] self.has(i)),
            r is None ==> (forall|i: u64| value % 64 < i < 64 ==> !#[trigger] self.has(i)),
    {
        let factor: u32 = value & 63;
        proof {
            lemma_low_bits(value);
        }
        let pos: u32 = factor + 1;
        if pos == 64 {
            return None;
        }
        let index_after: u64 = self.index >> pos;
        proof {
            lemma_trailing_zeros(index_after);
            assert forall|j: u64| j < 64 implies #[trigger] has_bit(index_after, j) == (pos + j
                < 64 && self.has((pos + j) as u64)) by {
                lemma_shr_bit(self.index, pos as u64, j);
            }
        }
        if index_after > 0 {
            let tz = index_after.trailing_zeros();
            proof {
                assert forall|i: u64| value % 64 < i < tz + pos implies !#[trigger] self.has(i) by {
                    assert(!has_bit(index_after, (i - pos) as u64));
                }
            }
            Some(tz + pos)
        } else {
            proof {
                lemma_zero_iff_no_bits(index_after);
                assert forall|i: u64| value % 64 < i < 64 implies !#[trigger] self.has(i) by {
                    assert(!has_bit(index_after, (i - pos) as u64));
                }
            }
            None
        }
    }

    /// The highest set bit below bit `value % 64`, `None` when there is none.
    pub fn prev(&self, value: u32) -> (r: Option<u32>)
        ensures
            r matches Some(b) ==> b < value % 64 && self.has(b as u64) && (forall|i: u64|
                b < i < value % 64 ==> !#[trigger] self.has(i)),
            r is None ==> (forall|i: u64| i < value % 64 ==> !#[trigger] self.has(i)),
    {
        let factor: u32 = value & 63;
        proof {
            lemma_low_bits(value);
        }
        if factor == 0 {
            return None;
        }
        let pos: u32 = factor - 1;
        let index_after: u64 = self.index << (64 - factor);
        let s: u64 = (64 - factor) as u64;
        proof {
            lemma_leading_zeros(index_after);
            assert forall|i: u64| i < 64 implies #[trigger] has_bit(index_after, i) == (i >= s
                && self.has((i - s) as u64)) by {
                lemma_shl_bit(self.index, s, i);
            }
        }
        if index_after > 0 {
            let lz = index_after.leading_zeros();
            proof {
                let top = (63 - lz) as u64;
                assert(has_bit(index_after, top));
                assert forall|i: u64| pos - lz < i < value % 64 implies !#[trigger] self.has(i) by {
                    assert(!has_bit(index_after, (i + s) as u64));
                }
            }
            Some(pos - lz)
        } else {
            proof {
                lemma_zero_iff_no_bits(index_after);
                assert forall|i: u64| i < value % 64 implies !#[trigger] self.has(i) by {
                    assert(!has_bit(index_after, (i + s) as u64));
                }
            }
            None
        }
    }

    /// Set bit `value % 64`; true when it was not set before.
    pub fn insert(&mut self, value: u32) -> (r: bool)
        ensures
            forall|i: u64| i < 64 ==> #[trigger] final(self).has(i) == (old(self).has(i) || i
                == value % 64),
            r == !old(self).has((value % 64) as u64),
    {
        let factor: u32 = value & 63;
        proof {
            lemma_low_bits(value);
        }
        let mask: u64 = 1u64 << factor;
        let contains: bool = self.index & mask == mask;
        proof {
            lemma_mask_bits(self.index, factor as u64, 0);
        }
        let ghost before = self.index;
        self.index = self.index | mask;
        proof {
            assert forall|i: u64| i < 64 implies #[trigger] has_bit(self.index, i) == (has_bit(
                before,
                i,
            ) || i == value % 64) by {
                lemma_mask_bits(before, factor as u64, i);
            }
        }
        !contains
    }

    /// Clear bit `value % 64`; true when it was the only set bit.
    pub fn remove(&mut self, value: u32) -> (r: bool)
        ensures
            forall|i: u64| i < 64 ==> #[trigger] final(self).has(i) == (old(self).has(i) && i
                != value % 64),
            r == (forall|i: u64| i < 64 ==> #[trigger] old(self).has(i) == (i == value % 64)),
    {
        let factor: u32 = value & 63;
        proof {
            lemma_low_bits(value);
        }
        let mask: u64 = 1u64 << factor;
        let only: bool = self.index == mask;
        let ghost before = self.index;
        proof {
            assert forall|i: u64| i < 64 implies #[trigger] has_bit(mask, i) == (i == value % 64) by {
                lemma_mask_bits(before, factor as u64, i);
            }
            if forall|i: u64| i < 64 ==> #[trigger] old(self).has(i) == (i == value % 64) {
                assert forall|i: u64| i < 64 implies #[trigger] has_bit(before, i) == has_bit(mask, i) by {
                    assert(old(self).has(i) == (i == value % 64));
                }
                lemma_bits_ext(before, mask);
            }
            if only {
                assert forall|i: u64| i < 64 implies #[trigger] old(self).has(i) == (i == value % 64) by {
                    assert(has_bit(mask, i) == (i == value % 64));
                }
            }
        }
        self.index = self.index & !mask;
        proof {
            assert forall|i: u64| i < 64 implies #[trigger] has_bit(self.index, i) == (has_bit(
                before,
                i,
            ) && i != value % 64) by {
                lemma_mask_bits(before, factor as u64, i);
            }
        }
        only
    }
}

/// A node is empty exactly when its word is zero.
proof fn lemma_node_empty(n: IndexNode)
    ensures
        (n.word() == 0) == (forall|i: u64| i < 64 ==> !#[trigger] n.has(i)),
{
    lemma_zero_iff_no_bits(n.word());
    if n.word() != 0 {
        let i = choose|i: u64| i < 64 && #[trigger] has_bit(n.word(), i);
        assert(n.has(i));
    } else {
        assert forall|i: u64| i < 64 implies !#[trigger] n.has(i) by {
            assert(!has_bit(n.word(), i));
        }
    }
}

/// The low six bits of a value are its remainder modulo 64.
proof fn lemma_low_bits(v: u32)
    ensures
        v & 63 == v % 64,
        v & 63 < 64,
{
    assert(v & 63 == v % 64 && v & 63 < 64) by (bit_vector);
}

/// Flag bit that marks a node key as a tick key; ticks use the bits below it.
pub open spec fn key_flag() -> int {
    262144
}

/// Width of the tick range covered by one child of a node at height `h` (height 1 nodes
/// hold ticks, height 3 is the root).
pub open spec fn span(h: int) -> int {
    if h <= 0 {
        1
    } else if h == 1 {
        64
    } else if h == 2 {
        4096
    } else {
        262144
    }
}

/// Word of the node stored under key `k`; an absent node reads as empty.
pub closed spec fn node_word(m: Map<u32, IndexNode>, k: int) -> u64 {
    if 0 <= k <= u32::MAX && m.contains_key(k as u32) {
        m[k as u32].word()
    } else {
        0
    }
}

/// Bit `b` of the node stored under key `k`.
pub open spec fn node_has(m: Map<u32, IndexNode>, k: int, b: int) -> bool {
    has_bit(node_word(m, k), b as u64)
}

/// The ticks recorded in a node map: tick `t` is present when its bit is set in the node at
/// key `(t + FLAG) / 64`.
pub open spec fn tick_set(m: Map<u32, IndexNode>) -> Set<u32> {
    Set::new(|t: u32| t < key_flag() && node_has(m, (t + key_flag()) / 64, (t % 64) as int))
}

/// Every upper node's bit is set exactly when the child node it stands for is non-empty.
pub open spec fn wf_nodes(m: Map<u32, IndexNode>) -> bool {
    forall|k: int, b: int|
        (k == 1 || 64 <= k < 128) && 0 <= b < 64 ==> #[trigger] node_has(m, k, b) == (
        node_word(m, k * 64 + b) != 0)
}

/// `r` is the smallest tick of `s` above `v`, or `None` when there is none.
pub open spec fn is_next_up(s: Set<u32>, v: u32, r: Option<Tick>) -> bool {
    match r {
        Some(t) => s.contains(t.0) && v < t.0 && (forall|u: u32| #[trigger] s.contains(u) && v < u
            ==> t.0 <= u),
        None => forall|u: u32| #[trigger] s.contains(u) ==> u <= v,
    }
}

/// `r` is the largest tick of `s` below `v`, or `None` when there is none.
pub open spec fn is_next_down(s: Set<u32>, v: u32, r: Option<Tick>) -> bool {
    match r {
        Some(t) => s.contains(t.0) && t.0 < v && (forall|u: u32| #[trigger] s.contains(u) && u < v
            ==> u <= t.0),
        None => forall|u: u32| #[trigger] s.contains(u) ==> v <= u,
    }
}

/// A set bit makes a word non-zero.
proof fn lemma_bit_nonzero(x: u64, i: u64)
    requires
        i < 64,
        has_bit(x, i),
    ensures
        x != 0,
{
    lemma_zero_iff_no_bits(x);
}

/// Division facts about the keys on the path of a tick.
proof fn lemma_path_arith(x: int, h: int)
    requires
        0 <= x,
        1 <= h <= 3,
    ensures
        x / span(h) == (x / span(h - 1)) / 64,
        x / span(h - 1) == (x / span(h)) * 64 + (x / span(h - 1)) % 64,
        0 <= (x / span(h - 1)) % 64 < 64,
{
    vstd::arithmetic::div_mod::lemma_div_denominator(x, span(h - 1), 64);
    vstd::arithmetic::div_mod::lemma_fundamental_div_mod(x / span(h - 1), 64);
    assert(span(h - 1) * 64 == span(h));
}

/// Every ancestor of a recorded tick has the bit that leads towards it.
proof fn lemma_tick_path(m: Map<u32, IndexNode>, u: u32, h: int)
    requires
        wf_nodes(m),
        tick_set(m).contains(u),
        1 <= h <= 3,
    ensures
        node_has(m, (u + key_flag()) / span(h), ((u + key_flag()) / span(h - 1)) % 64),
        node_word(m, (u + key_flag()) / span(h)) != 0,
    decreases h,
{
    let x = u + key_flag();
    lemma_path_arith(x, h);
    if h == 1 {
        assert(x % 64 == u % 64);
    } else {
        lemma_tick_path(m, u, h - 1);
        let c = x / span(h - 1);
        let k = x / span(h);
        assert(k == 1 || 64 <= k < 128) by {
            if h == 2 {
                assert(64 <= k < 128);
            } else {
                assert(k == 1);
            }
        }
        assert(node_has(m, k, c % 64) == (node_word(m, k * 64 + c % 64) != 0));
    }
    lemma_bit_nonzero(node_word(m, x / span(h)), (((x / span(h - 1)) % 64) as u64));
}

/// Key arithmetic on `u32` in bit form.
proof fn lemma_key_bits(x: u32, k: u32, b: u32)
    ensures
        x >> 6 == x / 64,
        x < 262144 ==> x | 262144 == x + 262144,
        k < 8192 && b < 64 ==> (k << 6) | b == k * 64 + b,
        k < 8192 ==> k << 6 == k * 64,
        x < 524288 ==> ((x & 262144 == 262144) == (x >= 262144)),
        262144 <= x < 524288 ==> x & !262144u32 == x - 262144,
{
    assert(x >> 6 == x / 64) by (bit_vector);
    assert(x < 262144 ==> x | 262144 == x + 262144) by (bit_vector);
    assert(k < 8192 && b < 64 ==> (k << 6) | b == k * 64 + b) by (bit_vector);
    assert(k < 8192 ==> k << 6 == k * 64) by (bit_vector);
    assert(x < 524288 ==> ((x & 262144 == 262144) == (x >= 262144))) by (bit_vector);
    assert(262144 <= x < 524288 ==> x & !262144u32 == x - 262144) by (bit_vector);
}

/// Key of the node at height `h` on the path of the tick with flagged key `vf`.
pub open spec fn path_key(vf: int, h: int) -> int {
    vf / span(h)
}

/// Bit of the node at height `h` on the path of the tick with flagged key `vf`.
pub open spec fn path_bit(vf: int, h: int) -> int {
    (vf / span(h - 1)) % 64
}

/// `k` is the key of one of the path nodes below height `h`.
pub open spec fn on_path_below(vf: int, k: int, h: int) -> bool {
    (h > 1 && k == path_key(vf, 1)) || (h > 2 && k == path_key(vf, 2)) || (h > 3 && k
        == path_key(vf, 3))
}

/// The path keys of a tick sit at their heights, and a key of a height sits on the path
/// of the tick exactly when it is the path key.
proof fn lemma_path_keys(vf: int)
    requires
        key_flag() <= vf < 2 * key_flag(),
    ensures
        4096 <= path_key(vf, 1) < 8192,
        64 <= path_key(vf, 2) < 128,
        path_key(vf, 3) == 1,
        path_key(vf, 1) == path_key(vf, 2) * 64 + path_bit(vf, 2),
        path_key(vf, 2) == path_key(vf, 3) * 64 + path_bit(vf, 3),
        vf == path_key(vf, 1) * 64 + path_bit(vf, 1),
        0 <= path_bit(vf, 1) < 64,
        0 <= path_bit(vf, 2) < 64,
        0 <= path_bit(vf, 3) < 64,
{
    lemma_path_arith(vf, 1);
    lemma_path_arith(vf, 2);
    lemma_path_arith(vf, 3);
}

/// After the path bits of a tick are set up to height `hh` (and, below the top, the bit at
/// `hh` was already set), the nodes are well formed and record one more tick.
proof fn lemma_insert_result(m0: Map<u32, IndexNode>, m: Map<u32, IndexNode>, vf: int, hh: int)
    requires
        wf_nodes(m0),
        key_flag() <= vf < 2 * key_flag(),
        1 <= hh <= 3,
        forall|k: int| !on_path_below(vf, k, hh + 1) ==> #[trigger] node_word(m, k) == node_word(
            m0,
            k,
        ),
        forall|j: int, b: int|
            1 <= j <= hh && 0 <= b < 64 ==> #[trigger] node_has(m, path_key(vf, j), b) == (
            node_has(m0, path_key(vf, j), b) || b == path_bit(vf, j)),
        hh == 3 || node_has(m0, path_key(vf, hh), path_bit(vf, hh)),
    ensures
        wf_nodes(m),
        tick_set(m) == tick_set(m0).insert((vf - key_flag()) as u32),
{
    lemma_path_keys(vf);
    let v = (vf - key_flag()) as u32;
    // Path nodes keep their old bits, so a node non-empty before stays non-empty.
    assert forall|k: int| #![auto] node_word(m0, k) != 0 ==> node_word(m, k) != 0 by {
        if node_word(m0, k) != 0 && on_path_below(vf, k, hh + 1) {
            lemma_zero_iff_no_bits(node_word(m0, k));
            let b = choose|b: u64| b < 64 && #[trigger] has_bit(node_word(m0, k), b);
            let j = if k == path_key(vf, 1) {
                1int
            } else if k == path_key(vf, 2) {
                2int
            } else {
                3int
            };
            assert(node_has(m, path_key(vf, j), b as int));
            lemma_bit_nonzero(node_word(m, k), b);
        }
    }
    // Path nodes at heights up to `hh` hold their path bit.
    assert forall|j: int| 1 <= j <= hh implies #[trigger] node_word(m, path_key(vf, j)) != 0 by {
        assert(node_has(m, path_key(vf, j), path_bit(vf, j)));
        lemma_bit_nonzero(node_word(m, path_key(vf, j)), path_bit(vf, j) as u64);
    }
    assert forall|k: int, b: int| (k == 1 || 64 <= k < 128) && 0 <= b < 64 implies #[trigger] node_has(
        m,
        k,
        b,
    ) == (node_word(m, k * 64 + b) != 0) by {
        let c = k * 64 + b;
        let hk = if k == 1 { 3int } else { 2int };
        assert(k == path_key(vf, hk) ==> c == path_key(vf, hk - 1) || b != path_bit(vf, hk));
        assert(c == path_key(vf, hk - 1) ==> k == path_key(vf, hk) && b == path_bit(vf, hk));
        assert(node_has(m0, k, b) == (node_word(m0, c) != 0));
        if k == path_key(vf, hk) && hk <= hh {
            assert(node_has(m, path_key(vf, hk), b) == (node_has(m0, path_key(vf, hk), b) || b
                == path_bit(vf, hk)));
            if b == path_bit(vf, hk) {
                assert(node_word(m, path_key(vf, hk - 1)) != 0);
            } else {
                assert(!on_path_below(vf, c, hh + 1));
            }
        } else if k == path_key(vf, hk) {
            assert(!on_path_below(vf, k, hh + 1));
            if c == path_key(vf, hk - 1) {
                // The path was already present from height `hh` upwards.
                assert(node_has(m0, path_key(vf, hh), path_bit(vf, hh)));
                lemma_bit_nonzero(node_word(m0, path_key(vf, hh)), path_bit(vf, hh) as u64);
                if hk - 1 > hh {
                    assert(node_has(m0, path_key(vf, 2), path_bit(vf, 2)) == (node_word(
                        m0,
                        path_key(vf, 2) * 64 + path_bit(vf, 2),
                    ) != 0));
                    lemma_bit_nonzero(node_word(m0, path_key(vf, 2)), path_bit(vf, 2) as u64);
                }
                assert(node_word(m0, c) != 0);
            } else {
                assert(!on_path_below(vf, c, hh + 1));
            }
        } else {
            assert(!on_path_below(vf, k, hh + 1));
            assert(!on_path_below(vf, c, hh + 1));
        }
    }
    assert forall|t: u32| #[trigger] tick_set(m).contains(t) == tick_set(m0).insert(v).contains(t) by {
        if t < key_flag() {
            let lk = (t + key_flag()) / 64;
            if lk == path_key(vf, 1) {
                assert(node_has(m, path_key(vf, 1), (t % 64) as int) == (node_has(
                    m0,
                    path_key(vf, 1),
                    (t % 64) as int,
                ) || t % 64 == path_bit(vf, 1)));
            } else {
                assert(!on_path_below(vf, lk, hh + 1));
                assert(t != v);
            }
        }
    }
    assert(tick_set(m) =~= tick_set(m0).insert(v));
}

/// Tick `t` lies in the aligned block of height `h` (64, 4096 or all ticks) around `v`.
pub open spec fn in_block(t: u32, v: u32, h: int) -> bool {
    (t + key_flag()) / span(h) == (v + key_flag()) / span(h)
}

/// Height of the smallest aligned block around `v` that holds a tick of `s` (the whole
/// tick range when none does).
pub open spec fn removal_level(s: Set<u32>, v: u32) -> int {
    if exists|t: u32| #[trigger] s.contains(t) && in_block(t, v, 1) {
        1
    } else if exists|t: u32| #[trigger] s.contains(t) && in_block(t, v, 2) {
        2
    } else {
        3
    }
}

/// The tick that becomes current when the current tick `v` is removed and `s` remain:
/// within the smallest aligned block around `v` that still holds ticks, the next tick above
/// `v`, or when there is none the next tick below `v`; `None` when no tick remains.
pub open spec fn is_replacement(s: Set<u32>, v: u32, r: Option<Tick>) -> bool {
    let h = removal_level(s, v);
    match r {
        Some(t) => s.contains(t.0) && in_block(t.0, v, h) && ((v < t.0 && forall|u: u32|
            #[trigger] s.contains(u) && in_block(u, v, h) && v < u ==> t.0 <= u) || (t.0 < v
            && forall|u: u32| #[trigger] s.contains(u) && in_block(u, v, h) ==> u <= t.0)),
        None => s == Set::<u32>::empty(),
    }
}

/// Stepping down from a tick of the index to the next lower one and then up again comes
/// back to the tick.
pub proof fn law_next_down_then_up(s: Set<u32>, t: u32, d: Tick)
    requires
        s.contains(t),
        is_next_down(s, t, Some(d)),
    ensures
        is_next_up(s, d.0, Some(Tick(t))),
{
}

/// Stepping up from a tick of the index to the next higher one and then down again comes
/// back to the tick.
pub proof fn law_next_up_then_down(s: Set<u32>, t: u32, u: Tick)
    requires
        s.contains(t),
        is_next_up(s, t, Some(u)),
    ensures
        is_next_down(s, u.0, Some(Tick(t))),
{
}

/// Removing a tick that was just inserted into an index that did not hold it gives back the
/// index's ticks.
pub proof fn law_insert_then_remove(s: Set<u32>, t: u32)
    requires
        !s.contains(t),
    ensures
        s.insert(t).remove(t) == s,
{
    assert(s.insert(t).remove(t) =~= s);
}

/// No recorded tick lies in the block of an empty path node.
proof fn lemma_block_empty(m: Map<u32, IndexNode>, v: u32, j: int)
    requires
        wf_nodes(m),
        v < key_flag(),
        1 <= j <= 3,
        node_word(m, path_key(v + key_flag(), j)) == 0,
    ensures
        forall|u: u32| #[trigger] tick_set(m).contains(u) ==> !in_block(u, v, j),
{
    assert forall|u: u32| #[trigger] tick_set(m).contains(u) implies !in_block(u, v, j) by {
        lemma_tick_path(m, u, j);
    }
}

/// After the path bits of a tick are cleared up to height `hh`, with the nodes below `hh`
/// left empty and the node at `hh` non-empty unless it is the root, the nodes are well
/// formed and record one tick less.
proof fn lemma_remove_result(m0: Map<u32, IndexNode>, m: Map<u32, IndexNode>, vf: int, hh: int)
    requires
        wf_nodes(m0),
        key_flag() <= vf < 2 * key_flag(),
        tick_set(m0).contains((vf - key_flag()) as u32),
        1 <= hh <= 3,
        forall|k: int| !on_path_below(vf, k, hh + 1) ==> #[trigger] node_word(m, k) == node_word(
            m0,
            k,
        ),
        forall|j: int, b: int|
            1 <= j <= hh && 0 <= b < 64 ==> #[trigger] node_has(m, path_key(vf, j), b) == (
            node_has(m0, path_key(vf, j), b) && b != path_bit(vf, j)),
        forall|j: int| 1 <= j < hh ==> #[trigger] node_word(m, path_key(vf, j)) == 0,
        hh == 3 || node_word(m, path_key(vf, hh)) != 0,
    ensures
        wf_nodes(m),
        tick_set(m) == tick_set(m0).remove((vf - key_flag()) as u32),
{
    lemma_path_keys(vf);
    let v = (vf - key_flag()) as u32;
    assert forall|j: int| 1 <= j <= 3 implies #[trigger] node_word(m0, path_key(vf, j)) != 0 by {
        lemma_tick_path(m0, v, j);
    }
    assert forall|k: int, b: int| (k == 1 || 64 <= k < 128) && 0 <= b < 64 implies #[trigger] node_has(
        m,
        k,
        b,
    ) == (node_word(m, k * 64 + b) != 0) by {
        let c = k * 64 + b;
        let hk = if k == 1 { 3int } else { 2int };
        assert(k == path_key(vf, hk) ==> c == path_key(vf, hk - 1) || b != path_bit(vf, hk));
        assert(c == path_key(vf, hk - 1) ==> k == path_key(vf, hk) && b == path_bit(vf, hk));
        assert(node_has(m0, k, b) == (node_word(m0, c) != 0));
        if k == path_key(vf, hk) && hk <= hh {
            assert(node_has(m, path_key(vf, hk), b) == (node_has(m0, path_key(vf, hk), b) && b
                != path_bit(vf, hk)));
            if b == path_bit(vf, hk) {
                assert(node_word(m, path_key(vf, hk - 1)) == 0);
            } else {
                assert(!on_path_below(vf, c, hh + 1));
            }
        } else if k == path_key(vf, hk) {
            assert(!on_path_below(vf, k, hh + 1));
            if c == path_key(vf, hk - 1) {
                lemma_tick_path(m0, v, hk);
                if hk - 1 > hh {
                    assert(!on_path_below(vf, c, hh + 1));
                }
                assert(node_word(m, c) != 0);
            } else {
                assert(!on_path_below(vf, c, hh + 1));
            }
        } else {
            assert(!on_path_below(vf, k, hh + 1));
            assert(!on_path_below(vf, c, hh + 1));
        }
    }
    assert forall|t: u32| #[trigger] tick_set(m).contains(t) == tick_set(m0).remove(v).contains(t) by {
        if t < key_flag() {
            let lk = (t + key_flag()) / 64;
            if lk == path_key(vf, 1) {
                assert(node_has(m, path_key(vf, 1), (t % 64) as int) == (node_has(
                    m0,
                    path_key(vf, 1),
                    (t % 64) as int,
                ) && t % 64 != path_bit(vf, 1)));
            } else {
                assert(!on_path_below(vf, lk, hh + 1));
                assert(t != v);
            }
        }
    }
    assert(tick_set(m) =~= tick_set(m0).remove(v));
}

/// Index of ticks for all active liquidity positions: a three-level tree of 64-bit index
/// nodes over tick values below `KEY_FLAG`, and the current tick.
pub struct TickIndex {
    kvs: HashMapWithView<u32, IndexNode>,
    current: Option<Tick>,
}

impl TickIndex {
    /// Shift for getting next node key.
    pub const FACTOR_SHIFT: u32 = 6;
    /// Number of used tick bits. Must be multiple of FACTOR_SHIFT.
    pub const TICK_BITS_USED: u32 = 18;
    /// Flag for getting key from value, used to make keys unique.
    pub const KEY_FLAG: u32 = 262144;

    /// The ticks held by the index.
    pub closed spec fn ticks(&self) -> Set<u32> {
        tick_set(self.kvs@)
    }

    /// The current tick.
    pub closed spec fn current_tick(&self) -> Option<Tick> {
        self.current
    }

    /// Well-formedness: upper nodes mirror their children, and the current tick is one of the
    /// ticks (there is one whenever the index is not empty).
    pub closed spec fn wf(&self) -> bool {
        &&& wf_nodes(self.kvs@)
        &&& match self.current {
            Some(c) => self.ticks().contains(c.0),
            None => self.ticks() == Set::<u32>::empty(),
        }
    }

    /// In a well-formed index the current tick is one of the ticks, there is one whenever
    /// the index is not empty, and all ticks lie below `KEY_FLAG`.
    pub proof fn lemma_wf(&self)
        requires
            self.wf(),
        ensures
            self.current_tick() matches Some(c) ==> self.ticks().contains(c.0),
            self.current_tick() is None ==> self.ticks() == Set::<u32>::empty(),
            forall|t: u32| #[trigger] self.ticks().contains(t) ==> t < Self::KEY_FLAG,
    {
    }

    /// Get the current tick.
    pub fn current(&self) -> (r: Option<Tick>)
        ensures
            r == self.current_tick(),
    {
        self.current
    }

    /// The smallest tick in the index above `value`.
    pub fn next_up(&self, value: Tick) -> (r: Option<Tick>)
        requires
            self.wf(),
            value.0 < Self::KEY_FLAG,
        ensures
            is_next_up(self.ticks(), value.0, r),
    {
        let ghost m = self.kvs@;
        let ghost s = self.ticks();
        let ghost vf: int = value.0 + key_flag();
        let v: u32 = value.0;
        proof {
            lemma_key_bits(v, 0, 0);
        }
        let mut node_key: u32 = v | 262144;
        proof {
            lemma_key_bits(node_key, 0, 0);
        }
        let mut parent_node_key: u32 = node_key >> 6;
        let ghost mut h: int = 1;
        loop
            invariant
                wf_nodes(m),
                m == self.kvs@,
                s == tick_set(m),
                vf == v + key_flag(),
                v == value.0,
                v < key_flag(),
                1 <= h <= 3,
                node_key == vf / span(h - 1),
                parent_node_key == vf / span(h),
                forall|u: u32| #[trigger] s.contains(u) && v < u ==> u + key_flag() >= (
                    node_key + 1) * span(h - 1),
            decreases 3 - h,
        {
            proof {
                lemma_path_arith(vf, h);
                lemma_height_range(vf, h);
            }
            let found: Option<u32> = match self.kvs.get(&parent_node_key) {
                Some(parent_node) => {
                    let n = parent_node.next(node_key);
                    proof {
                        assert(node_word(m, parent_node_key as int) == parent_node.word());
                        match n {
                            Some(b) => {
                                assert forall|i: int| node_key % 64 < i < b implies !#[trigger] node_has(
                                    m, parent_node_key as int, i) by {
                                    assert(!parent_node.has(i as u64));
                                }
                            },
                            None => {
                                assert forall|i: int| node_key % 64 < i < 64 implies !#[trigger] node_has(
                                    m, parent_node_key as int, i) by {
                                    assert(!parent_node.has(i as u64));
                                }
                            },
                        }
                    }
                    n
                },
                None => {
                    proof {
                        assert(node_word(m, parent_node_key as int) == 0);
                        lemma_zero_iff_no_bits(0);
                        assert forall|i: int| node_key % 64 < i < 64 implies !#[trigger] node_has(
                            m, parent_node_key as int, i) by {
                            assert(!has_bit(0, i as u64));
                        }
                    }
                    None
                },
            };
            match found {
                Some(first_next) => {
                    let mut next: u32 = first_next;
                    let ghost mut g: int = h - 1;
                    proof {
                        assert forall|u: u32| #[trigger] s.contains(u) && v < u implies u
                            + key_flag() >= (parent_node_key * 64 + next) * span(h - 1) by {
                            let x = u + key_flag();
                            if x < (parent_node_key * 64 + next) * span(h - 1) {
                                lemma_tick_path(m, u, h);
                                lemma_path_arith(x, h);
                                lemma_child_of(x, span(h - 1), node_key + 1,
                                    parent_node_key * 64 + next, parent_node_key as int);
                            }
                        }
                        assert((parent_node_key * 64 + next) * span(h - 1) > vf) by {
                            lemma_div_bounds(vf, span(h - 1));
                            assert(node_key + 1 <= parent_node_key * 64 + next);
                            assert((node_key + 1) * span(h - 1) <= (parent_node_key * 64 + next)
                                * span(h - 1)) by (nonlinear_arith)
                                requires
                                    node_key + 1 <= parent_node_key * 64 + next,
                                    span(h - 1) > 0,
                            ;
                        }
                    }
                    loop
                        invariant
                            wf_nodes(m),
                            m == self.kvs@,
                            s == tick_set(m),
                            vf == v + key_flag(),
                v == value.0,
                            0 <= g <= 2,
                            next < 64,
                            g == 2 ==> parent_node_key == 1,
                            g == 1 ==> 64 <= parent_node_key < 128,
                            g == 0 ==> 4096 <= parent_node_key < 8192,
                            node_has(m, parent_node_key as int, next as int),
                            (parent_node_key * 64 + next) * span(g) > vf,
                            forall|u: u32| #[trigger] s.contains(u) && v < u ==> u
                                + key_flag() >= (parent_node_key * 64 + next) * span(g),
                        decreases g,
                    {
                        proof {
                            lemma_key_bits(0, parent_node_key, next);
                        }
                        let ghost up = parent_node_key;
                        parent_node_key = (parent_node_key << 6) | next;
                        proof {
                            lemma_key_bits(parent_node_key, 0, 0);
                        }
                        if parent_node_key & 262144 == 262144 {
                            let t = Tick(parent_node_key & !262144u32);
                            proof {
                                assert(g == 0);
                                assert((t.0 + key_flag()) / 64 == up);
                                assert(t.0 % 64 == next);
                                assert(s.contains(t.0));
                                assert(v < t.0);
                                assert forall|u: u32| #[trigger] s.contains(u) && v < u implies t.0 <= u by {
                                    assert(u + key_flag() >= (up * 64 + next) * span(g));
                                }
                            }
                            return Some(t);
                        }
                        proof {
                            assert(g >= 1);
                            assert(node_has(m, up as int, next as int) == (node_word(
                                m,
                                up * 64 + next,
                            ) != 0));
                        }
                        let node = self.kvs.get(&parent_node_key).unwrap();
                        proof {
                            assert(node_word(m, parent_node_key as int) == node.word());
                            lemma_node_empty(*node);
                        }
                        next = node.first().unwrap();
                        proof {
                            let k = parent_node_key;
                            assert forall|i: int| 0 <= i < next implies !#[trigger] node_has(
                                m, k as int, i) by {
                                assert(!node.has(i as u64));
                            }
                            assert forall|u: u32| #[trigger] s.contains(u) && v < u implies u
                                + key_flag() >= (k * 64 + next) * span(g - 1) by {
                                let x = u + key_flag();
                                if x < (k * 64 + next) * span(g - 1) {
                                    lemma_tick_path(m, u, g);
                                    lemma_path_arith(x, g);
                                    assert(span(g) == span(g - 1) * 64);
                                    lemma_child_of(x, span(g - 1), k * 64, k * 64 + next,
                                        k as int);
                                }
                            }
                            assert((k * 64 + next) * span(g - 1) >= k * span(g)) by (
                            nonlinear_arith)
                                requires
                                    span(g) == span(g - 1) * 64,
                                    span(g - 1) > 0,
                                    next >= 0,
                            ;
                            g = g - 1;
                        }
                    }
                },
                None => {
                    proof {
                        assert forall|u: u32| #[trigger] s.contains(u) && v < u implies u
                            + key_flag() >= (parent_node_key + 1) * span(h) by {
                            let x = u + key_flag();
                            if x < (parent_node_key + 1) * span(h) {
                                lemma_tick_path(m, u, h);
                                lemma_path_arith(x, h);
                                assert(span(h) == span(h - 1) * 64);
                                lemma_child_of(x, span(h - 1), node_key + 1,
                                    parent_node_key * 64 + 64, parent_node_key as int);
                            }
                        }
                    }
                    if parent_node_key >= 64 {
                        proof {
                            lemma_key_bits(parent_node_key, 0, 0);
                            lemma_path_arith(vf, h + 1);
                        }
                        node_key = parent_node_key;
                        parent_node_key = parent_node_key >> 6;
                        proof {
                            h = h + 1;
                        }
                    } else {
                        proof {
                            assert(h == 3);
                        }
                        return None;
                    }
                },
            }
        }
    }

    /// The largest tick in the index below `value`.
    pub fn next_down(&self, value: Tick) -> (r: Option<Tick>)
        requires
            self.wf(),
            value.0 < Self::KEY_FLAG,
        ensures
            is_next_down(self.ticks(), value.0, r),
    {
        let ghost m = self.kvs@;
        let ghost s = self.ticks();
        let ghost vf: int = value.0 + key_flag();
        let v: u32 = value.0;
        proof {
            lemma_key_bits(v, 0, 0);
        }
        let mut node_key: u32 = v | 262144;
        proof {
            lemma_key_bits(node_key, 0, 0);
        }
        let mut parent_node_key: u32 = node_key >> 6;
        let ghost mut h: int = 1;
        loop
            invariant
                wf_nodes(m),
                m == self.kvs@,
                s == tick_set(m),
                vf == v + key_flag(),
                v == value.0,
                v < key_flag(),
                1 <= h <= 3,
                node_key == vf / span(h - 1),
                parent_node_key == vf / span(h),
                forall|u: u32| #[trigger] s.contains(u) && u < v ==> u + key_flag() < node_key
                    * span(h - 1),
            decreases 3 - h,
        {
            proof {
                lemma_path_arith(vf, h);
                lemma_height_range(vf, h);
            }
            let found: Option<u32> = match self.kvs.get(&parent_node_key) {
                Some(parent_node) => {
                    let n = parent_node.prev(node_key);
                    proof {
                        assert(node_word(m, parent_node_key as int) == parent_node.word());
                        match n {
                            Some(b) => {
                                assert forall|i: int| b < i < node_key % 64 implies !#[trigger] node_has(
                                    m, parent_node_key as int, i) by {
                                    assert(!parent_node.has(i as u64));
                                }
                            },
                            None => {
                                assert forall|i: int| 0 <= i < node_key % 64 implies !#[trigger] node_has(
                                    m, parent_node_key as int, i) by {
                                    assert(!parent_node.has(i as u64));
                                }
                            },
                        }
                    }
                    n
                },
                None => {
                    proof {
                        assert(node_word(m, parent_node_key as int) == 0);
                        lemma_zero_iff_no_bits(0);
                        assert forall|i: int| 0 <= i < node_key % 64 implies !#[trigger] node_has(
                            m, parent_node_key as int, i) by {
                            assert(!has_bit(0, i as u64));
                        }
                    }
                    None
                },
            };
            match found {
                Some(first_prev) => {
                    let mut prev: u32 = first_prev;
                    let ghost mut g: int = h - 1;
                    proof {
                        assert forall|u: u32| #[trigger] s.contains(u) && u < v implies u
                            + key_flag() < (parent_node_key * 64 + prev + 1) * span(h - 1) by {
                            let x = u + key_flag();
                            if x >= (parent_node_key * 64 + prev + 1) * span(h - 1) {
                                lemma_tick_path(m, u, h);
                                lemma_path_arith(x, h);
                                lemma_child_of(x, span(h - 1), parent_node_key * 64 + prev + 1,
                                    node_key as int, parent_node_key as int);
                            }
                        }
                        assert((parent_node_key * 64 + prev + 1) * span(h - 1) <= vf) by {
                            lemma_div_bounds(vf, span(h - 1));
                            assert(parent_node_key * 64 + prev + 1 <= node_key);
                            assert((parent_node_key * 64 + prev + 1) * span(h - 1) <= node_key
                                * span(h - 1)) by (nonlinear_arith)
                                requires
                                    parent_node_key * 64 + prev + 1 <= node_key,
                                    span(h - 1) > 0,
                            ;
                        }
                    }
                    loop
                        invariant
                            wf_nodes(m),
                            m == self.kvs@,
                            s == tick_set(m),
                            vf == v + key_flag(),
                            v == value.0,
                            0 <= g <= 2,
                            prev < 64,
                            g == 2 ==> parent_node_key == 1,
                            g == 1 ==> 64 <= parent_node_key < 128,
                            g == 0 ==> 4096 <= parent_node_key < 8192,
                            node_has(m, parent_node_key as int, prev as int),
                            (parent_node_key * 64 + prev + 1) * span(g) <= vf,
                            forall|u: u32| #[trigger] s.contains(u) && u < v ==> u
                                + key_flag() < (parent_node_key * 64 + prev + 1) * span(g),
                        decreases g,
                    {
                        proof {
                            lemma_key_bits(0, parent_node_key, prev);
                        }
                        let ghost up = parent_node_key;
                        parent_node_key = (parent_node_key << 6) | prev;
                        proof {
                            lemma_key_bits(parent_node_key, 0, 0);
                        }
                        if parent_node_key & 262144 == 262144 {
                            let t = Tick(parent_node_key & !262144u32);
                            proof {
                                assert(g == 0);
                                assert((t.0 + key_flag()) / 64 == up);
                                assert(t.0 % 64 == prev);
                                assert(s.contains(t.0));
                                assert(t.0 < v);
                                assert forall|u: u32| #[trigger] s.contains(u) && u < v implies u <= t.0 by {
                                    assert(u + key_flag() < (up * 64 + prev + 1) * span(g));
                                }
                            }
                            return Some(t);
                        }
                        proof {
                            assert(g >= 1);
                            assert(node_has(m, up as int, prev as int) == (node_word(
                                m,
                                up * 64 + prev,
                            ) != 0));
                        }
                        let node = self.kvs.get(&parent_node_key).unwrap();
                        proof {
                            assert(node_word(m, parent_node_key as int) == node.word());
                            lemma_node_empty(*node);
                        }
                        prev = node.last().unwrap();
                        proof {
                            let k = parent_node_key;
                            assert forall|i: int| prev < i < 64 implies !#[trigger] node_has(
                                m, k as int, i) by {
                                assert(!node.has(i as u64));
                            }
                            assert(span(g) == span(g - 1) * 64);
                            assert forall|u: u32| #[trigger] s.contains(u) && u < v implies u
                                + key_flag() < (k * 64 + prev + 1) * span(g - 1) by {
                                let x = u + key_flag();
                                if x >= (k * 64 + prev + 1) * span(g - 1) {
                                    lemma_tick_path(m, u, g);
                                    lemma_path_arith(x, g);
                                    assert(x < (k * 64 + 64) * span(g - 1)) by (nonlinear_arith)
                                        requires
                                            x < (k + 1) * span(g),
                                            span(g) == span(g - 1) * 64,
                                    ;
                                    lemma_child_of(x, span(g - 1), k * 64 + prev + 1, k * 64 + 64,
                                        k as int);
                                }
                            }
                            assert((k * 64 + prev + 1) * span(g - 1) <= (k + 1) * span(g)) by (
                            nonlinear_arith)
                                requires
                                    span(g) == span(g - 1) * 64,
                                    span(g - 1) > 0,
                                    prev < 64,
                            ;
                            g = g - 1;
                        }
                    }
                },
                None => {
                    proof {
                        assert forall|u: u32| #[trigger] s.contains(u) && u < v implies u
                            + key_flag() < parent_node_key * span(h) by {
                            let x = u + key_flag();
                            if x >= parent_node_key * span(h) {
                                lemma_tick_path(m, u, h);
                                lemma_path_arith(x, h);
                                assert(span(h) == span(h - 1) * 64);
                                assert(parent_node_key * span(h) == (parent_node_key * 64) * span(h - 1)) by (nonlinear_arith)
                                    requires span(h) == span(h - 1) * 64;
                                lemma_child_of(x, span(h - 1), parent_node_key * 64,
                                    node_key as int, parent_node_key as int);
                            }
                        }
                    }
                    if parent_node_key >= 64 {
                        proof {
                            lemma_key_bits(parent_node_key, 0, 0);
                            lemma_path_arith(vf, h + 1);
                        }
                        node_key = parent_node_key;
                        parent_node_key = parent_node_key >> 6;
                        proof {
                            h = h + 1;
                        }
                    } else {
                        proof {
                            assert(h == 3);
                        }
                        return None;
                    }
                },
            }
        }
    }

    /// Insert a tick into the index; it becomes the current tick when there was none.
    pub fn insert(&mut self, value: Tick)
        requires
            old(self).wf(),
            value.0 < Self::KEY_FLAG,
        ensures
            final(self).wf(),
            final(self).ticks() == old(self).ticks().insert(value.0),
            final(self).current_tick() == (match old(self).current_tick() {
                Some(c) => Some(c),
                None => Some(value),
            }),
    {
        let ghost m0 = self.kvs@;
        let ghost vf: int = value.0 + key_flag();
        proof {
            lemma_key_bits(value.0, 0, 0);
            lemma_path_keys(vf);
        }
        let mut node_key: u32 = value.0 | 262144;
        proof {
            lemma_key_bits(node_key, 0, 0);
        }
        let mut parent_node_key: u32 = node_key >> 6;
        let mut not_set: bool = true;
        let ghost mut h: int = 1;
        loop
            invariant_except_break
                not_set,
                node_key == vf / span(h - 1),
                parent_node_key == path_key(vf, h),
                forall|k: int| !on_path_below(vf, k, h) ==> #[trigger] node_word(self.kvs@, k)
                    == node_word(m0, k),
                forall|j: int, b: int|
                    1 <= j < h && 0 <= b < 64 ==> #[trigger] node_has(self.kvs@, path_key(vf, j), b)
                        == (node_has(m0, path_key(vf, j), b) || b == path_bit(vf, j)),
            invariant
                wf_nodes(m0),
                m0 == old(self).kvs@,
                self.current == old(self).current,
                key_flag() <= vf < 2 * key_flag(),
                vf == value.0 + key_flag(),
                1 <= h <= 3,
            ensures
                1 <= h <= 3,
                forall|k: int| !on_path_below(vf, k, h + 1) ==> #[trigger] node_word(self.kvs@, k)
                    == node_word(m0, k),
                forall|j: int, b: int|
                    1 <= j <= h && 0 <= b < 64 ==> #[trigger] node_has(self.kvs@, path_key(vf, j), b)
                        == (node_has(m0, path_key(vf, j), b) || b == path_bit(vf, j)),
                h == 3 || node_has(m0, path_key(vf, h), path_bit(vf, h)),
            decreases 3 - h,
        {
            proof {
                lemma_path_arith(vf, h);
                lemma_height_range(vf, h);
                assert(!on_path_below(vf, parent_node_key as int, h));
                assert(node_key % 64 == path_bit(vf, h));
            }
            let ghost before = self.kvs@;
            let parent_node = match self.kvs.get(&parent_node_key) {
                Some(parent_node) => {
                    let mut parent_node = *parent_node;
                    proof {
                        assert(node_word(before, parent_node_key as int) == parent_node.word());
                        assert(node_word(m0, parent_node_key as int) == parent_node.word());
                    }
                    not_set = parent_node.insert(node_key);
                    parent_node
                },
                None => {
                    proof {
                        assert(node_word(before, parent_node_key as int) == 0);
                        assert(node_word(m0, parent_node_key as int) == 0);
                        lemma_zero_iff_no_bits(0);
                    }
                    IndexNode::new(node_key)
                },
            };
            proof {
                assert forall|b: int| 0 <= b < 64 implies #[trigger] has_bit(parent_node.word(), b as u64)
                    == (node_has(m0, path_key(vf, h), b) || b == path_bit(vf, h)) by {
                    assert(parent_node.has(b as u64) == has_bit(parent_node.word(), b as u64));
                }
                assert(not_set == !node_has(m0, path_key(vf, h), path_bit(vf, h)));
            }
            self.kvs.insert(parent_node_key, parent_node);
            proof {
                let m = self.kvs@;
                assert forall|k: int| !on_path_below(vf, k, h + 1) implies #[trigger] node_word(m, k)
                    == node_word(m0, k) by {
                    assert(node_word(m, k) == node_word(before, k));
                }
                assert(node_word(m, path_key(vf, h)) == parent_node.word());
                assert forall|j: int, b: int|
                    1 <= j <= h && 0 <= b < 64 implies #[trigger] node_has(m, path_key(vf, j), b)
                        == (node_has(m0, path_key(vf, j), b) || b == path_bit(vf, j)) by {
                    if j < h {
                        assert(path_key(vf, j) != path_key(vf, h));
                        assert(node_has(before, path_key(vf, j), b) == (node_has(m0, path_key(vf, j), b)
                            || b == path_bit(vf, j)));
                    }
                }
            }
            if not_set && parent_node_key >= 64 {
                proof {
                    lemma_key_bits(parent_node_key, 0, 0);
                    lemma_path_arith(vf, h + 1);
                }
                node_key = parent_node_key;
                parent_node_key = parent_node_key >> 6;
                proof {
                    h = h + 1;
                }
            } else {
                break;
            }
        }
        proof {
            lemma_insert_result(m0, self.kvs@, vf, h);
            assert((vf - key_flag()) as u32 == value.0);
        }
        if self.current.is_none() {
            self.current = Some(value);
        }
    }

    /// Remove a tick from the index. When it was the current tick, the nearest remaining
    /// tick of the smallest aligned block around it that still holds ticks becomes current
    /// (preferring the one above).
    pub fn remove(&mut self, value: Tick)
        requires
            old(self).wf(),
            old(self).ticks().contains(value.0),
        ensures
            final(self).wf(),
            final(self).ticks() == old(self).ticks().remove(value.0),
            old(self).current_tick() != Some(value) ==> final(self).current_tick() == old(
                self,
            ).current_tick(),
            old(self).current_tick() == Some(value) ==> is_replacement(
                final(self).ticks(),
                value.0,
                final(self).current_tick(),
            ),
    {
        let ghost m0 = self.kvs@;
        let ghost vf: int = value.0 + key_flag();
        proof {
            lemma_key_bits(value.0, 0, 0);
            lemma_path_keys(vf);
        }
        let mut node_key: u32 = value.0 | 262144;
        proof {
            lemma_key_bits(node_key, 0, 0);
        }
        let mut parent_node_key: u32 = node_key >> 6;
        let mut only: bool = false;
        let mut parent_node: IndexNode = IndexNode { index: 0 };
        let ghost mut h: int = 1;
        loop
            invariant_except_break
                node_key == vf / span(h - 1),
                parent_node_key == path_key(vf, h),
                forall|k: int| !on_path_below(vf, k, h) ==> #[trigger] node_word(self.kvs@, k)
                    == node_word(m0, k),
                forall|j: int, b: int|
                    1 <= j < h && 0 <= b < 64 ==> #[trigger] node_has(self.kvs@, path_key(vf, j), b)
                        == (node_has(m0, path_key(vf, j), b) && b != path_bit(vf, j)),
                forall|j: int| 1 <= j < h ==> #[trigger] node_word(self.kvs@, path_key(vf, j)) == 0,
            invariant
                wf_nodes(m0),
                m0 == old(self).kvs@,
                self.current == old(self).current,
                tick_set(m0).contains(value.0),
                key_flag() <= vf < 2 * key_flag(),
                vf == value.0 + key_flag(),
                1 <= h <= 3,
            ensures
                1 <= h <= 3,
                node_key == vf / span(h - 1),
                parent_node_key == path_key(vf, h),
                forall|k: int| !on_path_below(vf, k, h + 1) ==> #[trigger] node_word(self.kvs@, k)
                    == node_word(m0, k),
                forall|j: int, b: int|
                    1 <= j <= h && 0 <= b < 64 ==> #[trigger] node_has(self.kvs@, path_key(vf, j), b)
                        == (node_has(m0, path_key(vf, j), b) && b != path_bit(vf, j)),
                forall|j: int| 1 <= j < h ==> #[trigger] node_word(self.kvs@, path_key(vf, j)) == 0,
                h == 3 || node_word(self.kvs@, path_key(vf, h)) != 0,
                parent_node.word() == node_word(self.kvs@, path_key(vf, h)),
            decreases 3 - h,
        {
            proof {
                lemma_path_arith(vf, h);
                lemma_height_range(vf, h);
                assert(!on_path_below(vf, parent_node_key as int, h));
                assert(node_key % 64 == path_bit(vf, h));
                lemma_tick_path(m0, value.0, h);
                assert(node_word(self.kvs@, parent_node_key as int) == node_word(m0, parent_node_key as int));
            }
            let ghost before = self.kvs@;
            let mut pn: IndexNode = *self.kvs.get(&parent_node_key).unwrap();
            proof {
                assert(pn.word() == node_word(m0, parent_node_key as int));
                assert(pn.has(path_bit(vf, h) as u64));
            }
            let ghost pn0 = pn;
            only = pn.remove(node_key);
            proof {
                assert forall|b: int| 0 <= b < 64 implies #[trigger] has_bit(pn.word(), b as u64)
                    == (node_has(m0, path_key(vf, h), b) && b != path_bit(vf, h)) by {
                    assert(pn.has(b as u64) == has_bit(pn.word(), b as u64));
                }
                lemma_node_empty(pn);
                if only {
                    assert forall|i: u64| i < 64 implies !#[trigger] pn.has(i) by {
                        assert(pn0.has(i) == (i == path_bit(vf, h)));
                    }
                } else {
                    let i = choose|i: u64| i < 64 && #[trigger] pn0.has(i) != (i == path_bit(vf, h));
                    assert(pn.has(i));
                }
            }
            self.kvs.insert(parent_node_key, pn);
            proof {
                let m = self.kvs@;
                assert forall|k: int| !on_path_below(vf, k, h + 1) implies #[trigger] node_word(m, k)
                    == node_word(m0, k) by {
                    assert(node_word(m, k) == node_word(before, k));
                }
                assert(node_word(m, path_key(vf, h)) == pn.word());
                assert forall|j: int, b: int|
                    1 <= j <= h && 0 <= b < 64 implies #[trigger] node_has(m, path_key(vf, j), b)
                        == (node_has(m0, path_key(vf, j), b) && b != path_bit(vf, j)) by {
                    if j < h {
                        assert(path_key(vf, j) != path_key(vf, h));
                        assert(node_has(before, path_key(vf, j), b) == (node_has(m0, path_key(vf, j), b)
                            && b != path_bit(vf, j)));
                    }
                }
                assert forall|j: int| 1 <= j < h implies #[trigger] node_word(m, path_key(vf, j)) == 0 by {
                    assert(path_key(vf, j) != path_key(vf, h));
                    assert(node_word(before, path_key(vf, j)) == 0);
                }
            }
            if only && parent_node_key >= 64 {
                proof {
                    lemma_key_bits(parent_node_key, 0, 0);
                    lemma_path_arith(vf, h + 1);
                }
                node_key = parent_node_key;
                parent_node_key = parent_node_key >> 6;
                proof {
                    h = h + 1;
                }
            } else {
                parent_node = pn;
                break;
            }
        }
        let ghost m = self.kvs@;
        proof {
            lemma_remove_result(m0, m, vf, h);
            assert((vf - key_flag()) as u32 == value.0);
            lemma_path_arith(vf, h);
            lemma_height_range(vf, h);
            assert(node_key % 64 == path_bit(vf, h));
            if h > 1 {
                lemma_block_empty(m, value.0, 1);
            }
            if h > 2 {
                lemma_block_empty(m, value.0, 2);
            }
        }
        let is_current = match self.current {
            Some(c) => c.0 == value.0,
            None => false,
        };
        if is_current {
            let ghost s = tick_set(m);
            let ghost v = value.0;
            proof {
                // Ticks of the block at height `h` other than the removed one sit in children of
                // the path node other than the removed tick's child.
                assert forall|u: u32| #[trigger] s.contains(u) && in_block(u, v, h) implies {
                    let cu = (u + key_flag()) / span(h - 1);
                    &&& cu / 64 == parent_node_key
                    &&& cu != node_key
                    &&& cu == parent_node_key * 64 + cu % 64
                    &&& node_has(m, parent_node_key as int, cu % 64)
                    &&& (v < u ==> cu > node_key)
                    &&& (u < v ==> cu < node_key)
                } by {
                    let x = u + key_flag();
                    let cu = x / span(h - 1);
                    lemma_path_arith(x, h);
                    lemma_tick_path(m, u, h);
                    if h > 1 {
                        assert(!in_block(u, v, h - 1));
                    } else {
                        assert(u != v);
                    }
                    if v < u {
                        vstd::arithmetic::div_mod::lemma_div_is_ordered(vf, x, span(h - 1));
                    }
                    if u < v {
                        vstd::arithmetic::div_mod::lemma_div_is_ordered(x, vf, span(h - 1));
                    }
                }
                if h == 1 {
                    assert(removal_level(s, v) == 1 || forall|t: u32| #[trigger] s.contains(t) ==> !in_block(t, v, 1));
                }
            }
            match parent_node.next(node_key) {
                Some(next) => {
                    proof {
                        assert(node_has(m, parent_node_key as int, next as int));
                        assert forall|i: int| node_key % 64 < i < next implies !#[trigger] node_has(
                            m, parent_node_key as int, i) by {
                            assert(!parent_node.has(i as u64));
                        }
                    }
                    let t = self.descend_first(parent_node_key, next, Ghost(h - 1));
                    proof {
                        let ct = (t.0 + key_flag()) / span(h - 1);
                        lemma_path_arith(t.0 + key_flag(), h);
                        assert(in_block(t.0, v, h));
                        assert(removal_level(s, v) == h);
                        lemma_div_bounds(t.0 + key_flag(), span(h - 1));
                        lemma_div_bounds(vf, span(h - 1));
                        assert(ct >= node_key + 1);
                        assert(t.0 + key_flag() >= (node_key + 1) * span(h - 1)) by (nonlinear_arith)
                            requires
                                ct >= node_key + 1,
                                t.0 + key_flag() >= ct * span(h - 1),
                                span(h - 1) > 0,
                        ;
                        assert(v < t.0);
                        assert forall|u: u32| #[trigger] s.contains(u) && in_block(u, v, h) && v < u
                            implies t.0 <= u by {
                            let x = u + key_flag();
                            let cu = x / span(h - 1);
                            assert(cu > node_key);
                            assert(node_has(m, parent_node_key as int, cu % 64));
                            assert(cu % 64 >= next);
                            if cu > ct {
                                lemma_div_bounds(x, span(h - 1));
                                assert(x >= (ct + 1) * span(h - 1)) by (nonlinear_arith)
                                    requires
                                        cu >= ct + 1,
                                        x >= cu * span(h - 1),
                                        span(h - 1) > 0,
                                ;
                            }
                        }
                    }
                    self.current = Some(t);
                },
                None => {
                    proof {
                        assert forall|i: int| node_key % 64 < i < 64 implies !#[trigger] node_has(
                            m, parent_node_key as int, i) by {
                            assert(!parent_node.has(i as u64));
                        }
                    }
                    match parent_node.prev(node_key) {
                        Some(prev) => {
                            proof {
                                assert(node_has(m, parent_node_key as int, prev as int));
                                assert forall|i: int| prev < i < node_key % 64 implies !#[trigger] node_has(
                                    m, parent_node_key as int, i) by {
                                    assert(!parent_node.has(i as u64));
                                }
                            }
                            let t = self.descend_last(parent_node_key, prev, Ghost(h - 1));
                            proof {
                                let ct = (t.0 + key_flag()) / span(h - 1);
                                lemma_path_arith(t.0 + key_flag(), h);
                                assert(in_block(t.0, v, h));
                                assert(removal_level(s, v) == h);
                                lemma_div_bounds(t.0 + key_flag(), span(h - 1));
                                lemma_div_bounds(vf, span(h - 1));
                                assert(ct + 1 <= node_key);
                                assert(t.0 + key_flag() < node_key * span(h - 1)) by (nonlinear_arith)
                                    requires
                                        ct + 1 <= node_key,
                                        t.0 + key_flag() < (ct + 1) * span(h - 1),
                                        span(h - 1) > 0,
                                ;
                                assert(t.0 < v);
                                assert forall|u: u32| #[trigger] s.contains(u) && in_block(u, v, h)
                                    implies u <= t.0 by {
                                    let x = u + key_flag();
                                    let cu = x / span(h - 1);
                                    assert(node_has(m, parent_node_key as int, cu % 64));
                                    assert(cu < node_key);
                                    assert(cu % 64 <= prev);
                                    if cu < ct {
                                        lemma_div_bounds(x, span(h - 1));
                                        assert(x < ct * span(h - 1)) by (nonlinear_arith)
                                            requires
                                                cu + 1 <= ct,
                                                x < (cu + 1) * span(h - 1),
                                                span(h - 1) > 0,
                                        ;
                                    }
                                }
                            }
                            self.current = Some(t);
                        },
                        None => {
                            proof {
                                assert forall|i: u64| i < 64 implies !#[trigger] has_bit(parent_node.word(), i) by {
                                    if i == node_key % 64 {
                                        assert(!node_has(m, parent_node_key as int, i as int));
                                    } else {
                                        assert(!parent_node.has(i));
                                    }
                                }
                                lemma_zero_iff_no_bits(parent_node.word());
                                assert(h == 3);
                                lemma_block_empty(m, v, 3);
                                assert(s =~= Set::<u32>::empty());
                            }
                            self.current = None;
                        },
                    }
                },
            }
        }
    }

    /// Move the current tick to the next higher tick in the index.
    pub fn move_up(&mut self) -> (r: Option<Tick>)
        requires
            old(self).wf(),
        ensures
            final(self).wf(),
            final(self).ticks() == old(self).ticks(),
            match old(self).current_tick() {
                Some(c) => is_next_up(old(self).ticks(), c.0, r),
                None => r is None,
            },
            final(self).current_tick() == (if r is Some { r } else { old(self).current_tick() }),
    {
        proof {
            self.lemma_wf();
        }
        match self.current {
            Some(current) => {
                match self.next_up(current) {
                    Some(next) => {
                        self.current = Some(next);
                        Some(next)
                    },
                    None => None,
                }
            },
            None => None,
        }
    }

    /// Move the current tick to the next lower tick in the index.
    pub fn move_down(&mut self) -> (r: Option<Tick>)
        requires
            old(self).wf(),
        ensures
            final(self).wf(),
            final(self).ticks() == old(self).ticks(),
            match old(self).current_tick() {
                Some(c) => is_next_down(old(self).ticks(), c.0, r),
                None => r is None,
            },
            final(self).current_tick() == (if r is Some { r } else { old(self).current_tick() }),
    {
        proof {
            self.lemma_wf();
        }
        match self.current {
            Some(current) => {
                match self.next_down(current) {
                    Some(next) => {
                        self.current = Some(next);
                        Some(next)
                    },
                    None => None,
                }
            },
            None => None,
        }
    }

    /// Create an empty tick index.
    pub fn new() -> (r: TickIndex)
        ensures
            r.wf(),
            r.ticks() == Set::<u32>::empty(),
            r.current_tick() is None,
    {
        proof {
            broadcast use vstd::std_specs::hash::axiom_u32_obeys_hash_table_key_model;
        }
        let r = TickIndex { kvs: HashMapWithView::new(), current: None };
        proof {
            assert forall|k: int, b: int| (k == 1 || 64 <= k < 128) && 0 <= b < 64 implies #[trigger] node_has(
                r.kvs@,
                k,
                b,
            ) == (node_word(r.kvs@, k * 64 + b) != 0) by {
                lemma_zero_iff_no_bits(0);
            }
            assert forall|t: u32| !#[trigger] tick_set(r.kvs@).contains(t) by {
                lemma_zero_iff_no_bits(0);
            }
            assert(tick_set(r.kvs@) =~= Set::<u32>::empty());
        }
        r
    }

    /// The smallest tick below child `first` of node `parent` (a node at height `g + 1`).
    fn descend_first(&self, parent: u32, first: u32, Ghost(g): Ghost<int>) -> (t: Tick)
        requires
            wf_nodes(self.kvs@),
            0 <= g <= 2,
            first < 64,
            g == 2 ==> parent == 1,
            g == 1 ==> 64 <= parent < 128,
            g == 0 ==> 4096 <= parent < 8192,
            node_has(self.kvs@, parent as int, first as int),
        ensures
            tick_set(self.kvs@).contains(t.0),
            (t.0 + key_flag()) / span(g) == parent * 64 + first,
            forall|u: u32| #[trigger] tick_set(self.kvs@).contains(u) && (u + key_flag()) / span(g)
                == parent * 64 + first ==> t.0 <= u,
    {
        let ghost m = self.kvs@;
        let ghost s = tick_set(m);
        let ghost c0: int = parent * 64 + first;
        let ghost g0: int = g;
        let mut parent_node_key: u32 = parent;
        let mut bit: u32 = first;
        let ghost mut gg: int = g;
        proof {
            lemma_div_bounds(c0 * span(g0), span(g0));
        }
        loop
            invariant
                wf_nodes(m),
                m == self.kvs@,
                s == tick_set(m),
                c0 == parent * 64 + first,
                g0 == g,
                0 <= gg <= g0 <= 2,
                c0 >= 0,
                bit < 64,
                gg == 2 ==> parent_node_key == 1,
                gg == 1 ==> 64 <= parent_node_key < 128,
                gg == 0 ==> 4096 <= parent_node_key < 8192,
                node_has(m, parent_node_key as int, bit as int),
                (parent_node_key * 64 + bit) * span(gg) >= c0 * span(g0),
                (parent_node_key * 64 + bit + 1) * span(gg) <= (c0 + 1) * span(g0),
                forall|u: u32| #[trigger] s.contains(u) && (u + key_flag()) / span(g0) == c0 ==> u
                    + key_flag() >= (parent_node_key * 64 + bit) * span(gg),
            decreases gg,
        {
            proof {
                lemma_key_bits(0, parent_node_key, bit);
            }
            let ghost up = parent_node_key;
            parent_node_key = (parent_node_key << 6) + bit;
            proof {
                lemma_key_bits(parent_node_key, 0, 0);
            }
            if parent_node_key & 262144 == 262144 {
                let t = Tick(parent_node_key & !262144u32);
                proof {
                    assert(gg == 0);
                    assert((t.0 + key_flag()) / 64 == up);
                    assert(t.0 % 64 == bit);
                    assert(s.contains(t.0));
                    lemma_div_bounds(t.0 + key_flag(), span(g0));
                    assert((t.0 + key_flag()) / span(g0) == c0) by (nonlinear_arith)
                        requires
                            t.0 + key_flag() >= c0 * span(g0),
                            t.0 + key_flag() + 1 <= (c0 + 1) * span(g0),
                            ((t.0 + key_flag()) / span(g0)) * span(g0) <= t.0 + key_flag(),
                            t.0 + key_flag() < ((t.0 + key_flag()) / span(g0) + 1) * span(g0),
                            span(g0) > 0,
                    ;
                    assert forall|u: u32| #[trigger] s.contains(u) && (u + key_flag()) / span(g0)
                        == c0 implies t.0 <= u by {
                        assert(u + key_flag() >= (up * 64 + bit) * span(gg));
                    }
                }
                return t;
            }
            proof {
                assert(gg >= 1);
                assert(node_has(m, up as int, bit as int) == (node_word(m, up * 64 + bit)
                    != 0));
            }
            let node = self.kvs.get(&parent_node_key).unwrap();
            proof {
                assert(node_word(m, parent_node_key as int) == node.word());
                lemma_node_empty(*node);
            }
            bit = node.first().unwrap();
            proof {
                let k = parent_node_key;
                assert forall|i: int| 0 <= i < bit implies !#[trigger] node_has(m, k as int, i) by {
                    assert(!node.has(i as u64));
                }
                assert(span(gg) == span(gg - 1) * 64);
                assert forall|u: u32| #[trigger] s.contains(u) && (u + key_flag()) / span(g0) == c0
                    implies u + key_flag() >= (k * 64 + bit) * span(gg - 1) by {
                    let x = u + key_flag();
                    if x < (k * 64 + bit) * span(gg - 1) {
                        lemma_tick_path(m, u, gg);
                        lemma_path_arith(x, gg);
                        lemma_child_of(x, span(gg - 1), k * 64, k * 64 + bit, k as int);
                    }
                }
                assert((k * 64 + bit) * span(gg - 1) >= k * span(gg) && (k * 64 + bit + 1)
                    * span(gg - 1) <= (k + 1) * span(gg)) by (nonlinear_arith)
                    requires
                        span(gg) == span(gg - 1) * 64,
                        span(gg - 1) > 0,
                        bit < 64,
                ;
                gg = gg - 1;
            }
        }
    }

    /// The largest tick below child `last` of node `parent` (a node at height `g + 1`).
    fn descend_last(&self, parent: u32, last: u32, Ghost(g): Ghost<int>) -> (t: Tick)
        requires
            wf_nodes(self.kvs@),
            0 <= g <= 2,
            last < 64,
            g == 2 ==> parent == 1,
            g == 1 ==> 64 <= parent < 128,
            g == 0 ==> 4096 <= parent < 8192,
            node_has(self.kvs@, parent as int, last as int),
        ensures
            tick_set(self.kvs@).contains(t.0),
            (t.0 + key_flag()) / span(g) == parent * 64 + last,
            forall|u: u32| #[trigger] tick_set(self.kvs@).contains(u) && (u + key_flag()) / span(g)
                == parent * 64 + last ==> u <= t.0,
    {
        let ghost m = self.kvs@;
        let ghost s = tick_set(m);
        let ghost c0: int = parent * 64 + last;
        let ghost g0: int = g;
        let mut parent_node_key: u32 = parent;
        let mut bit: u32 = last;
        let ghost mut gg: int = g;
        proof {
            assert forall|u: u32| #[trigger] s.contains(u) && (u + key_flag()) / span(g0) == c0
                implies u + key_flag() < (c0 + 1) * span(g0) by {
                lemma_div_bounds(u + key_flag(), span(g0));
            }
        }
        loop
            invariant
                wf_nodes(m),
                m == self.kvs@,
                s == tick_set(m),
                c0 == parent * 64 + last,
                g0 == g,
                0 <= gg <= g0 <= 2,
                c0 >= 0,
                bit < 64,
                gg == 2 ==> parent_node_key == 1,
                gg == 1 ==> 64 <= parent_node_key < 128,
                gg == 0 ==> 4096 <= parent_node_key < 8192,
                node_has(m, parent_node_key as int, bit as int),
                (parent_node_key * 64 + bit) * span(gg) >= c0 * span(g0),
                (parent_node_key * 64 + bit + 1) * span(gg) <= (c0 + 1) * span(g0),
                forall|u: u32| #[trigger] s.contains(u) && (u + key_flag()) / span(g0) == c0 ==> u
                    + key_flag() < (parent_node_key * 64 + bit + 1) * span(gg),
            decreases gg,
        {
            proof {
                lemma_key_bits(0, parent_node_key, bit);
            }
            let ghost up = parent_node_key;
            parent_node_key = (parent_node_key << 6) + bit;
            proof {
                lemma_key_bits(parent_node_key, 0, 0);
            }
            if parent_node_key & 262144 == 262144 {
                let t = Tick(parent_node_key & !262144u32);
                proof {
                    assert(gg == 0);
                    assert((t.0 + key_flag()) / 64 == up);
                    assert(t.0 % 64 == bit);
                    assert(s.contains(t.0));
                    lemma_div_bounds(t.0 + key_flag(), span(g0));
                    assert((t.0 + key_flag()) / span(g0) == c0) by (nonlinear_arith)
                        requires
                            t.0 + key_flag() >= c0 * span(g0),
                            t.0 + key_flag() + 1 <= (c0 + 1) * span(g0),
                            ((t.0 + key_flag()) / span(g0)) * span(g0) <= t.0 + key_flag(),
                            t.0 + key_flag() < ((t.0 + key_flag()) / span(g0) + 1) * span(g0),
                            span(g0) > 0,
                    ;
                    assert forall|u: u32| #[trigger] s.contains(u) && (u + key_flag()) / span(g0)
                        == c0 implies u <= t.0 by {
                        assert(u + key_flag() < (up * 64 + bit + 1) * span(gg));
                    }
                }
                return t;
            }
            proof {
                assert(gg >= 1);
                assert(node_has(m, up as int, bit as int) == (node_word(m, up * 64 + bit)
                    != 0));
            }
            let node = self.kvs.get(&parent_node_key).unwrap();
            proof {
                assert(node_word(m, parent_node_key as int) == node.word());
                lemma_node_empty(*node);
            }
            bit = node.last().unwrap();
            proof {
                let k = parent_node_key;
                assert forall|i: int| bit < i < 64 implies !#[trigger] node_has(m, k as int, i) by {
                    assert(!node.has(i as u64));
                }
                assert(span(gg) == span(gg - 1) * 64);
                assert forall|u: u32| #[trigger] s.contains(u) && (u + key_flag()) / span(g0) == c0
                    implies u + key_flag() < (k * 64 + bit + 1) * span(gg - 1) by {
                    let x = u + key_flag();
                    if x >= (k * 64 + bit + 1) * span(gg - 1) {
                        lemma_tick_path(m, u, gg);
                        lemma_path_arith(x, gg);
                        assert(x < (k * 64 + 64) * span(gg - 1)) by (nonlinear_arith)
                            requires
                                x < (k + 1) * span(gg),
                                span(gg) == span(gg - 1) * 64,
                        ;
                        lemma_child_of(x, span(gg - 1), k * 64 + bit + 1, k * 64 + 64, k as int);
                    }
                }
                assert((k * 64 + bit) * span(gg - 1) >= k * span(gg) && (k * 64 + bit + 1)
                    * span(gg - 1) <= (k + 1) * span(gg)) by (nonlinear_arith)
                    requires
                        span(gg) == span(gg - 1) * 64,
                        span(gg - 1) > 0,
                        bit < 64,
                ;
                gg = gg - 1;
            }
        }
    }
}

/// Where `x` falls among the children `lo..hi` of node `p`, each covering `s` ticks.
proof fn lemma_child_of(x: int, s: int, lo: int, hi: int, p: int)
    requires
        s > 0,
        x >= 0,
        lo * s <= x,
        x < hi * s,
        p * 64 <= lo,
        hi <= p * 64 + 64,
    ensures
        (x / s) / 64 == p,
        lo <= x / s < hi,
        (x / s) % 64 == x / s - p * 64,
{
    let c = x / s;
    lemma_div_bounds(x, s);
    assert(lo <= c) by (nonlinear_arith)
        requires
            lo * s <= x,
            x < (c + 1) * s,
            s > 0,
    ;
    assert(c < hi) by (nonlinear_arith)
        requires
            c * s <= x,
            x < hi * s,
            s > 0,
    ;
    vstd::arithmetic::div_mod::lemma_fundamental_div_mod(c, 64);
}

/// `x / s` is the number of whole `s` blocks below `x`.
proof fn lemma_div_bounds(x: int, s: int)
    requires
        x >= 0,
        s > 0,
    ensures
        (x / s) * s <= x < (x / s + 1) * s,
{
    vstd::arithmetic::div_mod::lemma_fundamental_div_mod(x, s);
    vstd::arithmetic::div_mod::lemma_mod_pos_bound(x, s);
    let c = x / s;
    let r = x % s;
    assert(c * s <= x < (c + 1) * s) by (nonlinear_arith)
        requires
            x == s * c + r,
            0 <= r < s,
    ;
}

/// The keys on the path of a tick lie in the key range of their height.
proof fn lemma_height_range(vf: int, h: int)
    requires
        key_flag() <= vf < 2 * key_flag(),
        1 <= h <= 3,
    ensures
        h == 3 ==> vf / span(h) == 1,
        h == 2 ==> 64 <= vf / span(h) < 128,
        h == 1 ==> 4096 <= vf / span(h) < 8192,
{
}
} // verus!
