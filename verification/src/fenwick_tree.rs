//! An order-statistics multiset over 64-bit keys, kept as a binary trie
//! over the bits of the key (most significant bit first). Every
//! materialized node stores the number of keys in its subtree; a subtree
//! whose count drops to zero is pruned. All operations walk at most 64
//! levels, independently of how many distinct keys are stored.

use vstd::prelude::*;

verus! {

use vstd::arithmetic::power2::pow2;
use vstd::arithmetic::power2::lemma_pow2_unfold;
use vstd::arithmetic::power2::lemma_pow2_strictly_increases;
use vstd::arithmetic::power2::lemma2_to64;
use vstd::arithmetic::power2::lemma2_to64_rest;

/// One trie node: the number of keys stored in this subtree, and the two
/// child subtrees (`l` covers keys whose next bit is 0, `r` those whose
/// next bit is 1).
#[verifier::ext_equal]
pub struct TreeNode {
    v: u64,
    l: Option<Box<TreeNode>>,
    r: Option<Box<TreeNode>>,
}

impl TreeNode {
    /// True when this node stores nothing and has no children.
    pub closed spec fn is_blank(self) -> bool {
        self.v == 0 && self.l is None && self.r is None
    }

    pub fn new() -> (n: Self)
        ensures
            n.is_blank(),
    {
        TreeNode { v: 0, l: None, r: None }
    }
}

/// The number of keys stored in an optional subtree.
spec fn sub_count(o: Option<Box<TreeNode>>) -> nat {
    match o {
        None => 0,
        Some(n) => n.v as nat,
    }
}

/// Structural invariant of a subtree that covers `levels` remaining key
/// bits: counts are positive and bounded, an inner node's count is the sum
/// of its children's counts, and leaves have no children.
spec fn wf_sub(o: Option<Box<TreeNode>>, levels: nat) -> bool
    decreases levels,
{
    match o {
        None => true,
        Some(n) => {
            &&& 0 < n.v <= i64::MAX
            &&& if levels == 0 {
                n.l is None && n.r is None
            } else {
                &&& n.v == sub_count(n.l) + sub_count(n.r)
                &&& wf_sub(n.l, (levels - 1) as nat)
                &&& wf_sub(n.r, (levels - 1) as nat)
            }
        },
    }
}

/// How many copies of the `levels`-bit key `key` the subtree stores.
spec fn cnt_sub(o: Option<Box<TreeNode>>, levels: nat, key: nat) -> nat
    decreases levels,
{
    match o {
        None => 0,
        Some(n) => {
            if levels == 0 {
                n.v as nat
            } else if key < pow2((levels - 1) as nat) {
                cnt_sub(n.l, (levels - 1) as nat, key)
            } else {
                cnt_sub(n.r, (levels - 1) as nat, (key - pow2((levels - 1) as nat)) as nat)
            }
        },
    }
}

/// How many stored keys of the subtree are strictly smaller than `key`.
spec fn below_sub(o: Option<Box<TreeNode>>, levels: nat, key: nat) -> nat
    decreases levels,
{
    match o {
        None => 0,
        Some(n) => {
            if levels == 0 {
                0
            } else if key < pow2((levels - 1) as nat) {
                below_sub(n.l, (levels - 1) as nat, key)
            } else {
                sub_count(n.l) + below_sub(
                    n.r,
                    (levels - 1) as nat,
                    (key - pow2((levels - 1) as nat)) as nat,
                )
            }
        },
    }
}

/// The key at 0-based rank `rank` within the subtree (meaningful only for
/// `rank < sub_count(o)`).
spec fn nth_sub(o: Option<Box<TreeNode>>, levels: nat, rank: nat) -> nat
    decreases levels,
{
    match o {
        None => 0,
        Some(n) => {
            if levels == 0 {
                0
            } else if rank < sub_count(n.l) {
                nth_sub(n.l, (levels - 1) as nat, rank)
            } else {
                pow2((levels - 1) as nat) + nth_sub(
                    n.r,
                    (levels - 1) as nat,
                    (rank - sub_count(n.l)) as nat,
                )
            }
        },
    }
}

/// A multiset of 64-bit keys with order-statistic queries. `insert` with a
/// positive delta adds copies of a key, with a negative delta removes them;
/// `find_nth` returns the key at a given rank; `find_num` counts keys below
/// a threshold.
pub struct FenwickTree {
    root: Option<Box<TreeNode>>,
}

impl FenwickTree {
    /// The structural invariant, established by `new` and preserved by
    /// `insert`.
    pub closed spec fn well_formed(self) -> bool {
        wf_sub(self.root, 64)
    }

    /// Total number of stored keys, counted with multiplicity.
    pub closed spec fn total(self) -> nat {
        sub_count(self.root)
    }

    /// Multiplicity of `key` in the multiset.
    pub closed spec fn count_of(self, key: u64) -> nat {
        cnt_sub(self.root, 64, key as nat)
    }

    /// Number of stored keys strictly smaller than `key`, with
    /// multiplicity.
    pub closed spec fn num_below(self, key: u64) -> nat {
        below_sub(self.root, 64, key as nat)
    }

    /// The key at 0-based rank `rank` (meaningful only for
    /// `rank < self.total()`).
    pub closed spec fn nth_key(self, rank: nat) -> nat {
        nth_sub(self.root, 64, rank)
    }

    pub fn new() -> (t: Self)
        ensures
            t.well_formed(),
            t.total() == 0,
            forall|k: u64| t.count_of(k) == 0,
    {
        FenwickTree { root: None }
    }

    /// Adds `val` to the multiplicity of `x`; a negative `val` removes
    /// copies and must not remove more than are present. Removing the last
    /// copy along a path prunes the emptied subtree.
    pub fn insert(&mut self, x: u64, val: i64)
        requires
            old(self).well_formed(),
            val > 0 ==> old(self).total() + val <= i64::MAX,
            val < 0 ==> old(self).count_of(x) + val >= 0,
        ensures
            final(self).well_formed(),
            final(self).total() == old(self).total() + val,
            forall|k: u64|
                #[trigger] final(self).count_of(k) == if k == x {
                    old(self).count_of(x) + val
                } else {
                    old(self).count_of(k) as int
                },
    {
        if val == 0 {
            return ;
        }
        proof {
            lemma2_to64_rest();
            assert(pow2(64) == 0x10000000000000000);
            assert((x as nat) < pow2(64));
        }
        insert_sub(&mut self.root, 64, 0x8000_0000_0000_0000u64, x, val);
        proof {
            assert forall|k: u64|
                #[trigger] final(self).count_of(k) == if k == x {
                    old(self).count_of(x) + val
                } else {
                    old(self).count_of(k) as int
                } by {
                assert((k as nat) < pow2(64));
            }
        }
    }

    /// Returns `(low, high)` where `low` counts the stored keys strictly
    /// below `x` and `high` additionally includes the copies of `x` itself.
    pub fn find_num(&self, x: u64) -> (r: (u64, u64))
        requires
            self.well_formed(),
        ensures
            r.0 == self.num_below(x),
            r.1 == self.num_below(x) + self.count_of(x),
    {
        proof {
            lemma2_to64_rest();
            assert(pow2(64) == 0x10000000000000000);
        }
        find_num_sub(&self.root, 64, 0x8000_0000_0000_0000u64, x)
    }

    /// Returns the key at 0-based rank `rank`: exactly `rank` stored keys
    /// (with multiplicity) are positioned before it in sorted order.
    pub fn find_nth(&self, rank: u64) -> (r: u64)
        requires
            self.well_formed(),
            (rank as nat) < self.total(),
        ensures
            r as nat == self.nth_key(rank as nat),
    {
        proof {
            lemma2_to64_rest();
            assert(pow2(64) == 0x10000000000000000);
        }
        find_nth_sub(&self.root, 64, 0x8000_0000_0000_0000u64, rank)
    }
}

/// Multiplicity never exceeds the subtree count.
proof fn lemma_cnt_le_sub(o: Option<Box<TreeNode>>, levels: nat, key: nat)
    requires
        wf_sub(o, levels),
    ensures
        cnt_sub(o, levels, key) <= sub_count(o),
    decreases levels,
{
    match o {
        None => {},
        Some(n) => {
            if levels == 0 {
            } else if key < pow2((levels - 1) as nat) {
                lemma_cnt_le_sub(n.l, (levels - 1) as nat, key);
            } else {
                lemma_cnt_le_sub(
                    n.r,
                    (levels - 1) as nat,
                    (key - pow2((levels - 1) as nat)) as nat,
                );
            }
        },
    }
}

/// Keys below a threshold plus copies of the threshold never exceed the
/// subtree count.
proof fn lemma_below_cnt_le_sub(o: Option<Box<TreeNode>>, levels: nat, key: nat)
    requires
        wf_sub(o, levels),
    ensures
        below_sub(o, levels, key) + cnt_sub(o, levels, key) <= sub_count(o),
    decreases levels,
{
    match o {
        None => {},
        Some(n) => {
            if levels == 0 {
            } else if key < pow2((levels - 1) as nat) {
                lemma_below_cnt_le_sub(n.l, (levels - 1) as nat, key);
            } else {
                lemma_below_cnt_le_sub(
                    n.r,
                    (levels - 1) as nat,
                    (key - pow2((levels - 1) as nat)) as nat,
                );
            }
        },
    }
}

fn insert_sub(o: &mut Option<Box<TreeNode>>, levels: u64, half: u64, key: u64, val: i64)
    requires
        wf_sub(*old(o), levels as nat),
        levels <= 64,
        (key as nat) < pow2(levels as nat),
        levels > 0 ==> half as nat == pow2((levels - 1) as nat),
        val != 0,
        val > 0 ==> sub_count(*old(o)) + val <= i64::MAX,
        val < 0 ==> cnt_sub(*old(o), levels as nat, key as nat) + val >= 0,
    ensures
        wf_sub(*final(o), levels as nat),
        sub_count(*final(o)) == sub_count(*old(o)) + val,
        forall|k: nat|
            k < pow2(levels as nat) ==> #[trigger] cnt_sub(*final(o), levels as nat, k) == (if k
                == key as nat {
                cnt_sub(*old(o), levels as nat, key as nat) + val
            } else {
                cnt_sub(*old(o), levels as nat, k) as int
            }),
    decreases levels,
{
    proof {
        lemma_cnt_le_sub(*old(o), levels as nat, key as nat);
    }
    let ghost prior = *o;
    let mut node: Box<TreeNode> = match o.take() {
        None => Box::new(TreeNode::new()),
        Some(b) => b,
    };
    let ghost base = *node;
    proof {
        if prior is None {
            assert(cnt_sub(prior, levels as nat, key as nat) == 0);
            assert(val > 0);
        } else {
            assert(base == *prior->Some_0);
            assert(base.v == sub_count(prior));
        }
    }
    if levels == 0 {
        proof {
            lemma2_to64();
            assert(pow2(0) == 1);
            assert(key == 0);
            assert(cnt_sub(prior, 0, key as nat) == sub_count(prior));
        }
        if val >= 0 {
            node.v = node.v + (val as u64);
        } else {
            node.v = node.v - ((-val) as u64);
        }
    } else {
        proof {
            lemma_pow2_unfold(levels as nat);
            if levels > 1 {
                lemma_pow2_unfold((levels - 1) as nat);
            }
        }
        let child_half = half / 2;
        if key < half {
            proof {
                assert(cnt_sub(prior, levels as nat, key as nat) == cnt_sub(
                    base.l,
                    (levels - 1) as nat,
                    key as nat,
                ));
                assert(sub_count(base.l) <= sub_count(prior));
            }
            insert_sub(&mut node.l, levels - 1, child_half, key, val);
            proof {
                assert(node.r == base.r);
                assert(wf_sub(node.l, (levels - 1) as nat));
                assert(wf_sub(node.r, (levels - 1) as nat));
            }
        } else {
            proof {
                assert(cnt_sub(prior, levels as nat, key as nat) == cnt_sub(
                    base.r,
                    (levels - 1) as nat,
                    ((key - half) as nat),
                ));
                assert(sub_count(base.r) <= sub_count(prior));
            }
            insert_sub(&mut node.r, levels - 1, child_half, key - half, val);
            proof {
                assert(node.l == base.l);
                assert(wf_sub(node.l, (levels - 1) as nat));
                assert(wf_sub(node.r, (levels - 1) as nat));
            }
        }
        proof {
            assert(sub_count(node.l) + sub_count(node.r) == base.v + val);
        }
        if val >= 0 {
            node.v = node.v + (val as u64);
        } else {
            node.v = node.v - ((-val) as u64);
        }
    }
    let ghost updated = *node;
    if node.v == 0 {
        *o = None;
    } else {
        *o = Some(node);
    }
    proof {
        assert(updated.v == sub_count(prior) + val);
        if levels > 0 {
            assert(wf_sub(updated.l, (levels - 1) as nat));
            assert(wf_sub(updated.r, (levels - 1) as nat));
        }
        if levels > 0 && updated.v == 0 {
            // the recursion pruned the emptied side and the other side was
            // already empty, so nothing remains below this node
            assert(sub_count(updated.l) + sub_count(updated.r) == 0);
            assert(sub_count(updated.l) == 0);
            assert(updated.l is None);
            assert(updated.r is None);
        }
        assert(wf_sub(*o, levels as nat));
        assert(sub_count(*o) == sub_count(prior) + val);
        assert forall|k: nat| k < pow2(levels as nat) implies #[trigger] cnt_sub(
            *o,
            levels as nat,
            k,
        ) == (if k == key as nat {
            cnt_sub(prior, levels as nat, key as nat) + val
        } else {
            cnt_sub(prior, levels as nat, k) as int
        }) by {
            if levels == 0 {
                lemma2_to64();
                assert(k == 0);
                if *o is None {
                    assert(cnt_sub(*o, levels as nat, k) == 0);
                    assert(cnt_sub(prior, 0, key as nat) + val == 0);
                } else {
                    assert(cnt_sub(*o, levels as nat, k) == updated.v);
                }
            } else {
                lemma_pow2_unfold(levels as nat);
                let p = pow2((levels - 1) as nat);
                // relate the count of the new child to the count of the old
                // child at position k, and both sides of the goal to them
                if k < p {
                    assert(cnt_sub(prior, levels as nat, k) == cnt_sub(
                        base.l,
                        (levels - 1) as nat,
                        k,
                    ));
                    if key < half {
                        assert(cnt_sub(updated.l, (levels - 1) as nat, k) == (if k
                            == key as nat {
                            cnt_sub(base.l, (levels - 1) as nat, key as nat) + val
                        } else {
                            cnt_sub(base.l, (levels - 1) as nat, k) as int
                        }));
                    } else {
                        assert(updated.l == base.l);
                        assert(k != key as nat);
                    }
                    if *o is None {
                        assert(cnt_sub(updated.l, (levels - 1) as nat, k) == 0);
                        assert(cnt_sub(*o, levels as nat, k) == 0);
                    } else {
                        assert(cnt_sub(*o, levels as nat, k) == cnt_sub(
                            updated.l,
                            (levels - 1) as nat,
                            k,
                        ));
                    }
                } else {
                    let kk = (k - p) as nat;
                    assert(kk < p);
                    assert(cnt_sub(prior, levels as nat, k) == cnt_sub(
                        base.r,
                        (levels - 1) as nat,
                        kk,
                    ));
                    if key < half {
                        assert(updated.r == base.r);
                        assert(k != key as nat);
                    } else {
                        assert((key - half) as nat == key as nat - p);
                        assert(cnt_sub(updated.r, (levels - 1) as nat, kk) == (if kk == (key
                            - half) as nat {
                            cnt_sub(base.r, (levels - 1) as nat, (key - half) as nat) + val
                        } else {
                            cnt_sub(base.r, (levels - 1) as nat, kk) as int
                        }));
                        assert(kk == (key - half) as nat <==> k == key as nat);
                    }
                    if *o is None {
                        assert(cnt_sub(updated.r, (levels - 1) as nat, kk) == 0);
                        assert(cnt_sub(*o, levels as nat, k) == 0);
                    } else {
                        assert(cnt_sub(*o, levels as nat, k) == cnt_sub(
                            updated.r,
                            (levels - 1) as nat,
                            kk,
                        ));
                    }
                }
            }
        }
    }
}

fn find_num_sub(o: &Option<Box<TreeNode>>, levels: u64, half: u64, key: u64) -> (r: (u64, u64))
    requires
        wf_sub(*o, levels as nat),
        levels <= 64,
        (key as nat) < pow2(levels as nat),
        levels > 0 ==> half as nat == pow2((levels - 1) as nat),
    ensures
        r.0 == below_sub(*o, levels as nat, key as nat),
        r.1 == below_sub(*o, levels as nat, key as nat) + cnt_sub(*o, levels as nat, key as nat),
    decreases levels,
{
    proof {
        lemma_below_cnt_le_sub(*o, levels as nat, key as nat);
    }
    match o {
        None => (0, 0),
        Some(n) => {
            if levels == 0 {
                (0, n.v)
            } else {
                proof {
                    lemma_pow2_unfold(levels as nat);
                    if levels > 1 {
                        lemma_pow2_unfold((levels - 1) as nat);
                    }
                }
                let child_half = half / 2;
                if key < half {
                    find_num_sub(&n.l, levels - 1, child_half, key)
                } else {
                    let lcnt = match &n.l {
                        None => 0u64,
                        Some(c) => c.v,
                    };
                    proof {
                        lemma_below_cnt_le_sub(
                            n.r,
                            (levels - 1) as nat,
                            ((key - half) as nat),
                        );
                    }
                    let (lo, hi) = find_num_sub(&n.r, levels - 1, child_half, key - half);
                    (lcnt + lo, lcnt + hi)
                }
            }
        },
    }
}

fn find_nth_sub(o: &Option<Box<TreeNode>>, levels: u64, half: u64, rank: u64) -> (r: u64)
    requires
        wf_sub(*o, levels as nat),
        levels <= 64,
        levels > 0 ==> half as nat == pow2((levels - 1) as nat),
        (rank as nat) < sub_count(*o),
    ensures
        r as nat == nth_sub(*o, levels as nat, rank as nat),
        (r as nat) < pow2(levels as nat),
    decreases levels,
{
    match o {
        None => {
            // unreachable: sub_count(None) == 0
            proof {
                assert(false);
            }
            0
        },
        Some(n) => {
            if levels == 0 {
                proof {
                    vstd::arithmetic::power2::lemma_pow2_pos(0);
                }
                0
            } else {
                proof {
                    lemma_pow2_unfold(levels as nat);
                    if levels > 1 {
                        lemma_pow2_unfold((levels - 1) as nat);
                    }
                }
                let child_half = half / 2;
                let lcnt = match &n.l {
                    None => 0u64,
                    Some(c) => c.v,
                };
                if rank < lcnt {
                    find_nth_sub(&n.l, levels - 1, child_half, rank)
                } else {
                    let r2 = find_nth_sub(&n.r, levels - 1, child_half, rank - lcnt);
                    proof {
                        lemma2_to64_rest();
                        if levels < 64 {
                            lemma_pow2_strictly_increases((levels - 1) as nat, 63);
                        }
                        assert(half <= 0x8000_0000_0000_0000u64);
                        assert((r2 as nat) < half as nat);
                    }
                    half + r2
                }
            }
        },
    }
}

/// `find_nth` really is the order statistic: strictly fewer than
/// `rank + 1` stored keys lie at or below the returned key, and at most
/// `rank` lie strictly below it.
proof fn lemma_nth_sub_in_range(o: Option<Box<TreeNode>>, levels: nat, rank: nat)
    requires
        wf_sub(o, levels),
        rank < sub_count(o),
    ensures
        nth_sub(o, levels, rank) < pow2(levels),
        below_sub(o, levels, nth_sub(o, levels, rank)) <= rank,
        rank < below_sub(o, levels, nth_sub(o, levels, rank)) + cnt_sub(
            o,
            levels,
            nth_sub(o, levels, rank),
        ),
    decreases levels,
{
    match o {
        None => {},
        Some(n) => {
            if levels == 0 {
                vstd::arithmetic::power2::lemma_pow2_pos(0);
            } else {
                lemma_pow2_unfold(levels);
                if rank < sub_count(n.l) {
                    lemma_nth_sub_in_range(n.l, (levels - 1) as nat, rank);
                } else {
                    lemma_nth_sub_in_range(n.r, (levels - 1) as nat, (rank - sub_count(n.l)) as nat);
                }
            }
        },
    }
}

/// Order statistics are non-decreasing in the rank.
proof fn lemma_nth_sub_monotone(o: Option<Box<TreeNode>>, levels: nat, r1: nat, r2: nat)
    requires
        wf_sub(o, levels),
        r1 <= r2 < sub_count(o),
    ensures
        nth_sub(o, levels, r1) <= nth_sub(o, levels, r2),
    decreases levels,
{
    match o {
        None => {},
        Some(n) => {
            if levels == 0 {
            } else {
                if r2 < sub_count(n.l) {
                    lemma_nth_sub_monotone(n.l, (levels - 1) as nat, r1, r2);
                } else if r1 < sub_count(n.l) {
                    lemma_nth_sub_in_range(n.l, (levels - 1) as nat, r1);
                } else {
                    lemma_nth_sub_monotone(
                        n.r,
                        (levels - 1) as nat,
                        (r1 - sub_count(n.l)) as nat,
                        (r2 - sub_count(n.l)) as nat,
                    );
                }
            }
        },
    }
}

/// Law: for every well-formed tree and every rank below the total count,
/// the key returned by `find_nth` has at most `rank` stored keys strictly
/// below it and more than `rank` stored keys at or below it — it is the
/// `rank`-th smallest stored key, counted with multiplicity.
pub proof fn lemma_find_nth_is_order_statistic(t: FenwickTree, rank: nat)
    requires
        t.well_formed(),
        rank < t.total(),
    ensures
        t.nth_key(rank) < pow2(64),
        t.num_below(t.nth_key(rank) as u64) <= rank,
        rank < t.num_below(t.nth_key(rank) as u64) + t.count_of(t.nth_key(rank) as u64),
{
    lemma_nth_sub_in_range(t.root, 64, rank);
    lemma2_to64_rest();
    assert(pow2(64) == 0x10000000000000000);
    assert((t.nth_key(rank) as u64) as nat == t.nth_key(rank));
}

/// Law: as the rank grows, the key returned by `find_nth` never decreases.
pub proof fn lemma_find_nth_monotone(t: FenwickTree, r1: nat, r2: nat)
    requires
        t.well_formed(),
        r1 <= r2 < t.total(),
    ensures
        t.nth_key(r1) <= t.nth_key(r2),
{
    lemma_nth_sub_monotone(t.root, 64, r1, r2);
}

/// No stored key is below zero.
proof fn lemma_below_sub_zero(o: Option<Box<TreeNode>>, levels: nat)
    ensures
        below_sub(o, levels, 0) == 0,
    decreases levels,
{
    match o {
        None => {},
        Some(n) => {
            if levels == 0 {
            } else {
                vstd::arithmetic::power2::lemma_pow2_pos((levels - 1) as nat);
                lemma_below_sub_zero(n.l, (levels - 1) as nat);
            }
        },
    }
}

/// At the largest key of the subtree's range, "below plus at" covers the
/// whole subtree.
proof fn lemma_below_sub_max(o: Option<Box<TreeNode>>, levels: nat)
    requires
        wf_sub(o, levels),
    ensures
        below_sub(o, levels, (pow2(levels) - 1) as nat) + cnt_sub(
            o,
            levels,
            (pow2(levels) - 1) as nat,
        ) == sub_count(o),
    decreases levels,
{
    vstd::arithmetic::power2::lemma_pow2_pos(levels);
    match o {
        None => {},
        Some(n) => {
            if levels == 0 {
            } else {
                lemma_pow2_unfold(levels);
                vstd::arithmetic::power2::lemma_pow2_pos((levels - 1) as nat);
                let mx = (pow2(levels) - 1) as nat;
                assert(mx >= pow2((levels - 1) as nat));
                assert((mx - pow2((levels - 1) as nat)) as nat == (pow2((levels - 1) as nat)
                    - 1) as nat);
                lemma_below_sub_max(n.r, (levels - 1) as nat);
            }
        },
    }
}

/// One cumulative step: the keys below `k + 1` are the keys below `k`
/// plus the copies of `k` itself.
proof fn lemma_below_sub_succ(o: Option<Box<TreeNode>>, levels: nat, k: nat)
    requires
        wf_sub(o, levels),
        k + 1 < pow2(levels),
    ensures
        below_sub(o, levels, k + 1) == below_sub(o, levels, k) + cnt_sub(o, levels, k),
    decreases levels,
{
    match o {
        None => {},
        Some(n) => {
            if levels == 0 {
                lemma2_to64();
                assert(pow2(0) == 1);
            } else {
                lemma_pow2_unfold(levels);
                let half = pow2((levels - 1) as nat);
                if k + 1 < half {
                    lemma_below_sub_succ(n.l, (levels - 1) as nat, k);
                    assert(below_sub(o, levels, k + 1) == below_sub(n.l, (levels - 1) as nat, k
                        + 1));
                    assert(below_sub(o, levels, k) == below_sub(n.l, (levels - 1) as nat, k));
                    assert(cnt_sub(o, levels, k) == cnt_sub(n.l, (levels - 1) as nat, k));
                } else if k + 1 == half {
                    // crossing the boundary: the left subtree holds
                    // exactly the keys at or below k
                    lemma_below_sub_zero(n.r, (levels - 1) as nat);
                    lemma_below_sub_max(n.l, (levels - 1) as nat);
                    assert(k == (pow2((levels - 1) as nat) - 1) as nat);
                    assert(below_sub(o, levels, k + 1) == sub_count(n.l) + below_sub(
                        n.r,
                        (levels - 1) as nat,
                        0,
                    ));
                    assert(below_sub(o, levels, k) + cnt_sub(o, levels, k) == sub_count(n.l));
                } else {
                    assert(k >= half);
                    lemma_below_sub_succ(n.r, (levels - 1) as nat, (k - half) as nat);
                    assert((k - half) as nat + 1 == (k + 1 - half) as nat);
                    assert(below_sub(o, levels, k + 1) == sub_count(n.l) + below_sub(
                        n.r,
                        (levels - 1) as nat,
                        (k + 1 - half) as nat,
                    ));
                    assert(below_sub(o, levels, k) == sub_count(n.l) + below_sub(
                        n.r,
                        (levels - 1) as nat,
                        (k - half) as nat,
                    ));
                    assert(cnt_sub(o, levels, k) == cnt_sub(
                        n.r,
                        (levels - 1) as nat,
                        (k - half) as nat,
                    ));
                }
            }
        },
    }
}

/// Law (cumulative counts): no stored key is below zero, and stepping
/// the threshold by one adds exactly the multiplicity of the key that
/// was stepped over. Together with `insert`'s postcondition this pins
/// `num_below` (and with it both `find_num` results) down to the
/// multiset the tree stores.
pub proof fn lemma_num_below_cumulative(t: FenwickTree, k: u64)
    requires
        t.well_formed(),
    ensures
        t.num_below(0) == 0,
        k < u64::MAX ==> t.num_below((k + 1) as u64) == t.num_below(k) + t.count_of(k),
{
    lemma_below_sub_zero(t.root, 64);
    if k < u64::MAX {
        lemma2_to64_rest();
        assert(pow2(64) == 0x10000000000000000);
        lemma_below_sub_succ(t.root, 64, k as nat);
    }
}

/// A non-empty well-formed subtree stores some key.
proof fn lemma_nonzero_cnt_exists(o: Option<Box<TreeNode>>, levels: nat)
    requires
        wf_sub(o, levels),
        sub_count(o) > 0,
    ensures
        exists|k: nat| k < pow2(levels) && #[trigger] cnt_sub(o, levels, k) > 0,
    decreases levels,
{
    match o {
        None => {},
        Some(n) => {
            if levels == 0 {
                vstd::arithmetic::power2::lemma_pow2_pos(0);
                assert(cnt_sub(o, levels, 0) > 0);
            } else {
                lemma_pow2_unfold(levels);
                if sub_count(n.l) > 0 {
                    lemma_nonzero_cnt_exists(n.l, (levels - 1) as nat);
                    let k = choose|k: nat|
                        k < pow2((levels - 1) as nat) && #[trigger] cnt_sub(
                            n.l,
                            (levels - 1) as nat,
                            k,
                        ) > 0;
                    assert(cnt_sub(o, levels, k) > 0);
                } else {
                    lemma_nonzero_cnt_exists(n.r, (levels - 1) as nat);
                    let k = choose|k: nat|
                        k < pow2((levels - 1) as nat) && #[trigger] cnt_sub(
                            n.r,
                            (levels - 1) as nat,
                            k,
                        ) > 0;
                    assert(cnt_sub(o, levels, (k + pow2((levels - 1) as nat)) as nat) > 0);
                }
            }
        },
    }
}

/// Pruned tries are canonical: two well-formed subtrees that store every
/// key with the same multiplicity are structurally identical.
proof fn lemma_canonical_sub(a: Option<Box<TreeNode>>, b: Option<Box<TreeNode>>, levels: nat)
    requires
        wf_sub(a, levels),
        wf_sub(b, levels),
        forall|k: nat| k < pow2(levels) ==> #[trigger] cnt_sub(a, levels, k) == cnt_sub(b, levels, k),
    ensures
        a == b,
    decreases levels,
{
    if a is None && b is None {
    } else if a is Some && b is None {
        lemma_nonzero_cnt_exists(a, levels);
        let k = choose|k: nat| k < pow2(levels) && #[trigger] cnt_sub(a, levels, k) > 0;
        assert(cnt_sub(b, levels, k) == 0);
        assert(false);
    } else if a is None && b is Some {
        lemma_nonzero_cnt_exists(b, levels);
        let k = choose|k: nat| k < pow2(levels) && #[trigger] cnt_sub(b, levels, k) > 0;
        assert(cnt_sub(a, levels, k) == 0);
        assert(false);
    } else {
        let na = a->Some_0;
        let nb = b->Some_0;
        if levels == 0 {
            vstd::arithmetic::power2::lemma_pow2_pos(0);
            assert(cnt_sub(a, 0, 0) == cnt_sub(b, 0, 0));
            assert(na.v == nb.v);
            assert(*na =~= *nb);
            assert(a == b);
        } else {
            lemma_pow2_unfold(levels);
            assert forall|k: nat| k < pow2((levels - 1) as nat) implies #[trigger] cnt_sub(
                na.l,
                (levels - 1) as nat,
                k,
            ) == cnt_sub(nb.l, (levels - 1) as nat, k) by {
                assert(cnt_sub(a, levels, k) == cnt_sub(b, levels, k));
            }
            lemma_canonical_sub(na.l, nb.l, (levels - 1) as nat);
            assert forall|k: nat| k < pow2((levels - 1) as nat) implies #[trigger] cnt_sub(
                na.r,
                (levels - 1) as nat,
                k,
            ) == cnt_sub(nb.r, (levels - 1) as nat, k) by {
                let kk = (k + pow2((levels - 1) as nat)) as nat;
                assert(cnt_sub(a, levels, kk) == cnt_sub(b, levels, kk));
            }
            lemma_canonical_sub(na.r, nb.r, (levels - 1) as nat);
            assert(na.v == nb.v);
            assert(*na =~= *nb);
            assert(a == b);
        }
    }
}

/// Law (round trip): adding `d` copies of a key and then removing `d`
/// copies of the same key restores the tree to exactly its prior state, so
/// every subsequent query answers as before. The two hypotheses are the
/// postconditions of the two `insert` calls.
pub proof fn lemma_insert_delete_round_trip(
    t0: FenwickTree,
    t1: FenwickTree,
    t2: FenwickTree,
    x: u64,
    d: i64,
)
    requires
        t0.well_formed(),
        t1.well_formed(),
        t2.well_formed(),
        forall|k: u64|
            #[trigger] t1.count_of(k) == if k == x {
                t0.count_of(x) + d
            } else {
                t0.count_of(k) as int
            },
        forall|k: u64|
            #[trigger] t2.count_of(k) == if k == x {
                t1.count_of(x) - d
            } else {
                t1.count_of(k) as int
            },
    ensures
        t2 == t0,
{
    lemma2_to64_rest();
    assert(pow2(64) == 0x10000000000000000);
    assert forall|k: nat| k < pow2(64) implies #[trigger] cnt_sub(t2.root, 64, k) == cnt_sub(
        t0.root,
        64,
        k,
    ) by {
        let ku = k as u64;
        assert(ku as nat == k);
        assert(t2.count_of(ku) == t0.count_of(ku));
    }
    lemma_canonical_sub(t2.root, t0.root, 64);
    assert(t2 == t0);
}

} // verus!
