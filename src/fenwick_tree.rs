//! A pruned binary trie over 64-bit keys that keeps a weight per key and
//! answers rank, minimum and maximum queries in 64 steps.
use vstd::arithmetic::power2::{lemma2_to64, lemma2_to64_rest, lemma_pow2_pos, lemma_pow2_unfold, pow2};
use vstd::prelude::*;

verus! {

/// One node of the trie. `v` is the total weight of the keys below it.
pub struct TreeNode {
    pub v: i64,
    pub l: Option<Box<TreeNode>>,
    pub r: Option<Box<TreeNode>>,
}

impl TreeNode {
    pub fn new() -> (n: Self)
        ensures
            n.v == 0,
            n.l is None,
            n.r is None,
    {
        TreeNode { v: 0, l: None, r: None }
    }
}

/// Number of keys below the left child of a node that spans `pow2(lvl)` keys.
pub open spec fn half_span(lvl: nat) -> int {
    pow2((lvl - 1) as nat) as int
}

/// The weight of a subtree; an absent one weighs nothing.
pub open spec fn weight(n: Option<Box<TreeNode>>) -> int {
    match n {
        Some(b) => b.v as int,
        None => 0,
    }
}

/// Weight held for the key at offset `k` of a node spanning `pow2(lvl)` keys.
pub open spec fn count_node(b: TreeNode, lvl: nat, k: int) -> int
    decreases lvl,
{
    if lvl == 0 {
        b.v as int
    } else if k < half_span(lvl) {
        match b.l {
            Some(c) => count_node(*c, (lvl - 1) as nat, k),
            None => 0,
        }
    } else {
        match b.r {
            Some(c) => count_node(*c, (lvl - 1) as nat, k - half_span(lvl)),
            None => 0,
        }
    }
}

pub open spec fn count_in(n: Option<Box<TreeNode>>, lvl: nat, k: int) -> int {
    match n {
        Some(b) => count_node(*b, lvl, k),
        None => 0,
    }
}

/// Sum of the weights held for the offsets `0 .. k` of a node.
pub open spec fn sum_node(b: TreeNode, lvl: nat, k: int) -> int
    decreases k,
{
    if k <= 0 {
        0
    } else {
        sum_node(b, lvl, k - 1) + count_node(b, lvl, k - 1)
    }
}

pub open spec fn sum_in(n: Option<Box<TreeNode>>, lvl: nat, k: int) -> int {
    match n {
        Some(b) => sum_node(*b, lvl, k),
        None => 0,
    }
}

/// A node whose weight is the sum of its children's and whose children are pruned.
pub open spec fn node_ok(b: TreeNode, lvl: nat) -> bool {
    &&& b.v >= 0
    &&& if lvl == 0 {
        b.l is None && b.r is None
    } else {
        &&& pruned_in(b.l, (lvl - 1) as nat)
        &&& pruned_in(b.r, (lvl - 1) as nat)
        &&& b.v == weight(b.l) + weight(b.r)
    }
}

/// A subtree in which every node carries a positive weight: no empty node is kept.
pub open spec fn pruned_in(n: Option<Box<TreeNode>>, lvl: nat) -> bool
    decreases lvl,
{
    match n {
        None => true,
        Some(b) => {
            &&& b.v > 0
            &&& if lvl == 0 {
                b.l is None && b.r is None
            } else {
                &&& pruned_in(b.l, (lvl - 1) as nat)
                &&& pruned_in(b.r, (lvl - 1) as nat)
                &&& b.v == weight(b.l) + weight(b.r)
            }
        },
    }
}

proof fn lemma_span_zero()
    ensures
        pow2(0) == 1,
{
    vstd::arithmetic::power2::lemma_pow2(0);
    vstd::arithmetic::power::lemma_pow0(2);
}

proof fn lemma_half_span(lvl: nat)
    requires
        lvl > 0,
    ensures
        pow2(lvl) == 2 * half_span(lvl),
        half_span(lvl) > 0,
{
    lemma_pow2_unfold(lvl);
    lemma_pow2_pos((lvl - 1) as nat);
}

/// Every weight held in a pruned subtree lies between zero and the subtree's weight.
proof fn lemma_count_bounds(n: Option<Box<TreeNode>>, lvl: nat, k: int)
    requires
        pruned_in(n, lvl),
    ensures
        0 <= count_in(n, lvl, k) <= weight(n),
    decreases lvl,
{
    if let Some(b) = n {
        if lvl > 0 {
            lemma_count_bounds(b.l, (lvl - 1) as nat, k);
            lemma_count_bounds(b.r, (lvl - 1) as nat, k - half_span(lvl));
        }
    }
}

/// When one key holds a pruned subtree's whole weight, every other key holds nothing.
proof fn lemma_count_exclusive(n: Option<Box<TreeNode>>, lvl: nat, k0: int, k: int)
    requires
        pruned_in(n, lvl),
        0 <= k0 < pow2(lvl),
        0 <= k < pow2(lvl),
        k != k0,
        count_in(n, lvl, k0) == weight(n),
    ensures
        count_in(n, lvl, k) == 0,
    decreases lvl,
{
    if let Some(b) = n {
        if lvl == 0 {
            lemma_span_zero();
        } else {
            let h = half_span(lvl);
            lemma_half_span(lvl);
            lemma_count_bounds(b.l, (lvl - 1) as nat, k0);
            lemma_count_bounds(b.r, (lvl - 1) as nat, k0 - h);
            lemma_count_bounds(b.l, (lvl - 1) as nat, k);
            lemma_count_bounds(b.r, (lvl - 1) as nat, k - h);
            if k0 < h {
                if k < h {
                    lemma_count_exclusive(b.l, (lvl - 1) as nat, k0, k);
                }
            } else {
                if k >= h {
                    lemma_count_exclusive(b.r, (lvl - 1) as nat, k0 - h, k - h);
                }
            }
        }
    }
}

/// A prefix sum over a node splits into prefix sums over its children.
proof fn lemma_sum_split(b: TreeNode, lvl: nat, k: int)
    requires
        lvl > 0,
        0 <= k <= pow2(lvl),
    ensures
        sum_node(b, lvl, k) == if k <= half_span(lvl) {
            sum_in(b.l, (lvl - 1) as nat, k)
        } else {
            sum_in(b.l, (lvl - 1) as nat, half_span(lvl)) + sum_in(
                b.r,
                (lvl - 1) as nat,
                k - half_span(lvl),
            )
        },
    decreases k,
{
    lemma_half_span(lvl);
    if k > 0 {
        lemma_sum_split(b, lvl, k - 1);
        lemma_sum_absent(b.l, (lvl - 1) as nat, k);
        lemma_sum_absent(b.r, (lvl - 1) as nat, k - half_span(lvl));
    }
}

/// Prefix sums of an absent subtree are zero; otherwise they unfold one step.
proof fn lemma_sum_absent(n: Option<Box<TreeNode>>, lvl: nat, k: int)
    ensures
        n is None ==> sum_in(n, lvl, k) == 0,
        k > 0 ==> sum_in(n, lvl, k) == sum_in(n, lvl, k - 1) + count_in(n, lvl, k - 1),
{
}

/// The weight of a pruned subtree is the sum of the weights held for all its keys.
proof fn lemma_weight_is_sum(n: Option<Box<TreeNode>>, lvl: nat)
    requires
        pruned_in(n, lvl),
    ensures
        weight(n) == sum_in(n, lvl, pow2(lvl) as int),
    decreases lvl,
{
    if let Some(b) = n {
        if lvl == 0 {
            lemma_span_zero();
            assert(sum_node(*b, 0, 0) == 0);
            assert(sum_node(*b, 0, 1) == b.v);
        } else {
            lemma_half_span(lvl);
            lemma_sum_split(*b, lvl, pow2(lvl) as int);
            lemma_weight_is_sum(b.l, (lvl - 1) as nat);
            lemma_weight_is_sum(b.r, (lvl - 1) as nat);
        }
    }
}

/// A non-empty pruned subtree holds a positive weight for some key.
proof fn lemma_has_key(n: Option<Box<TreeNode>>, lvl: nat) -> (k: int)
    requires
        pruned_in(n, lvl),
        n is Some,
    ensures
        0 <= k < pow2(lvl),
        count_in(n, lvl, k) > 0,
    decreases lvl,
{
    let b = n.unwrap();
    if lvl == 0 {
        lemma_span_zero();
        0
    } else {
        lemma_half_span(lvl);
        if b.l is Some {
            lemma_has_key(b.l, (lvl - 1) as nat)
        } else {
            let j = lemma_has_key(b.r, (lvl - 1) as nat);
            j + half_span(lvl)
        }
    }
}

/// Two pruned subtrees that hold the same weight for every key are the same subtree.
proof fn lemma_canonical_in(a: Option<Box<TreeNode>>, b: Option<Box<TreeNode>>, lvl: nat)
    requires
        pruned_in(a, lvl),
        pruned_in(b, lvl),
        forall|k: int| 0 <= k < pow2(lvl) ==> count_in(a, lvl, k) == count_in(b, lvl, k),
    ensures
        a == b,
    decreases lvl, 2nat,
{
    if a is Some && b is None {
        let k = lemma_has_key(a, lvl);
    } else if a is None && b is Some {
        let k = lemma_has_key(b, lvl);
    } else if a is Some && b is Some {
        let x = a.unwrap();
        let y = b.unwrap();
        assert forall|k: int| 0 <= k < pow2(lvl) implies #[trigger] count_node(*x, lvl, k)
            == count_node(*y, lvl, k) by {
            assert(count_in(a, lvl, k) == count_in(b, lvl, k));
        }
        lemma_canonical_node(*x, *y, lvl);
    }
}

proof fn lemma_canonical_node(a: TreeNode, b: TreeNode, lvl: nat)
    requires
        node_ok(a, lvl),
        node_ok(b, lvl),
        forall|k: int| 0 <= k < pow2(lvl) ==> count_node(a, lvl, k) == count_node(b, lvl, k),
    ensures
        a == b,
    decreases lvl, 1nat,
{
    if lvl == 0 {
        lemma_span_zero();
        assert(count_node(a, 0, 0) == count_node(b, 0, 0));
    } else {
        let h = half_span(lvl);
        let m = (lvl - 1) as nat;
        lemma_half_span(lvl);
        assert forall|k: int| 0 <= k < pow2(m) implies #[trigger] count_in(a.l, m, k) == count_in(
            b.l,
            m,
            k,
        ) by {
            assert(count_node(a, lvl, k) == count_node(b, lvl, k));
        }
        assert forall|k: int| 0 <= k < pow2(m) implies #[trigger] count_in(a.r, m, k) == count_in(
            b.r,
            m,
            k,
        ) by {
            assert(count_node(a, lvl, k + h) == count_node(b, lvl, k + h));
        }
        lemma_canonical_in(a.l, b.l, (lvl - 1) as nat);
        lemma_canonical_in(a.r, b.r, (lvl - 1) as nat);
    }
}

/// Adds `val` to the weight of the key at offset `rem` of a pruned subtree, creating
/// nodes on the way down and cutting off the subtree whose weight drops to zero.
fn insert_in(n: &mut Option<Box<TreeNode>>, lvl: u64, rem: u64, half: u64, val: i64)
    requires
        lvl <= 63,
        pruned_in(*old(n), lvl as nat),
        lvl > 0 ==> half == half_span(lvl as nat),
        rem < pow2(lvl as nat),
        val != 0,
        val > 0 ==> weight(*old(n)) + val <= i64::MAX,
        val < 0 ==> count_in(*old(n), lvl as nat, rem as int) + val >= 0,
    ensures
        pruned_in(*final(n), lvl as nat),
        weight(*final(n)) == weight(*old(n)) + val,
        forall|k: int|
            0 <= k < pow2(lvl as nat) ==> #[trigger] count_in(*final(n), lvl as nat, k) == count_in(
                *old(n),
                lvl as nat,
                k,
            ) + if k == rem {
                val as int
            } else {
                0
            },
    decreases lvl,
{
    proof {
        lemma_count_bounds(*old(n), lvl as nat, rem as int);
        lemma_span_zero();
    }
    let ghost before = *old(n);
    let mut node: TreeNode = match n.take() {
        Some(b) => *b,
        None => TreeNode::new(),
    };
    if val < 0 && node.v + val == 0 {
        proof {
            assert forall|k: int| 0 <= k < pow2(lvl as nat) && k != rem implies count_in(
                before,
                lvl as nat,
                k,
            ) == 0 by {
                lemma_count_exclusive(before, lvl as nat, rem as int, k);
            }
        }
        return;
    }
    node.v = node.v + val;
    if lvl > 0 {
        proof {
            lemma_half_span(lvl as nat);
            if lvl > 1 {
                lemma_half_span((lvl - 1) as nat);
            }
        }
        let ghost old_l = node.l;
        let ghost old_r = node.r;
        if rem < half {
            proof {
                lemma_count_bounds(old_l, (lvl - 1) as nat, rem as int);
                lemma_count_bounds(old_r, (lvl - 1) as nat, rem as int);
            }
            insert_in(&mut node.l, lvl - 1, rem, half / 2, val);
        } else {
            proof {
                lemma_count_bounds(old_l, (lvl - 1) as nat, (rem - half) as int);
                lemma_count_bounds(old_r, (lvl - 1) as nat, (rem - half) as int);
            }
            insert_in(&mut node.r, lvl - 1, rem - half, half / 2, val);
        }
        proof {
            let h = half_span(lvl as nat);
            assert forall|k: int| 0 <= k < pow2(lvl as nat) implies #[trigger] count_node(
                node,
                lvl as nat,
                k,
            ) == count_in(before, lvl as nat, k) + if k == rem {
                val as int
            } else {
                0
            } by {
                if k < h {
                    assert(count_in(node.l, (lvl - 1) as nat, k) == count_in(old_l, (lvl - 1) as nat, k) + if k == rem { val as int } else { 0 });
                } else {
                    assert(count_in(node.r, (lvl - 1) as nat, k - h) == count_in(old_r, (lvl - 1) as nat, k - h) + if k - h == rem - h { val as int } else { 0 });
                }
            }
        }
    }
    *n = Some(Box::new(node));
}

/// A dynamic multiset of 64-bit keys: each key carries a weight, and the trie answers
/// how much weight lies below a key and which keys are the smallest and the largest.
/// Keys are ordered as unsigned 64-bit numbers.
pub struct FenwickTree {
    root: TreeNode,
}

impl FenwickTree {
    /// The root's weight is the sum of its children's, and below it no empty node is kept.
    pub closed spec fn wf(&self) -> bool {
        node_ok(self.root, 64)
    }

    /// Weight held for `k`.
    pub closed spec fn count(&self, k: u64) -> int {
        count_node(self.root, 64, k as int)
    }

    /// Weight held for the keys strictly below `k`.
    pub closed spec fn count_below(&self, k: u64) -> int {
        sum_node(self.root, 64, k as int)
    }

    /// Weight held for all keys.
    pub closed spec fn total(&self) -> int {
        self.root.v as int
    }

    /// `k` is the smallest key that holds weight.
    pub open spec fn is_min_key(&self, k: u64) -> bool {
        &&& self.count(k) > 0
        &&& forall|j: u64| j < k ==> self.count(j) == 0
    }

    /// `k` is the largest key that holds weight.
    pub open spec fn is_max_key(&self, k: u64) -> bool {
        &&& self.count(k) > 0
        &&& forall|j: u64| j > k ==> self.count(j) == 0
    }

    /// `next` is this trie after adding `val` to the weight of `x`.
    pub open spec fn inserted(&self, next: FenwickTree, x: i64, val: int) -> bool {
        &&& next.wf()
        &&& next.total() == self.total() + val
        &&& forall|k: u64|
            #[trigger] next.count(k) == self.count(k) + if k == x as u64 {
                val
            } else {
                0
            }
    }

    pub fn new() -> (t: Self)
        ensures
            t.wf(),
            t.total() == 0,
            forall|k: u64| t.count(k) == 0,
    {
        FenwickTree { root: TreeNode::new() }
    }

    /// Whether no key holds weight.
    pub fn is_empty(&self) -> (r: bool)
        requires
            self.wf(),
        ensures
            r == (self.total() == 0),
            r <==> forall|k: u64| self.count(k) == 0,
    {
        proof {
            self.lemma_total_is_sum();
            if self.total() != 0 {
                let k = lemma_has_key(if self.root.l is Some { self.root.l } else { self.root.r }, 63);
                lemma_half_span(64);
                lemma2_to64();
                lemma2_to64_rest();
                if self.root.l is Some {
                    assert(self.count(k as u64) > 0);
                } else {
                    assert(self.count((k + half_span(64)) as u64) > 0);
                }
            }
        }
        self.root.v == 0
    }

    /// The weight below key 0 is zero, and the weight below `k + 1` adds `k`'s own.
    pub proof fn lemma_count_below_step(&self, k: u64)
        ensures
            self.count_below(0) == 0,
            k < u64::MAX ==> self.count_below((k + 1) as u64) == self.count_below(k) + self.count(k),
    {
    }

    /// The total weight is the sum over all keys, and no key holds a negative weight.
    proof fn lemma_total_is_sum(&self)
        requires
            self.wf(),
        ensures
            self.total() == sum_node(self.root, 64, pow2(64) as int),
            forall|k: u64| 0 <= #[trigger] self.count(k) <= self.total(),
    {
        lemma_half_span(64);
        lemma_sum_split(self.root, 64, pow2(64) as int);
        lemma_weight_is_sum(self.root.l, 63);
        lemma_weight_is_sum(self.root.r, 63);
        assert forall|k: u64| 0 <= #[trigger] self.count(k) <= self.total() by {
            lemma2_to64();
            lemma2_to64_rest();
            lemma_count_bounds(self.root.l, 63, k as int);
            lemma_count_bounds(self.root.r, 63, k as int - half_span(64));
        }
    }

    /// Adds `val` (which may be negative) to the weight of `x`. A node whose weight
    /// drops to zero is cut off with everything below it.
    pub fn insert(&mut self, x: i64, val: i64)
        requires
            old(self).wf(),
            val > 0 ==> old(self).total() + val <= i64::MAX,
            val < 0 ==> old(self).count(x as u64) + val >= 0,
        ensures
            old(self).inserted(*final(self), x, val as int),
    {
        if val == 0 {
            return;
        }
        let key: u64 = x as u64;
        let half: u64 = 0x8000_0000_0000_0000;
        proof {
            lemma2_to64();
            lemma2_to64_rest();
            lemma_half_span(64);
            lemma_half_span(63);
            self.lemma_total_is_sum();
            lemma_count_bounds(self.root.l, 63, key as int);
            lemma_count_bounds(self.root.r, 63, key as int - half);
        }
        let ghost before = *old(self);
        let ghost old_l = self.root.l;
        let ghost old_r = self.root.r;
        self.root.v = self.root.v + val;
        if key < half {
            insert_in(&mut self.root.l, 63, key, half / 2, val);
        } else {
            insert_in(&mut self.root.r, 63, key - half, half / 2, val);
        }
        proof {
            assert forall|k: u64| #[trigger] self.count(k) == before.count(k) + if k == x as u64 {
                val as int
            } else {
                0
            } by {
                if (k as int) < half {
                    assert(count_in(self.root.l, 63, k as int) == count_in(old_l, 63, k as int) + if k == key { val as int } else { 0 });
                } else {
                    assert(count_in(self.root.r, 63, k - half) == count_in(old_r, 63, k - half) + if k - half == key - half { val as int } else { 0 });
                }
            }
        }
    }

    /// Weight below `x` and weight up to and including `x`.
    pub fn find_num(&self, x: i64) -> (r: (i64, i64))
        requires
            self.wf(),
        ensures
            r.0 == self.count_below(x as u64),
            r.1 == self.count_below(x as u64) + self.count(x as u64),
    {
        let key: u64 = x as u64;
        let mut node: &TreeNode = &self.root;
        let mut val: i64 = 0;
        let mut rem: u64 = key;
        let mut half: u64 = 0x8000_0000_0000_0000;
        let mut lvl: u64 = 64;
        proof {
            lemma2_to64();
            lemma2_to64_rest();
            lemma_half_span(64);
        }
        while lvl > 0
            invariant
                key == x as u64,
                lvl <= 64,
                node_ok(*node, lvl as nat),
                lvl > 0 ==> half == half_span(lvl as nat),
                rem < pow2(lvl as nat),
                0 <= val,
                val + node.v <= self.total(),
                val + sum_node(*node, lvl as nat, rem as int) == self.count_below(key),
                count_node(*node, lvl as nat, rem as int) == self.count(key),
            decreases lvl,
        {
            proof {
                lemma_half_span(lvl as nat);
                if lvl > 1 {
                    lemma_half_span((lvl - 1) as nat);
                }
                lemma_sum_split(*node, lvl as nat, rem as int);
                lemma_sum_absent(node.l, (lvl - 1) as nat, rem as int);
                lemma_sum_absent(node.r, (lvl - 1) as nat, rem - half);
                lemma_weight_is_sum(node.l, (lvl - 1) as nat);
                lemma_weight_is_sum(node.r, (lvl - 1) as nat);
            }
            if rem < half {
                match &node.l {
                    Some(c) => {
                        node = &**c;
                    },
                    None => {
                        return (val, val);
                    },
                }
            } else {
                if let Some(c) = &node.l {
                    val = val + c.v;
                }
                rem = rem - half;
                match &node.r {
                    Some(c) => {
                        node = &**c;
                    },
                    None => {
                        return (val, val);
                    },
                }
            }
            lvl = lvl - 1;
            half = half / 2;
        }
        proof {
            lemma_span_zero();
        }
        (val, val + node.v)
    }

    /// The smallest key that holds weight; 0 on an empty trie.
    pub fn find_min(&self) -> (r: i64)
        requires
            self.wf(),
        ensures
            self.total() == 0 ==> r == 0,
            self.total() > 0 ==> self.is_min_key(r as u64),
    {
        if self.root.v == 0 {
            return 0;
        }
        let mut node: &TreeNode = &self.root;
        let mut min_val: u64 = 0;
        let mut half: u64 = 0x8000_0000_0000_0000;
        let mut lvl: u64 = 64;
        proof {
            lemma2_to64();
            lemma2_to64_rest();
            lemma_half_span(64);
            assert forall|k: int| 0 <= k < pow2(64) implies #[trigger] count_node(*node, 64, k)
                == self.count((min_val + k) as u64) by {}
        }
        while lvl > 0
            invariant
                lvl <= 64,
                node_ok(*node, lvl as nat),
                node.v > 0,
                lvl > 0 ==> half == half_span(lvl as nat),
                min_val + pow2(lvl as nat) <= pow2(64),
                forall|k: int|
                    0 <= k < pow2(lvl as nat) ==> #[trigger] count_node(*node, lvl as nat, k)
                        == self.count((min_val + k) as u64),
                forall|j: u64| j < min_val ==> self.count(j) == 0,
            decreases lvl,
        {
            proof {
                lemma2_to64();
                lemma2_to64_rest();
                lemma_half_span(lvl as nat);
                if lvl > 1 {
                    lemma_half_span((lvl - 1) as nat);
                }
            }
            let ghost h = half_span(lvl as nat);
            let ghost parent = *node;
            match &node.l {
                Some(c) => {
                    node = &**c;
                    proof {
                        assert forall|k: int| 0 <= k < pow2((lvl - 1) as nat) implies #[trigger] count_node(
                            *node,
                            (lvl - 1) as nat,
                            k,
                        ) == self.count((min_val + k) as u64) by {
                            assert(count_node(parent, lvl as nat, k) == self.count((min_val + k) as u64));
                        }
                    }
                },
                None => {
                    match &node.r {
                        Some(c) => {
                            proof {
                                assert forall|j: u64| j < min_val + half implies self.count(j) == 0 by {
                                    if j >= min_val {
                                        assert(count_node(parent, lvl as nat, j - min_val) == self.count(
                                            (min_val + (j - min_val)) as u64,
                                        ));
                                    }
                                }
                            }
                            node = &**c;
                            proof {
                                assert forall|k: int| 0 <= k < pow2((lvl - 1) as nat) implies #[trigger] count_node(
                                    *node,
                                    (lvl - 1) as nat,
                                    k,
                                ) == self.count((min_val + half + k) as u64) by {
                                    assert(count_node(parent, lvl as nat, k + h) == self.count(
                                        (min_val + (k + h)) as u64,
                                    ));
                                }
                            }
                            min_val = min_val + half;
                        },
                        None => {
                            return 0;
                        },
                    }
                },
            }
            lvl = lvl - 1;
            half = half / 2;
        }
        proof {
            lemma_span_zero();
            assert(count_node(*node, 0, 0) == self.count((min_val + 0) as u64));
            assert((min_val as i64) as u64 == min_val) by (bit_vector);
        }
        min_val as i64
    }

    /// The largest key that holds weight; 0 on an empty trie.
    pub fn find_max(&self) -> (r: i64)
        requires
            self.wf(),
        ensures
            self.total() == 0 ==> r == 0,
            self.total() > 0 ==> self.is_max_key(r as u64),
    {
        if self.root.v == 0 {
            return 0;
        }
        let mut node: &TreeNode = &self.root;
        let mut max_val: u64 = 0;
        let mut half: u64 = 0x8000_0000_0000_0000;
        let mut lvl: u64 = 64;
        proof {
            lemma2_to64();
            lemma2_to64_rest();
            lemma_half_span(64);
            assert forall|k: int| 0 <= k < pow2(64) implies #[trigger] count_node(*node, 64, k)
                == self.count((max_val + k) as u64) by {}
        }
        while lvl > 0
            invariant
                lvl <= 64,
                node_ok(*node, lvl as nat),
                node.v > 0,
                lvl > 0 ==> half == half_span(lvl as nat),
                max_val + pow2(lvl as nat) <= pow2(64),
                forall|k: int|
                    0 <= k < pow2(lvl as nat) ==> #[trigger] count_node(*node, lvl as nat, k)
                        == self.count((max_val + k) as u64),
                forall|j: u64| j >= max_val + pow2(lvl as nat) ==> self.count(j) == 0,
            decreases lvl,
        {
            proof {
                lemma2_to64();
                lemma2_to64_rest();
                lemma_half_span(lvl as nat);
                if lvl > 1 {
                    lemma_half_span((lvl - 1) as nat);
                }
            }
            let ghost h = half_span(lvl as nat);
            let ghost parent = *node;
            match &node.r {
                Some(c) => {
                    node = &**c;
                    proof {
                        assert forall|k: int| 0 <= k < pow2((lvl - 1) as nat) implies #[trigger] count_node(
                            *node,
                            (lvl - 1) as nat,
                            k,
                        ) == self.count((max_val + half + k) as u64) by {
                            assert(count_node(parent, lvl as nat, k + h) == self.count(
                                (max_val + (k + h)) as u64,
                            ));
                        }
                    }
                    max_val = max_val + half;
                },
                None => {
                    match &node.l {
                        Some(c) => {
                            proof {
                                assert forall|j: u64| j >= max_val + h implies self.count(j) == 0 by {
                                    if j < max_val + pow2(lvl as nat) {
                                        assert(count_node(parent, lvl as nat, j - max_val) == self.count(
                                            (max_val + (j - max_val)) as u64,
                                        ));
                                    }
                                }
                            }
                            node = &**c;
                            proof {
                                assert forall|k: int| 0 <= k < pow2((lvl - 1) as nat) implies #[trigger] count_node(
                                    *node,
                                    (lvl - 1) as nat,
                                    k,
                                ) == self.count((max_val + k) as u64) by {
                                    assert(count_node(parent, lvl as nat, k) == self.count((max_val + k) as u64));
                                }
                            }
                        },
                        None => {
                            return 0;
                        },
                    }
                },
            }
            lvl = lvl - 1;
            half = half / 2;
        }
        proof {
            lemma_span_zero();
            assert(count_node(*node, 0, 0) == self.count((max_val + 0) as u64));
            assert((max_val as i64) as u64 == max_val) by (bit_vector);
        }
        max_val as i64
    }


    /// The key at which the running weight, counted upward from key 0, passes `rank`:
    /// the weight below it is at most `rank`, and with its own weight exceeds `rank`.
    pub fn find_rank(&self, rank: i64) -> (r: i64)
        requires
            self.wf(),
            0 <= rank < self.total(),
        ensures
            self.count_below(r as u64) <= rank < self.count_below(r as u64) + self.count(r as u64),
    {
        let mut node: &TreeNode = &self.root;
        let mut base: u64 = 0;
        let mut acc: i64 = 0;
        let mut rem: i64 = rank;
        let mut half: u64 = 0x8000_0000_0000_0000;
        let mut lvl: u64 = 64;
        proof {
            lemma2_to64();
            lemma2_to64_rest();
            lemma_half_span(64);
            assert forall|k: int| 0 <= k < pow2(64) implies #[trigger] count_node(*node, 64, k)
                == self.count((base + k) as u64) by {}
            assert forall|j: int| 0 <= j < pow2(64) implies #[trigger] sum_node(*node, 64, j) + acc
                == self.count_below((base + j) as u64) by {}
        }
        while lvl > 0
            invariant
                lvl <= 64,
                node_ok(*node, lvl as nat),
                0 <= rem < node.v,
                0 <= acc,
                acc + rem == rank,
                lvl > 0 ==> half == half_span(lvl as nat),
                base + pow2(lvl as nat) <= pow2(64),
                forall|k: int|
                    0 <= k < pow2(lvl as nat) ==> #[trigger] count_node(*node, lvl as nat, k)
                        == self.count((base + k) as u64),
                forall|j: int|
                    0 <= j < pow2(lvl as nat) ==> #[trigger] sum_node(*node, lvl as nat, j) + acc
                        == self.count_below((base + j) as u64),
            decreases lvl,
        {
            proof {
                lemma2_to64();
                lemma2_to64_rest();
                lemma_half_span(lvl as nat);
                if lvl > 1 {
                    lemma_half_span((lvl - 1) as nat);
                }
                lemma_weight_is_sum(node.l, (lvl - 1) as nat);
            }
            let ghost h = half_span(lvl as nat);
            let ghost parent = *node;
            let ghost old_acc = acc;
            let wl: i64 = match &node.l {
                Some(c) => c.v,
                None => 0,
            };
            if rem < wl {
                match &node.l {
                    Some(c) => {
                        node = &**c;
                    },
                    None => {
                        return 0;
                    },
                }
                proof {
                    assert forall|k: int| 0 <= k < pow2((lvl - 1) as nat) implies #[trigger] count_node(
                        *node,
                        (lvl - 1) as nat,
                        k,
                    ) == self.count((base + k) as u64) by {
                        assert(count_node(parent, lvl as nat, k) == self.count((base + k) as u64));
                    }
                    assert forall|j: int| 0 <= j < pow2((lvl - 1) as nat) implies #[trigger] sum_node(
                        *node,
                        (lvl - 1) as nat,
                        j,
                    ) + acc == self.count_below((base + j) as u64) by {
                        lemma_sum_split(parent, lvl as nat, j);
                        assert(sum_node(parent, lvl as nat, j) + acc == self.count_below((base + j) as u64));
                    }
                }
            } else {
                rem = rem - wl;
                acc = acc + wl;
                match &node.r {
                    Some(c) => {
                        node = &**c;
                    },
                    None => {
                        return 0;
                    },
                }
                proof {
                    assert forall|k: int| 0 <= k < pow2((lvl - 1) as nat) implies #[trigger] count_node(
                        *node,
                        (lvl - 1) as nat,
                        k,
                    ) == self.count((base + half + k) as u64) by {
                        assert(count_node(parent, lvl as nat, k + h) == self.count(
                            (base + (k + h)) as u64,
                        ));
                    }
                    assert forall|j: int| 0 <= j < pow2((lvl - 1) as nat) implies #[trigger] sum_node(
                        *node,
                        (lvl - 1) as nat,
                        j,
                    ) + acc == self.count_below((base + half + j) as u64) by {
                        lemma_sum_split(parent, lvl as nat, j + h);
                        assert(sum_node(parent, lvl as nat, j + h) + old_acc == self.count_below(
                            (base + (j + h)) as u64,
                        ));
                    }
                }
                base = base + half;
            }
            lvl = lvl - 1;
            half = half / 2;
        }
        proof {
            lemma_span_zero();
            assert(count_node(*node, 0, 0) == self.count((base + 0) as u64));
            assert(sum_node(*node, 0, 0) + acc == self.count_below((base + 0) as u64));
            assert((base as i64) as u64 == base) by (bit_vector);
        }
        base as i64
    }

}

} // verus!

verus! {

/// Two well-formed tries that hold the same weight for every key are the same trie,
/// node for node.
pub proof fn lemma_same_counts_same_trie(a: FenwickTree, b: FenwickTree)
    requires
        a.wf(),
        b.wf(),
        forall|k: u64| a.count(k) == b.count(k),
    ensures
        a == b,
{
    lemma2_to64();
    lemma2_to64_rest();
    assert forall|k: int| 0 <= k < pow2(64) implies #[trigger] count_node(a.root, 64, k) == count_node(
        b.root,
        64,
        k,
    ) by {
        assert(a.count(k as u64) == b.count(k as u64));
    }
    lemma_canonical_node(a.root, b.root, 64);
}

/// Adding a weight to a key and then taking the same weight away again gives back the
/// very trie one started from: no emptied node is left behind.
pub proof fn lemma_add_then_remove(t0: FenwickTree, t1: FenwickTree, t2: FenwickTree, x: i64, v: int)
    requires
        t0.wf(),
        t0.inserted(t1, x, v),
        t1.inserted(t2, x, -v),
    ensures
        t2 == t0,
{
    assert forall|k: u64| t2.count(k) == t0.count(k) by {
        assert(t1.count(k) == t0.count(k) + if k == x as u64 { v } else { 0 });
        assert(t2.count(k) == t1.count(k) + if k == x as u64 { -v } else { 0 });
    }
    lemma_same_counts_same_trie(t2, t0);
}

} // verus!
