//! Array-backed segment tree over a caller-supplied combining operator.
//!
//! The leaves sit in the upper half of one vector, padded with the unit
//! element up to a power of two; every internal node holds the combination
//! of its two children.  Point updates recompute the path to the root.

use vstd::prelude::*;

verus! {

/// The combining operator of the tree, supplied by the caller together
/// with any read-only context it needs.
pub trait SegOps: Sized {
    type Value: Copy;

    /// What `op` computes.
    spec fn op_spec(&self, a: Self::Value, b: Self::Value) -> Self::Value;

    fn op(&self, a: Self::Value, b: Self::Value) -> (r: Self::Value)
        ensures
            r == self.op_spec(a, b),
    ;
}

/// `i` lies on the path from node `j` up to the root (inclusive).
pub open spec fn on_path(j: int, i: int) -> bool
    decreases j,
        when j >= 0
{
    if i == j {
        true
    } else if j == 0 {
        false
    } else {
        on_path((j - 1) / 2, i)
    }
}

/// Powers of two, for the padded leaf count.
pub open spec fn pow2(e: nat) -> nat
    decreases e,
{
    if e == 0 {
        1
    } else {
        2 * pow2((e - 1) as nat)
    }
}

/// `x` is a power of two.
pub open spec fn is_pow2(x: int) -> bool {
    exists|e: nat| x == pow2(e)
}

/// The operator is associative and has `unit` as a two-sided identity —
/// the documented precondition for range queries to mean anything.
pub open spec fn lawful<Op: SegOps>(op: Op, unit: Op::Value) -> bool {
    &&& forall|a: Op::Value, b: Op::Value, c: Op::Value|
        #![trigger op.op_spec(op.op_spec(a, b), c)]
        op.op_spec(op.op_spec(a, b), c) == op.op_spec(a, op.op_spec(b, c))
    &&& forall|a: Op::Value| #[trigger] op.op_spec(unit, a) == a
    &&& forall|a: Op::Value| #[trigger] op.op_spec(a, unit) == a
}

/// A point-update range-aggregate tree.
pub struct SegmentTree<Op: SegOps> {
    nodes: Vec<Op::Value>,
    unit_elem: Op::Value,
    op: Op,
    first_leaf: usize,
}

impl<Op: SegOps> SegmentTree<Op> {
    /// The stored node values, internal nodes first.
    pub closed spec fn nodes_seq(self) -> Seq<Op::Value> {
        self.nodes@
    }

    /// Index of the first leaf slot.
    pub closed spec fn first(self) -> int {
        self.first_leaf as int
    }

    /// The unit element the tree was built with.
    pub closed spec fn unit(self) -> Op::Value {
        self.unit_elem
    }

    /// The operator the tree was built with.
    pub closed spec fn ops_spec(self) -> Op {
        self.op
    }

    /// How many leaf slots the tree has (a power of two).
    pub open spec fn capacity(self) -> int {
        self.first() + 1
    }

    /// The value currently stored in leaf `i`.
    pub open spec fn leaf(self, i: int) -> Op::Value {
        self.nodes_seq()[self.first() + i]
    }

    /// The ordered combination of the leaves `a..b`: the unit when the
    /// range is empty, else every leaf folded in from the left.
    pub open spec fn fold_leaves(self, a: int, b: int) -> Op::Value
        decreases b - a,
    {
        if b <= a {
            self.unit()
        } else {
            self.ops_spec().op_spec(self.fold_leaves(a, b - 1), self.leaf(b - 1))
        }
    }

    /// Shape and consistency: the node array covers the leaves exactly, and
    /// every internal node combines its children.
    pub open spec fn wf(self) -> bool {
        &&& self.nodes_seq().len() == 2 * self.first() + 1
        &&& is_pow2(self.capacity())
        &&& forall|i: int|
            0 <= i < self.first() ==> #[trigger] self.nodes_seq()[i] == self.ops_spec().op_spec(
                self.nodes_seq()[2 * i + 1],
                self.nodes_seq()[2 * i + 2],
            )
    }

    /// Build the tree over `leaves`, padding with `unit_elem` up to the
    /// least power of two that holds them.
    #[verifier::loop_isolation(false)]
    pub fn new(leaves: &Vec<Op::Value>, unit_elem: &Op::Value, op: Op) -> (r: SegmentTree<Op>)
        requires
            leaves@.len() <= usize::MAX / 4,
        ensures
            r.wf(),
            r.capacity() >= leaves@.len(),
            r.capacity() >= 1,
            leaves@.len() == 0 ==> r.capacity() == 1,
            leaves@.len() >= 1 ==> r.capacity() < 2 * leaves@.len(),
            r.unit() == *unit_elem,
            r.ops_spec() == op,
            forall|i: int| 0 <= i < leaves@.len() ==> r.leaf(i) == leaves@[i],
            forall|i: int| leaves@.len() <= i < r.capacity() ==> r.leaf(i) == *unit_elem,
    {
        let len: usize = leaves.len();
        let mut n_leaves: usize = 1;
        let ghost mut exp: nat = 0nat;
        while n_leaves < len
            invariant
                1 <= n_leaves <= usize::MAX / 2,
                n_leaves == pow2(exp),
                n_leaves == 1 || n_leaves < 2 * len,
            decreases 2 * len - n_leaves,
        {
            n_leaves = n_leaves * 2;
            proof {
                exp = exp + 1;
            }
        }
        let first_leaf: usize = n_leaves - 1;
        let mut nodes: Vec<Op::Value> = Vec::new();
        let total: usize = n_leaves * 2 - 1;
        let mut k: usize = 0;
        while k < total
            invariant
                nodes@.len() == k <= total,
                forall|m: int| 0 <= m < k as int ==> #[trigger] nodes@[m] == *unit_elem,
            decreases total - k,
        {
            nodes.push(*unit_elem);
            k = k + 1;
        }
        let mut i: usize = 0;
        while i < len
            invariant
                nodes@.len() == total,
                total == 2 * first_leaf + 1,
                len <= n_leaves == first_leaf + 1,
                0 <= i <= len,
                forall|m: int|
                    0 <= m < i as int ==> #[trigger] nodes@[first_leaf + m] == leaves@[m],
                forall|m: int|
                    i as int <= m < n_leaves ==> #[trigger] nodes@[first_leaf + m] == *unit_elem,
                forall|m: int| 0 <= m < first_leaf ==> #[trigger] nodes@[m] == *unit_elem,
            decreases len - i,
        {
            nodes[first_leaf + i] = leaves[i];
            i = i + 1;
        }
        let mut j: usize = first_leaf;
        while j > 0
            invariant
                nodes@.len() == total,
                total == 2 * first_leaf + 1,
                len <= n_leaves == first_leaf + 1,
                0 <= j <= first_leaf,
                forall|m: int|
                    0 <= m < len as int ==> #[trigger] nodes@[first_leaf + m] == leaves@[m],
                forall|m: int|
                    len as int <= m < n_leaves ==> #[trigger] nodes@[first_leaf + m] == *unit_elem,
                forall|m: int|
                    j as int <= m < first_leaf ==> #[trigger] nodes@[m] == op.op_spec(
                        nodes@[2 * m + 1],
                        nodes@[2 * m + 2],
                    ),
            decreases j,
        {
            j = j - 1;
            let left_child = nodes[2 * j + 1];
            let right_child = nodes[2 * j + 2];
            let combined = op.op(left_child, right_child);
            nodes[j] = combined;
        }
        SegmentTree { nodes, unit_elem: *unit_elem, op, first_leaf }
    }

    /// Overwrite leaf `leaf_id` and recompute the combinations along the
    /// path to the root; every other leaf keeps its value.
    #[verifier::loop_isolation(false)]
    pub fn update(&mut self, leaf_id: usize, val: Op::Value)
        requires
            old(self).wf(),
            0 <= (leaf_id as int) < old(self).capacity(),
        ensures
            final(self).wf(),
            final(self).first() == old(self).first(),
            final(self).unit() == old(self).unit(),
            final(self).ops_spec() == old(self).ops_spec(),
            final(self).leaf(leaf_id as int) == val,
            forall|i: int|
                0 <= i < old(self).capacity() && i != leaf_id as int ==> final(self).leaf(i) == old(
                    self,
                ).leaf(i),
    {
        let ghost fl = self.first_leaf as int;
        let total: usize = self.nodes.len();
        let mut node_id: usize = self.first_leaf + leaf_id;
        self.nodes[self.first_leaf + leaf_id] = val;
        proof {
            assert(on_path(node_id as int, node_id as int));
            assert forall|i: int|
                0 <= i < fl && !(on_path(node_id as int, i) && i != node_id as int)
                    implies #[trigger] self.nodes@[i] == self.op.op_spec(
                self.nodes@[2 * i + 1],
                self.nodes@[2 * i + 2],
            ) by {
                assert(2 * i + 1 != node_id as int && 2 * i + 2 != node_id as int) by {
                    if 2 * i + 1 == node_id as int || 2 * i + 2 == node_id as int {
                        assert((node_id as int - 1) / 2 == i);
                        assert(on_path(i, i));
                        assert(on_path(node_id as int, i));
                    }
                };
            };
        }
        while node_id > 0
            invariant
                total == self.nodes@.len(),
                self.first_leaf as int == fl,
                self.unit_elem == old(self).unit_elem,
                self.op == old(self).op,
                self.nodes@.len() == 2 * fl + 1,
                (node_id as int) < self.nodes@.len(),
                self.nodes@[fl + leaf_id] == val,
                forall|m: int|
                    fl <= m < self.nodes@.len() && m != fl + leaf_id ==> #[trigger] self.nodes@[m]
                        == old(self).nodes@[m],
                forall|i: int|
                    0 <= i < fl && !(on_path(node_id as int, i) && i != node_id as int)
                        ==> #[trigger] self.nodes@[i] == self.op.op_spec(
                        self.nodes@[2 * i + 1],
                        self.nodes@[2 * i + 2],
                    ),
            decreases node_id,
        {
            let prev: usize = node_id;
            node_id = (node_id - 1) / 2;
            proof {
                vstd::arithmetic::div_mod::lemma_fundamental_div_mod(prev as int - 1, 2);
                vstd::arithmetic::div_mod::lemma_mod_bound(prev as int - 1, 2);
                assert(2 * (node_id as int) + 1 == prev as int || 2 * (node_id as int) + 2
                    == prev as int);
                assert((node_id as int) < fl);
            }
            let left_child = self.nodes[2 * node_id + 1];
            let right_child = self.nodes[2 * node_id + 2];
            let combined = self.op.op(left_child, right_child);
            self.nodes[node_id] = combined;
            proof {
                assert forall|i: int|
                    0 <= i < fl && !(on_path(node_id as int, i) && i != node_id as int)
                        implies #[trigger] self.nodes@[i] == self.op.op_spec(
                    self.nodes@[2 * i + 1],
                    self.nodes@[2 * i + 2],
                ) by {
                    if i != node_id as int {
                        assert(on_path(prev as int, i) == (i == prev as int || on_path(
                            node_id as int,
                            i,
                        )));
                        assert(2 * i + 1 != node_id as int && 2 * i + 2 != node_id as int) by {
                            if 2 * i + 1 == node_id as int || 2 * i + 2 == node_id as int {
                                assert((node_id as int - 1) / 2 == i);
                                assert(on_path(i, i));
                                assert(on_path(node_id as int, i));
                            }
                        };
                    }
                };
            }
        }
    }

    /// How many leaf slots the tree holds (its padded, power-of-two width).
    pub fn leaf_count(&self) -> (r: usize)
        requires
            self.wf(),
        ensures
            r as int == self.capacity(),
    {
        let total: usize = self.nodes.len();
        self.first_leaf + 1
    }

    /// The ordered combination of the leaves in `left..right`, clamped to
    /// the tree's width; the unit element when the range is empty.
    pub fn query(&self, left: usize, right: usize) -> (r: Op::Value)
        requires
            self.wf(),
            lawful(self.ops_spec(), self.unit()),
        ensures
            r == self.fold_leaves(left as int, vstd::math::min(right as int, self.capacity())),
    {
        let total: usize = self.nodes.len();
        proof {
            assert((0int + 1) * (self.capacity() - 0) == self.capacity() + 0);
        }
        let r = self.query_inner(left, right, 0, 0, self.first_leaf + 1);
        proof {
            assert(vstd::math::max(left as int, 0int) == left as int);
        }
        r
    }

    /// One step of the range decomposition: the combination of the leaves of
    /// this node's range that lie inside the query range.
    fn query_inner(
        &self,
        query_left: usize,
        query_right: usize,
        node_id: usize,
        node_left: usize,
        node_right: usize,
    ) -> (r: Op::Value)
        requires
            self.wf(),
            lawful(self.ops_spec(), self.unit()),
            node_left < node_right,
            node_right as int <= self.capacity(),
            is_pow2(node_right as int - node_left as int),
            (node_id as int + 1) * (node_right as int - node_left as int) == self.capacity()
                + node_left as int,
        ensures
            r == self.fold_leaves(
                vstd::math::max(query_left as int, node_left as int),
                vstd::math::min(query_right as int, node_right as int),
            ),
        decreases node_right - node_left,
    {
        let ghost lo = vstd::math::max(query_left as int, node_left as int);
        let ghost hi = vstd::math::min(query_right as int, node_right as int);
        let total: usize = self.nodes.len();
        if node_right <= query_left || query_right <= node_left {
            proof {
                assert(hi <= lo);
            }
            return self.unit_elem;
        }
        if query_left <= node_left && node_right <= query_right {
            proof {
                lemma_node_fold(*self, node_id as int, node_left as int, node_right as int);
            }
            return self.nodes[node_id];
        }
        proof {
            if node_right as int - node_left as int == 1 {
                assert(false);
            }
            lemma_split_node(
                self.capacity(),
                node_id as int,
                node_left as int,
                node_right as int,
            );
        }
        let mid: usize = (node_left + node_right) / 2;
        let left_val = self.query_inner(query_left, query_right, 2 * node_id + 1, node_left, mid);
        let right_val = self.query_inner(query_left, query_right, 2 * node_id + 2, mid, node_right);
        let r = self.op.op(left_val, right_val);
        proof {
            let m = mid as int;
            if hi <= lo {
                assert(vstd::math::min(query_right as int, m) <= vstd::math::max(
                    query_left as int,
                    node_left as int,
                ));
                assert(left_val == self.unit());
                assert(right_val == self.unit());
            } else if hi <= m {
                assert(left_val == self.fold_leaves(lo, hi));
                assert(right_val == self.unit());
            } else if lo >= m {
                assert(left_val == self.unit());
                assert(right_val == self.fold_leaves(lo, hi));
            } else {
                assert(left_val == self.fold_leaves(lo, m));
                assert(right_val == self.fold_leaves(m, hi));
                lemma_fold_split(*self, lo, m, hi);
            }
        }
        r
    }

    /// The value stored in leaf `leaf_id`.
    pub fn get_val(&self, leaf_id: usize) -> (r: Op::Value)
        requires
            self.wf(),
            0 <= (leaf_id as int) < self.capacity(),
        ensures
            r == self.leaf(leaf_id as int),
    {
        let total: usize = self.nodes.len();
        self.nodes[self.first_leaf + leaf_id]
    }
}

/// Every power of two is positive.
proof fn lemma_pow2_pos(e: nat)
    ensures
        pow2(e) >= 1,
    decreases e,
{
    if e > 0 {
        lemma_pow2_pos((e - 1) as nat);
    }
}

/// Folds over adjacent leaf ranges combine, given the operator laws.
proof fn lemma_fold_split<Op: SegOps>(s: SegmentTree<Op>, a: int, b: int, c: int)
    requires
        lawful(s.ops_spec(), s.unit()),
        a <= b <= c,
    ensures
        s.fold_leaves(a, c) == s.ops_spec().op_spec(s.fold_leaves(a, b), s.fold_leaves(b, c)),
    decreases c - b,
{
    if c == b {
        assert(s.fold_leaves(b, c) == s.unit());
    } else {
        lemma_fold_split(s, a, b, c - 1);
    }
}

/// Arithmetic of one split step: the two children of an aligned node are
/// aligned over the two halves of its range, and the node is internal.
proof fn lemma_split_node(p: int, i: int, nl: int, nr: int)
    requires
        p >= 1,
        0 <= nl < nr <= p,
        is_pow2(nr - nl),
        nr - nl >= 2,
        (i + 1) * (nr - nl) == p + nl,
    ensures
        (nr - nl) % 2 == 0,
        is_pow2((nr - nl) / 2),
        nl < (nl + nr) / 2 < nr,
        (nl + nr) / 2 == nl + (nr - nl) / 2,
        (2 * i + 2) * ((nl + nr) / 2 - nl) == p + nl,
        (2 * i + 3) * (nr - (nl + nr) / 2) == p + (nl + nr) / 2,
        0 <= i < p - 1,
{
    let e = choose|e: nat| nr - nl == pow2(e);
    if e == 0 {
        assert(false);
    }
    assert(pow2(e) == 2 * pow2((e - 1) as nat));
    let half = pow2((e - 1) as nat) as int;
    lemma_pow2_pos((e - 1) as nat);
    assert(nr - nl == 2 * half);
    assert(is_pow2(half)) by {
        assert(half == pow2((e - 1) as nat));
    };
    assert((nl + nr) / 2 == nl + half);
    assert((2 * i + 2) * half == p + nl) by (nonlinear_arith)
        requires
            (i + 1) * (2 * half) == p + nl,
    ;
    assert((2 * i + 3) * half == p + nl + half) by (nonlinear_arith)
        requires
            (i + 1) * (2 * half) == p + nl,
    ;
    assert(i >= 0) by (nonlinear_arith)
        requires
            (i + 1) * (nr - nl) == p + nl,
            nr - nl >= 2,
            p >= 1,
            nl >= 0,
    ;
    assert(i < p - 1) by (nonlinear_arith)
        requires
            (i + 1) * (nr - nl) == p + nl,
            nl <= p - (nr - nl),
            nr - nl >= 2,
            i >= 0,
    ;
}

/// Under the laws, every aligned node stores the fold of its leaf range.
proof fn lemma_node_fold<Op: SegOps>(s: SegmentTree<Op>, i: int, nl: int, nr: int)
    requires
        s.wf(),
        lawful(s.ops_spec(), s.unit()),
        0 <= nl < nr <= s.capacity(),
        is_pow2(nr - nl),
        (i + 1) * (nr - nl) == s.capacity() + nl,
    ensures
        0 <= i < s.nodes_seq().len(),
        s.nodes_seq()[i] == s.fold_leaves(nl, nr),
    decreases nr - nl,
{
    let p = s.capacity();
    if nr - nl == 1 {
        assert(i == s.first() + nl);
        assert(s.fold_leaves(nl, nl) == s.unit());
        assert(s.fold_leaves(nl, nl + 1) == s.ops_spec().op_spec(s.unit(), s.leaf(nl)));
        assert(s.nodes_seq()[i] == s.leaf(nl));
    } else {
        lemma_split_node(p, i, nl, nr);
        let mid = (nl + nr) / 2;
        lemma_node_fold(s, 2 * i + 1, nl, mid);
        lemma_node_fold(s, 2 * i + 2, mid, nr);
        assert(s.nodes_seq()[i] == s.ops_spec().op_spec(
            s.nodes_seq()[2 * i + 1],
            s.nodes_seq()[2 * i + 2],
        ));
        lemma_fold_split(s, nl, mid, nr);
    }
}

/// Saturating sum of `u64` values, a ready-made operator for sum queries.
pub struct SatSum;

impl SegOps for SatSum {
    type Value = u64;

    open spec fn op_spec(&self, a: u64, b: u64) -> u64 {
        if a + b > u64::MAX {
            u64::MAX
        } else {
            (a + b) as u64
        }
    }

    fn op(&self, a: u64, b: u64) -> u64 {
        if a > u64::MAX - b {
            u64::MAX
        } else {
            a + b
        }
    }
}

} // verus!
