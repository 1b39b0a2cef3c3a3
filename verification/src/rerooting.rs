//! All-roots tree dynamic programming (rerooting).
//!
//! Given an unrooted tree and a pair of operators — an associative `merge`
//! with identity over aggregate values, and an `add_root` step folding a
//! vertex into the merged value of its neighbours' contributions — the
//! engine computes, for every vertex, the aggregate obtained when the tree
//! is rooted at that vertex, in linear work.  It runs one downward pass from
//! vertex 0 and one rerooting pass that re-derives each "all but one
//! neighbour" merge by prefix/suffix accumulation.

use vstd::prelude::*;
use vstd::seq_lib::*;
use vstd::set_lib::*;

verus! {

/// The caller-supplied algebra: an associative merge with identity, and a
/// per-vertex incorporation step.  Implementations carry any read-only
/// context the operators need.
pub trait RerootOps: Sized {
    type Value: Copy;

    /// The identity element of `merge`.
    spec fn identity_spec(&self) -> Self::Value;

    /// What `merge` computes.
    spec fn merge_spec(&self, a: Self::Value, b: Self::Value) -> Self::Value;

    /// What `add_root` computes.
    spec fn add_root_spec(&self, a: Self::Value, v: int) -> Self::Value;

    /// The identity element is two-sided.
    proof fn law_identity(&self, a: Self::Value)
        ensures
            self.merge_spec(self.identity_spec(), a) == a,
            self.merge_spec(a, self.identity_spec()) == a,
    ;

    /// `merge` is associative.
    proof fn law_assoc(&self, a: Self::Value, b: Self::Value, c: Self::Value)
        ensures
            self.merge_spec(self.merge_spec(a, b), c) == self.merge_spec(
                a,
                self.merge_spec(b, c),
            ),
    ;

    fn identity(&self) -> (r: Self::Value)
        ensures
            r == self.identity_spec(),
    ;

    fn merge(&self, a: Self::Value, b: Self::Value) -> (r: Self::Value)
        ensures
            r == self.merge_spec(a, b),
    ;

    fn add_root(&self, a: Self::Value, v: usize) -> (r: Self::Value)
        ensures
            r == self.add_root_spec(a, v as int),
    ;
}

/// The adjacency list together with one rooting of it (parents and depths
/// with respect to vertex 0), used by every specification below.
pub struct TreeShape {
    pub adj: Seq<Seq<int>>,
    pub par: Seq<int>,
    pub dep: Seq<int>,
}

/// The mathematical view of an adjacency list.
pub open spec fn view_adj(adj: &Vec<Vec<usize>>) -> Seq<Seq<int>> {
    adj@.map_values(|row: Vec<usize>| row@.map_values(|x: usize| x as int))
}

/// Local well-formedness of an adjacency list: at least one vertex, entries
/// in range, no self-loops, no repeated neighbour, and symmetry.
pub open spec fn wf_shape(adj: Seq<Seq<int>>) -> bool {
    let n = adj.len() as int;
    &&& n >= 1
    &&& forall|v: int, i: int|
        0 <= v < n && 0 <= i < adj[v].len() ==> 0 <= #[trigger] adj[v][i] < n && adj[v][i] != v
    &&& forall|v: int| 0 <= v < n ==> (#[trigger] adj[v]).no_duplicates()
    &&& forall|v: int, i: int|
        0 <= v < n && 0 <= i < adj[v].len() ==> adj[#[trigger] adj[v][i]].contains(v)
}

/// A parent/depth assignment that roots the vertices at 0.
pub open spec fn rooted_shape(par: Seq<int>, dep: Seq<int>) -> bool {
    let n = par.len() as int;
    &&& dep.len() == n
    &&& n >= 1
    &&& dep[0] == 0
    &&& forall|v: int| 1 <= v < n ==> 0 <= #[trigger] par[v] < n && dep[v] == dep[par[v]] + 1
    &&& forall|v: int| 0 <= v < n ==> 0 <= #[trigger] dep[v] < n
}

/// The rooting matches the adjacency list: every non-root vertex lists its
/// parent, and every listed edge is a parent edge in one of its two
/// orientations.  Together with `wf_shape` this says exactly that the
/// adjacency list is a connected, acyclic, undirected graph.
pub open spec fn conforming(adj: Seq<Seq<int>>, par: Seq<int>, dep: Seq<int>) -> bool {
    let n = adj.len() as int;
    &&& par.len() == n
    &&& rooted_shape(par, dep)
    &&& par[0] == n
    &&& forall|v: int| 1 <= v < n ==> adj[v].contains(#[trigger] par[v])
    &&& forall|v: int, i: int|
        0 <= v < n && 0 <= i < adj[v].len() ==> ((v != 0 && #[trigger] adj[v][i] == par[v]) || (
        adj[v][i] != 0 && par[adj[v][i]] == v))
}

/// The adjacency list describes an undirected tree on its vertices.
pub open spec fn valid_tree(adj: Seq<Seq<int>>) -> bool {
    &&& wf_shape(adj)
    &&& exists|par: Seq<int>, dep: Seq<int>| conforming(adj, par, dep)
}

impl TreeShape {
    pub open spec fn n(self) -> int {
        self.adj.len() as int
    }

    pub open spec fn wf(self) -> bool {
        &&& wf_shape(self.adj)
        &&& conforming(self.adj, self.par, self.dep)
    }

    /// The neighbour excluded when computing `v`'s downward value: the
    /// parent of `v`, or the vertex count for the root, which matches no
    /// neighbour.
    pub open spec fn up(self, v: int) -> int {
        if v == 0 {
            self.n()
        } else {
            self.par[v]
        }
    }

    /// Termination measure for a downward computation at `v` that excludes
    /// neighbour `p`: excluding the parent only walks down `v`'s subtree,
    /// excluding a child may walk the whole rest of the tree.
    pub open spec fn mu(self, v: int, p: int) -> int {
        if v != 0 && p == self.par[v] {
            self.n() - self.dep[v]
        } else {
            self.n() + self.dep[v]
        }
    }
}

/// The value flowing from `v` towards the excluded neighbour `p`: the
/// downward tree-DP value of `v`'s side of the edge `(v, p)`.  This is the
/// reference ("brute force") semantics of one rooted pass.
pub open spec fn bf<Op: RerootOps>(ops: Op, t: TreeShape, v: int, p: int) -> Op::Value
    decreases t.mu(v, p), t.adj[v].len() + 1,
        when t.wf() && 0 <= v < t.n()
        via bf_decreases::<Op>
{
    ops.add_root_spec(bf_merge(ops, t, v, p, t.adj[v].len() as int), v)
}

/// The in-order merge of the downward values of the first `k` neighbours of
/// `v`, skipping the excluded neighbour `p`.
pub open spec fn bf_merge<Op: RerootOps>(ops: Op, t: TreeShape, v: int, p: int, k: int) -> Op::Value
    decreases t.mu(v, p), k,
        when t.wf() && 0 <= v < t.n() && 0 <= k <= t.adj[v].len()
        via bf_merge_decreases::<Op>
{
    if k <= 0 {
        ops.identity_spec()
    } else {
        let c = t.adj[v][k - 1];
        let rest = bf_merge(ops, t, v, p, k - 1);
        if c == p {
            rest
        } else {
            ops.merge_spec(rest, bf(ops, t, c, v))
        }
    }
}

#[via_fn]
proof fn bf_decreases<Op: RerootOps>(ops: Op, t: TreeShape, v: int, p: int) {
}

#[via_fn]
proof fn bf_merge_decreases<Op: RerootOps>(ops: Op, t: TreeShape, v: int, p: int, k: int) {
    if 0 < k <= t.adj[v].len() {
        let c = t.adj[v][k - 1];
        if c != p {
            assert((v != 0 && c == t.par[v]) || (c != 0 && t.par[c] == v));
            if v != 0 && c == t.par[v] {
                assert(t.dep[v] == t.dep[c] + 1);
                assert(t.mu(c, v) == t.n() + t.dep[c]);
            } else {
                assert(t.dep[c] == t.dep[v] + 1);
                assert(t.mu(c, v) == t.n() - t.dep[c]);
            }
        }
    }
}

/// `w` lies in the subtree of `a` (with respect to the rooting at 0).
pub open spec fn in_sub(par: Seq<int>, dep: Seq<int>, a: int, w: int) -> bool
    decreases dep[w],
        when rooted_shape(par, dep) && 0 <= w < par.len()
{
    if w == a {
        true
    } else if w == 0 {
        false
    } else {
        in_sub(par, dep, a, par[w])
    }
}

proof fn lemma_in_sub_dep(par: Seq<int>, dep: Seq<int>, a: int, w: int)
    requires
        rooted_shape(par, dep),
        0 <= w < par.len(),
        0 <= a < par.len(),
        in_sub(par, dep, a, w),
    ensures
        dep[w] >= dep[a],
    decreases dep[w],
{
    if w != a && w != 0 {
        lemma_in_sub_dep(par, dep, a, par[w]);
    }
}

/// Subtrees of distinct children of one vertex are disjoint.
proof fn lemma_sub_disjoint(par: Seq<int>, dep: Seq<int>, c1: int, c2: int, w: int)
    requires
        rooted_shape(par, dep),
        0 <= w < par.len(),
        1 <= c1 < par.len(),
        1 <= c2 < par.len(),
        c1 != c2,
        par[c1] == par[c2],
        in_sub(par, dep, c1, w),
    ensures
        !in_sub(par, dep, c2, w),
    decreases dep[w],
{
    if w == c1 {
        if in_sub(par, dep, c2, c1) {
            lemma_in_sub_dep(par, dep, c2, par[c1]);
        }
    } else if w == c2 {
        if in_sub(par, dep, c1, c2) {
            lemma_in_sub_dep(par, dep, c1, par[c2]);
        }
    } else if w != 0 {
        lemma_sub_disjoint(par, dep, c1, c2, par[w]);
    }
}

/// A vertex's subtree is contained in its parent's.
proof fn lemma_sub_mono(par: Seq<int>, dep: Seq<int>, c: int, w: int)
    requires
        rooted_shape(par, dep),
        0 <= w < par.len(),
        1 <= c < par.len(),
        in_sub(par, dep, c, w),
    ensures
        in_sub(par, dep, par[c], w),
    decreases dep[w],
{
    if w == c {
        assert(dep[c] == dep[par[c]] + 1);
        assert(in_sub(par, dep, par[c], par[c]));
        assert(in_sub(par, dep, par[c], c));
    } else if w != 0 {
        lemma_sub_mono(par, dep, c, par[w]);
    }
}

/// A vertex is never inside the subtree of one of its children.
proof fn lemma_not_in_child_sub(par: Seq<int>, dep: Seq<int>, c: int, v: int)
    requires
        rooted_shape(par, dep),
        1 <= c < par.len(),
        0 <= v < par.len(),
        par[c] == v,
    ensures
        !in_sub(par, dep, c, v),
{
    if in_sub(par, dep, c, v) {
        lemma_in_sub_dep(par, dep, c, v);
    }
}

/// A strict member of `v`'s subtree lies in the subtree of one of `v`'s
/// children.
proof fn lemma_sub_step(par: Seq<int>, dep: Seq<int>, v: int, w: int)
    requires
        rooted_shape(par, dep),
        0 <= w < par.len(),
        0 <= v < par.len(),
        in_sub(par, dep, v, w),
        w != v,
    ensures
        exists|c: int|
            1 <= c < par.len() && #[trigger] par[c] == v && in_sub(par, dep, c, w) && in_sub(
                par,
                dep,
                v,
                c,
            ),
    decreases dep[w],
{
    if par[w] == v {
        assert(in_sub(par, dep, w, w));
        assert(in_sub(par, dep, v, w));
    } else {
        lemma_sub_step(par, dep, v, par[w]);
        let c = choose|c: int|
            1 <= c < par.len() && #[trigger] par[c] == v && in_sub(par, dep, c, par[w]) && in_sub(
                par,
                dep,
                v,
                c,
            );
        assert(in_sub(par, dep, c, w));
    }
}

/// Everything lies in the subtree of the root.
proof fn lemma_sub_all(par: Seq<int>, dep: Seq<int>, w: int)
    requires
        rooted_shape(par, dep),
        0 <= w < par.len(),
    ensures
        in_sub(par, dep, 0, w),
    decreases dep[w],
{
    if w != 0 {
        lemma_sub_all(par, dep, par[w]);
    }
}

/// The position of `v` in the adjacency list of its parent.
pub open spec fn slot_of(t: TreeShape, v: int) -> int {
    choose|i: int| 0 <= i < t.adj[t.par[v]].len() && t.adj[t.par[v]][i] == v
}

/// The value the rerooting pass propagates into `v` along the edge from its
/// parent `p`: the prefix of `p`'s slots left of `v`, merged with the
/// suffix accumulation right of `v`, incorporated at `p`.
pub open spec fn inval<Op: RerootOps>(ops: Op, t: TreeShape, v: int) -> Op::Value
    decreases t.dep[v], 2int, 0int,
        when t.wf() && 1 <= v < t.n()
        via inval_decreases::<Op>
{
    let p = t.par[v];
    let i = slot_of(t, v);
    ops.add_root_spec(
        ops.merge_spec(pref(ops, t, p, i), rsuf(ops, t, p, i + 1)),
        p,
    )
}

/// The value held in slot `j` of vertex `v` once the rerooting pass has
/// corrected it: the propagated value for the parent slot, the downward
/// value of the child for every other slot.
pub open spec fn slotval<Op: RerootOps>(ops: Op, t: TreeShape, v: int, j: int) -> Op::Value
    decreases t.dep[v], 3int, 0int,
        when t.wf() && 0 <= v < t.n() && 0 <= j < t.adj[v].len()
{
    if v != 0 && t.adj[v][j] == t.par[v] {
        inval(ops, t, v)
    } else {
        bf(ops, t, t.adj[v][j], v)
    }
}

/// In-order merge of the first `k` corrected slots of `v`.
pub open spec fn pref<Op: RerootOps>(ops: Op, t: TreeShape, v: int, k: int) -> Op::Value
    decreases t.dep[v] + 1, 0int, k,
        when t.wf() && 0 <= v < t.n() && 0 <= k <= t.adj[v].len()
{
    if k <= 0 {
        ops.identity_spec()
    } else {
        ops.merge_spec(pref(ops, t, v, k - 1), slotval(ops, t, v, k - 1))
    }
}

/// Suffix accumulation of the corrected slots of `v` from position `k` on,
/// merged back to front as the rerooting pass builds it.
pub open spec fn rsuf<Op: RerootOps>(ops: Op, t: TreeShape, v: int, k: int) -> Op::Value
    decreases t.dep[v] + 1, 1int, t.adj[v].len() - k,
        when t.wf() && 0 <= v < t.n() && 0 <= k <= t.adj[v].len()
{
    if k >= t.adj[v].len() {
        ops.identity_spec()
    } else {
        ops.merge_spec(rsuf(ops, t, v, k + 1), slotval(ops, t, v, k))
    }
}

#[via_fn]
proof fn inval_decreases<Op: RerootOps>(ops: Op, t: TreeShape, v: int) {
    if t.wf() && 1 <= v < t.n() {
        let p = t.par[v];
        assert(t.adj[v].contains(p));
        let pi = choose|pi: int| 0 <= pi < t.adj[v].len() && t.adj[v][pi] == p;
        assert(t.adj[t.adj[v][pi]].contains(v));
        assert(exists|i: int| 0 <= i < t.adj[p].len() && t.adj[p][i] == v);
        let i = slot_of(t, v);
        assert(0 <= i < t.adj[p].len() && t.adj[p][i] == v);
    }
}

/// The answer the engine computes for vertex `v`: all corrected slots of
/// `v` merged in adjacency order, incorporated at `v`.
pub open spec fn eng_ans<Op: RerootOps>(ops: Op, t: TreeShape, v: int) -> Op::Value {
    ops.add_root_spec(pref(ops, t, v, t.adj[v].len() as int), v)
}

/// The input adjacency list does not describe an undirected tree.
#[derive(Clone, Copy, PartialEq, Eq, Structural, Debug)]
pub struct TreeError;

/// The rerooting engine: construction runs both passes eagerly; the answers
/// are read-only afterwards.
pub struct Rerooting<Op: RerootOps> {
    dp: Vec<Vec<Op::Value>>,
    ans: Vec<Op::Value>,
    ops: Op,
    shape: Ghost<TreeShape>,
}

impl<Op: RerootOps> Rerooting<Op> {
    /// The rooting the engine was built over.
    pub closed spec fn tree(self) -> TreeShape {
        self.shape@
    }

    /// The operators the engine was built with.
    pub closed spec fn ops_spec(self) -> Op {
        self.ops
    }

    /// The computed answers, one per vertex.
    pub closed spec fn answer_seq(self) -> Seq<Op::Value> {
        self.ans@
    }

    pub closed spec fn wf(self) -> bool {
        &&& self.shape@.wf()
        &&& self.ans@.len() == self.shape@.n()
        &&& self.dp@.len() == self.shape@.n()
        &&& forall|v: int|
            0 <= v < self.shape@.n() ==> (#[trigger] self.dp@[v])@.len() == self.shape@.adj[v].len()
    }

    /// Every answer equals the rerooted aggregate of its vertex.
    pub open spec fn answers_correct(self) -> bool {
        forall|v: int|
            0 <= v < self.tree().n() ==> self.answer_seq()[v] == eng_ans(
                self.ops_spec(),
                self.tree(),
                v,
            )
    }

    /// Slots inside the subtree of `root` hold the downward values of their
    /// children (parent slots excepted).
    spec fn dp_good_in(self, root: int) -> bool {
        forall|w: int, i: int|
            #![trigger self.dp@[w]@[i]]
            0 <= w < self.tree().n() && in_sub(self.tree().par, self.tree().dep, root, w) && 0 <= i
                < self.tree().adj[w].len() && self.tree().adj[w][i] != self.tree().up(w)
                ==> self.dp@[w]@[i] == bf(
                self.ops_spec(),
                self.tree(),
                self.tree().adj[w][i],
                w,
            )
    }

    /// Build the engine over `adj_list` and compute every answer.
    ///
    /// Succeeds exactly when `adj_list` is an undirected tree: entries in
    /// range and symmetric, no self-loop or repeated neighbour, connected
    /// and acyclic.
    #[verifier::loop_isolation(false)]
    pub fn new(adj_list: &Vec<Vec<usize>>, ops: Op) -> (r: Result<Rerooting<Op>, TreeError>)
        ensures
            r is Ok <==> valid_tree(view_adj(adj_list)),
            match r {
                Ok(eng) => {
                    &&& eng.wf()
                    &&& eng.tree().wf()
                    &&& eng.tree().adj == view_adj(adj_list)
                    &&& eng.ops_spec() == ops
                    &&& eng.answer_seq().len() == view_adj(adj_list).len()
                    &&& eng.answers_correct()
                },
                Err(e) => !valid_tree(view_adj(adj_list)),
            },
    {
        let n: usize = adj_list.len();
        let parv: Vec<usize>;
        let depv: Vec<usize>;
        match validate(adj_list) {
            None => {
                return Err(TreeError);
            },
            Some(pd) => {
                parv = pd.0;
                depv = pd.1;
            },
        }
        let ghost t = TreeShape {
            adj: view_adj(adj_list),
            par: parv@.map_values(|x: usize| x as int),
            dep: depv@.map_values(|x: usize| x as int),
        };
        let idv = ops.identity();
        let mut dp: Vec<Vec<Op::Value>> = Vec::new();
        let mut v: usize = 0;
        while v < n
            invariant
                n == adj_list@.len(),
                dp@.len() == v <= n,
                forall|w: int|
                    0 <= w < v as int ==> (#[trigger] dp@[w])@.len() == adj_list@[w]@.len(),
            decreases n - v,
        {
            let deg = adj_list[v].len();
            let mut row: Vec<Op::Value> = Vec::new();
            let mut i: usize = 0;
            while i < deg
                invariant
                    row@.len() == i <= deg,
                decreases deg - i,
            {
                row.push(idv);
                i = i + 1;
            }
            dp.push(row);
            v = v + 1;
        }
        let mut ans: Vec<Op::Value> = Vec::new();
        let mut w: usize = 0;
        while w < n
            invariant
                ans@.len() == w <= n,
            decreases n - w,
        {
            ans.push(idv);
            w = w + 1;
        }
        let mut eng = Rerooting { dp, ans, ops, shape: Ghost(t) };
        proof {
            assert(forall|x: int|
                0 <= x < t.n() ==> (#[trigger] view_adj(adj_list)[x]).len() == adj_list@[x]@.len());
            assert(eng.wf());
        }
        let a0 = eng.tree_dp(0, n, adj_list);
        eng.ans[0] = a0;
        let idv2 = eng.ops.identity();
        proof {
            assert forall|x: int| 0 <= x < t.n() implies in_sub(t.par, t.dep, 0, x) by {
                lemma_sub_all(t.par, t.dep, x);
            };
        }
        eng.reroot(0, n, idv2, adj_list);
        Ok(eng)
    }

    /// Downward pass: computes the value `node` contributes towards
    /// `parent`, filling the slots of every vertex of `node`'s subtree with
    /// their children's contributions.
    #[verifier::loop_isolation(false)]
    #[verifier::rlimit(60)]
    fn tree_dp(&mut self, node: usize, parent: usize, adj_list: &Vec<Vec<usize>>) -> (r: Op::Value)
        requires
            old(self).wf(),
            old(self).tree().adj == view_adj(adj_list),
            0 <= (node as int) < old(self).tree().n(),
            parent as int == old(self).tree().up(node as int),
        ensures
            final(self).wf(),
            final(self).tree() == old(self).tree(),
            final(self).ops_spec() == old(self).ops_spec(),
            final(self).ans@ == old(self).ans@,
            forall|w: int|
                0 <= w < old(self).tree().n() && !in_sub(
                    old(self).tree().par,
                    old(self).tree().dep,
                    node as int,
                    w,
                ) ==> final(self).dp@[w] == old(self).dp@[w],
            final(self).dp_good_in(node as int),
            forall|w: int, k: int|
                #![trigger final(self).dp@[w]@[k]]
                0 <= w < old(self).tree().n() && 0 <= k < old(self).tree().adj[w].len() && old(
                    self,
                ).tree().adj[w][k] == old(self).tree().up(w) ==> final(self).dp@[w]@[k] == old(
                    self,
                ).dp@[w]@[k],
            r == bf(
                old(self).ops_spec(),
                old(self).tree(),
                node as int,
                old(self).tree().up(node as int),
            ),
        decreases old(self).tree().n() - old(self).tree().dep[node as int],
    {
        let ghost t = self.tree();
        let ghost pint = t.up(node as int);
        let mut merged = self.ops.identity();
        let d: usize = adj_list[node].len();
        let mut i: usize = 0;
        while i < d
            invariant
                self.wf(),
                self.tree() == t,
                self.ops_spec() == old(self).ops_spec(),
                self.ans@ == old(self).ans@,
                t.adj == view_adj(adj_list),
                0 <= (node as int) < t.n(),
                parent as int == pint,
                pint == t.up(node as int),
                d == t.adj[node as int].len(),
                0 <= i <= d,
                merged == bf_merge(self.ops_spec(), t, node as int, pint, i as int),
                forall|w: int|
                    0 <= w < t.n() && !in_sub(t.par, t.dep, node as int, w) ==> self.dp@[w] == old(
                        self,
                    ).dp@[w],
                forall|j: int|
                    #![trigger self.dp@[node as int]@[j]]
                    i as int <= j < d ==> self.dp@[node as int]@[j] == old(
                        self,
                    ).dp@[node as int]@[j],
                forall|j: int|
                    #![trigger self.dp@[node as int]@[j]]
                    0 <= j < i as int && t.adj[node as int][j] != pint
                        ==> self.dp@[node as int]@[j]
                        == bf(self.ops_spec(), t, t.adj[node as int][j], node as int),
                forall|w: int, k: int|
                    #![trigger self.dp@[w]@[k]]
                    0 <= w < t.n() && w != node as int && covered(t, node as int, pint, i as int, w)
                        && 0 <= k < t.adj[w].len() && t.adj[w][k] != t.up(w)
                        ==> self.dp@[w]@[k] == bf(self.ops_spec(), t, t.adj[w][k], w),
                uncov_frame(*self, *old(self), node as int, pint, i as int),
                forall|w: int, k: int|
                    #![trigger self.dp@[w]@[k]]
                    0 <= w < t.n() && 0 <= k < t.adj[w].len() && t.adj[w][k] == t.up(w)
                        ==> self.dp@[w]@[k] == old(self).dp@[w]@[k],
            decreases d - i,
        {
            let c: usize = adj_list[node][i];
            if c != parent {
                proof {
                    assert(t.adj[node as int][i as int] == c as int);
                    assert((node as int != 0 && c as int == t.par[node as int]) || (c as int != 0
                        && t.par[c as int] == node as int));
                    assert(c as int != 0 && t.par[c as int] == node as int);
                    assert(t.dep[c as int] == t.dep[node as int] + 1);
                }
                let ghost pre = *self;
                proof {
                    assert(self.tree() == t && t == old(self).tree());
                    assert(0 <= t.dep[c as int] < t.n());
                    assert(self.tree().n() - self.tree().dep[c as int] < old(self).tree().n()
                        - old(self).tree().dep[node as int]);
                }
                let sub = self.tree_dp(c, node, adj_list);
                proof {
                    lemma_not_in_child_sub(t.par, t.dep, c as int, node as int);
                    assert(self.dp@[node as int] == pre.dp@[node as int]);
                    assert forall|w: int|
                        0 <= w < t.n() && w != node as int && covered(
                            t,
                            node as int,
                            pint,
                            i as int,
                            w,
                        ) implies self.dp@[w] == pre.dp@[w] by {
                        let j = choose|j: int|
                            0 <= j < i as int && t.adj[node as int][j] != pint && in_sub(
                                t.par,
                                t.dep,
                                #[trigger] t.adj[node as int][j],
                                w,
                            );
                        let cj = t.adj[node as int][j];
                        assert((node as int != 0 && cj == t.par[node as int]) || (cj != 0
                            && t.par[cj] == node as int));
                        lemma_sub_disjoint(t.par, t.dep, cj, c as int, w);
                    };
                }
                self.dp[node][i] = sub;
                merged = self.ops.merge(merged, sub);
                proof {
                    assert(t.dep[c as int] == t.dep[node as int] + 1);
                    assert forall|w: int|
                        0 <= w < t.n() && !in_sub(t.par, t.dep, node as int, w) implies self.dp@[w]
                        == old(self).dp@[w] by {
                        if in_sub(t.par, t.dep, c as int, w) {
                            lemma_sub_mono(t.par, t.dep, c as int, w);
                        }
                        assert(self.dp@[w] == pre.dp@[w]);
                        assert(!covered(t, node as int, pint, i as int, w)) by {
                            if covered(t, node as int, pint, i as int, w) {
                                let j = choose|j: int|
                                    0 <= j < i as int && t.adj[node as int][j] != pint && in_sub(
                                        t.par,
                                        t.dep,
                                        #[trigger] t.adj[node as int][j],
                                        w,
                                    );
                                let cj = t.adj[node as int][j];
                                assert((node as int != 0 && cj == t.par[node as int]) || (cj != 0
                                    && t.par[cj] == node as int));
                                lemma_sub_mono(t.par, t.dep, cj, w);
                            }
                        };
                    };
                    assert(uncov_frame(*self, *old(self), node as int, pint, i as int + 1)) by {
                    assert forall|w: int|
                        0 <= w < t.n() && w != node as int && in_sub(t.par, t.dep, node as int, w)
                            && !covered(t, node as int, pint, i as int + 1, w) implies self.dp@[w]
                        == old(self).dp@[w] by {
                        assert(t.adj[node as int][i as int] == c as int);
                        if in_sub(t.par, t.dep, c as int, w) {
                            assert(covered(t, node as int, pint, i as int + 1, w));
                        }
                        assert(!in_sub(t.par, t.dep, c as int, w));
                        assert(self.dp@[w] == pre.dp@[w]);
                        assert(!covered(t, node as int, pint, i as int, w)) by {
                            if covered(t, node as int, pint, i as int, w) {
                                let j = choose|j: int|
                                    0 <= j < i as int && t.adj[node as int][j] != pint && in_sub(
                                        t.par,
                                        t.dep,
                                        #[trigger] t.adj[node as int][j],
                                        w,
                                    );
                                assert(covered(t, node as int, pint, i as int + 1, w));
                            }
                        };
                        assert(pre.dp@[w] == old(self).dp@[w]);
                    };
                    };
                    assert forall|w: int, k: int|
                        #![trigger self.dp@[w]@[k]]
                        0 <= w < t.n() && 0 <= k < t.adj[w].len() && t.adj[w][k] == t.up(w)
                            implies self.dp@[w]@[k] == old(self).dp@[w]@[k] by {
                        assert(pre.dp@[w]@[k] == old(self).dp@[w]@[k]);
                        if w == node as int {
                            assert(t.adj[node as int][i as int] == c as int);
                            assert(c as int != pint);
                        }
                    };
                    assert forall|w: int, k: int|
                        #![trigger self.dp@[w]@[k]]
                        0 <= w < t.n() && w != node as int && covered(
                            t,
                            node as int,
                            pint,
                            i as int + 1,
                            w,
                        ) && 0 <= k < t.adj[w].len() && t.adj[w][k] != t.up(w) implies self.dp@[w]@[k]
                        == bf(self.ops_spec(), t, t.adj[w][k], w) by {
                        let j = choose|j: int|
                            0 <= j < i as int + 1 && t.adj[node as int][j] != pint && in_sub(
                                t.par,
                                t.dep,
                                #[trigger] t.adj[node as int][j],
                                w,
                            );
                        if j == i as int {
                            assert(in_sub(t.par, t.dep, c as int, w));
                        } else {
                            assert(covered(t, node as int, pint, i as int, w));
                            let cj = t.adj[node as int][j];
                            assert((node as int != 0 && cj == t.par[node as int]) || (cj != 0
                                && t.par[cj] == node as int));
                            lemma_sub_disjoint(t.par, t.dep, cj, c as int, w);
                            assert(pre.dp@[w]@[k] == bf(self.ops_spec(), t, t.adj[w][k], w));
                            assert(self.dp@[w] == pre.dp@[w]);
                        }
                    };
                }
            } else {
                proof {
                    assert(bf_merge(self.ops_spec(), t, node as int, pint, i as int + 1)
                        == bf_merge(self.ops_spec(), t, node as int, pint, i as int));
                    assert forall|w: int|
                        0 <= w < t.n() && w != node as int implies (covered(
                            t,
                            node as int,
                            pint,
                            i as int + 1,
                            w,
                        ) == covered(t, node as int, pint, i as int, w)) by {
                        if covered(t, node as int, pint, i as int + 1, w) {
                            let j = choose|j: int|
                                0 <= j < i as int + 1 && t.adj[node as int][j] != pint && in_sub(
                                    t.par,
                                    t.dep,
                                    #[trigger] t.adj[node as int][j],
                                    w,
                                );
                            assert(j < i as int);
                            assert(covered(t, node as int, pint, i as int, w));
                        }
                        if covered(t, node as int, pint, i as int, w) {
                            let j = choose|j: int|
                                0 <= j < i as int && t.adj[node as int][j] != pint && in_sub(
                                    t.par,
                                    t.dep,
                                    #[trigger] t.adj[node as int][j],
                                    w,
                                );
                            assert(covered(t, node as int, pint, i as int + 1, w));
                        }
                    };
                    assert(uncov_frame(*self, *old(self), node as int, pint, i as int + 1));
                }
            }
            i = i + 1;
        }
        let r = self.ops.add_root(merged, node);
        proof {
            assert forall|w: int, k: int|
                #![trigger self.dp@[w]@[k]]
                0 <= w < t.n() && in_sub(t.par, t.dep, node as int, w) && 0 <= k < t.adj[w].len()
                    && t.adj[w][k] != t.up(w) implies self.dp@[w]@[k] == bf(
                self.ops_spec(),
                t,
                t.adj[w][k],
                w,
            ) by {
                if w != node as int {
                    lemma_sub_step(t.par, t.dep, node as int, w);
                    let c = choose|c: int|
                        1 <= c < t.par.len() && #[trigger] t.par[c] == node as int && in_sub(
                            t.par,
                            t.dep,
                            c,
                            w,
                        ) && in_sub(t.par, t.dep, node as int, c);
                    assert(t.adj[c].contains(t.par[c]));
                    let ci = choose|ci: int| 0 <= ci < t.adj[c].len() && t.adj[c][ci] == node as int;
                    assert(t.adj[t.adj[c][ci]].contains(c));
                    let j = choose|j: int|
                        0 <= j < t.adj[node as int].len() && t.adj[node as int][j] == c;
                    assert(t.adj[node as int][j] != pint);
                    assert(covered(t, node as int, pint, d as int, w));
                }
            };
        }
        r
    }

    /// Rerooting pass: given the up-to-date value `dp_val` flowing into
    /// `root` from `parent`, writes the rerooted answer of every vertex of
    /// `root`'s subtree.
    #[verifier::loop_isolation(false)]
    #[verifier::rlimit(60)]
    fn reroot(&mut self, root: usize, parent: usize, dp_val: Op::Value, adj_list: &Vec<Vec<usize>>)
        requires
            old(self).wf(),
            old(self).tree().adj == view_adj(adj_list),
            0 <= (root as int) < old(self).tree().n(),
            parent as int == old(self).tree().up(root as int),
            root != 0 ==> dp_val == inval(old(self).ops_spec(), old(self).tree(), root as int),
            old(self).dp_good_in(root as int),
        ensures
            final(self).wf(),
            final(self).tree() == old(self).tree(),
            final(self).ops_spec() == old(self).ops_spec(),
            forall|w: int|
                0 <= w < old(self).tree().n() && !in_sub(
                    old(self).tree().par,
                    old(self).tree().dep,
                    root as int,
                    w,
                ) ==> final(self).ans@[w] == old(self).ans@[w] && final(self).dp@[w] == old(
                    self,
                ).dp@[w],
            forall|w: int|
                0 <= w < old(self).tree().n() && in_sub(
                    old(self).tree().par,
                    old(self).tree().dep,
                    root as int,
                    w,
                ) ==> final(self).ans@[w] == eng_ans(old(self).ops_spec(), old(self).tree(), w),
        decreases old(self).tree().n() - old(self).tree().dep[root as int],
    {
        let ghost t = self.tree();
        let ghost pint = t.up(root as int);
        let d: usize = adj_list[root].len();
        let idv = self.ops.identity();
        let mut left_acc: Vec<Op::Value> = Vec::new();
        left_acc.push(idv);
        proof {
            assert(old(self).dp_good_in(root as int));
            assert(in_sub(t.par, t.dep, root as int, root as int));
        }
        let mut i: usize = 0;
        while i < d
            invariant
                self.wf(),
                self.tree() == t,
                self.ops_spec() == old(self).ops_spec(),
                self.ans@ == old(self).ans@,
                t.adj == view_adj(adj_list),
                0 <= (root as int) < t.n(),
                parent as int == pint,
                pint == t.up(root as int),
                root != 0 ==> dp_val == inval(self.ops_spec(), t, root as int),
                d == t.adj[root as int].len(),
                0 <= i <= d,
                left_acc@.len() == i + 1,
                idv == self.ops_spec().identity_spec(),
                forall|k: int|
                    0 <= k <= i as int ==> left_acc@[k] == pref(self.ops_spec(), t, root as int, k),
                forall|w: int| 0 <= w < t.n() && w != root as int ==> self.dp@[w] == old(self).dp@[w],
                forall|j: int|
                    #![trigger self.dp@[root as int]@[j]]
                    0 <= j < i as int ==> self.dp@[root as int]@[j] == slotval(
                        self.ops_spec(),
                        t,
                        root as int,
                        j,
                    ),
                forall|j: int|
                    #![trigger self.dp@[root as int]@[j]]
                    i as int <= j < d ==> self.dp@[root as int]@[j] == old(
                        self,
                    ).dp@[root as int]@[j],
            decreases d - i,
        {
            if adj_list[root][i] == parent {
                self.dp[root][i] = dp_val;
                proof {
                    assert(0 <= t.adj[root as int][i as int] < t.n());
                    assert(root != 0);
                    assert(t.adj[root as int][i as int] == t.par[root as int]);
                    assert(self.dp@[root as int]@[i as int] == inval(
                        self.ops_spec(),
                        t,
                        root as int,
                    ));
                    assert(self.dp@[root as int]@[i as int] == slotval(
                        self.ops_spec(),
                        t,
                        root as int,
                        i as int,
                    ));
                }
            } else {
                proof {
                    assert(t.adj[root as int][i as int] != pint);
                    assert(in_sub(t.par, t.dep, root as int, root as int));
                    assert(old(self).dp@[root as int]@[i as int] == bf(
                        self.ops_spec(),
                        t,
                        t.adj[root as int][i as int],
                        root as int,
                    ));
                    if root != 0 {
                        assert(t.adj[root as int][i as int] != t.par[root as int]);
                    }
                    assert(self.dp@[root as int]@[i as int] == slotval(
                        self.ops_spec(),
                        t,
                        root as int,
                        i as int,
                    ));
                }
            }
            let cur = self.dp[root][i];
            proof {
                assert(pref(self.ops_spec(), t, root as int, i as int + 1) == self.ops_spec(
                ).merge_spec(
                    pref(self.ops_spec(), t, root as int, i as int),
                    slotval(self.ops_spec(), t, root as int, i as int),
                ));
            }
            let m = self.ops.merge(left_acc[i], cur);
            left_acc.push(m);
            i = i + 1;
        }
        let mut right_acc: Vec<Op::Value> = Vec::new();
        right_acc.push(idv);
        let mut k: usize = 0;
        while k < d
            invariant
                0 <= k <= d,
                right_acc@.len() == k + 1,
                forall|m: int| 0 <= m <= k as int ==> right_acc@[m] == idv,
            decreases d - k,
        {
            right_acc.push(idv);
            k = k + 1;
        }
        proof {
            assert(rsuf(self.ops_spec(), t, root as int, d as int)
                == self.ops_spec().identity_spec());
        }
        let mut j: usize = d;
        while j > 0
            invariant
                self.wf(),
                self.tree() == t,
                self.ops_spec() == old(self).ops_spec(),
                t.adj == view_adj(adj_list),
                0 <= (root as int) < t.n(),
                d == t.adj[root as int].len(),
                0 <= j <= d,
                right_acc@.len() == d + 1,
                idv == self.ops_spec().identity_spec(),
                forall|m: int|
                    #![trigger self.dp@[root as int]@[m]]
                    0 <= m < t.adj[root as int].len() ==> self.dp@[root as int]@[m]
                        == slotval(self.ops_spec(), t, root as int, m),
                forall|m: int|
                    j as int <= m <= d ==> right_acc@[m] == rsuf(self.ops_spec(), t, root as int, m),
            decreases j,
        {
            j = j - 1;
            let cur = self.dp[root][j];
            let m = self.ops.merge(right_acc[j + 1], cur);
            right_acc[j] = m;
        }
        let full = left_acc[d];
        let a = self.ops.add_root(full, root);
        self.ans[root] = a;
        proof {
            assert(self.ans@[root as int] == eng_ans(self.ops_spec(), t, root as int));
        }
        let ghost mid = *self;
        let mut c_i: usize = 0;
        while c_i < d
            invariant
                self.wf(),
                self.tree() == t,
                self.ops_spec() == old(self).ops_spec(),
                t.adj == view_adj(adj_list),
                0 <= (root as int) < t.n(),
                parent as int == pint,
                pint == t.up(root as int),
                d == t.adj[root as int].len(),
                0 <= c_i <= d,
                left_acc@.len() == d + 1,
                right_acc@.len() == d + 1,
                forall|m: int|
                    0 <= m <= d ==> left_acc@[m] == pref(self.ops_spec(), t, root as int, m),
                forall|m: int|
                    0 <= m <= d ==> right_acc@[m] == rsuf(self.ops_spec(), t, root as int, m),
                mid.tree() == t,
                mid.ops_spec() == self.ops_spec(),
                mid.ans@[root as int] == eng_ans(self.ops_spec(), t, root as int),
                forall|w: int|
                    0 <= w < t.n() && !in_sub(t.par, t.dep, root as int, w) ==> self.ans@[w] == old(
                        self,
                    ).ans@[w] && self.dp@[w] == old(self).dp@[w],
                self.ans@[root as int] == eng_ans(self.ops_spec(), t, root as int),
                forall|w: int, ii: int|
                    #![trigger self.dp@[w]@[ii]]
                    0 <= w < t.n() && w != root as int && in_sub(t.par, t.dep, root as int, w)
                        && !covered(t, root as int, pint, c_i as int, w) && 0 <= ii
                        < t.adj[w].len() && t.adj[w][ii] != t.up(w) ==> self.dp@[w]@[ii]
                        == bf(self.ops_spec(), t, t.adj[w][ii], w),
                cov_ans_good(*self, root as int, pint, c_i as int),
            decreases d - c_i,
        {
            let c = adj_list[root][c_i];
            if c != parent {
                proof {
                    assert(t.adj[root as int][c_i as int] == c as int);
                    assert((root as int != 0 && c as int == t.par[root as int]) || (c as int != 0
                        && t.par[c as int] == root as int));
                    assert(c as int != 0 && t.par[c as int] == root as int);
                    assert(t.dep[c as int] == t.dep[root as int] + 1);
                }
                let ex = self.ops.merge(left_acc[c_i], right_acc[c_i + 1]);
                let nv = self.ops.add_root(ex, root);
                proof {
                    // nv is exactly the value the specification propagates into c.
                    let si = slot_of(t, c as int);
                    assert(t.adj[root as int][c_i as int] == c as int);
                    assert(0 <= si < t.adj[root as int].len() && t.adj[root as int][si] == c as int);
                    assert(t.adj[root as int].no_duplicates());
                    assert(si == c_i as int);
                    assert(nv == inval(self.ops_spec(), t, c as int));
                    // the child's subtree slots are still good
                    lemma_not_in_child_sub(t.par, t.dep, c as int, root as int);
                    assert forall|w: int, ii: int|
                        #![trigger self.dp@[w]@[ii]]
                        0 <= w < t.n() && in_sub(t.par, t.dep, c as int, w) && 0 <= ii
                            < t.adj[w].len() && t.adj[w][ii] != t.up(w) implies self.dp@[w]@[ii]
                        == bf(self.ops_spec(), t, t.adj[w][ii], w) by {
                        lemma_sub_mono(t.par, t.dep, c as int, w);
                        assert(w != root as int);
                        if covered(t, root as int, pint, c_i as int, w) {
                            let jx = choose|jx: int|
                                0 <= jx < c_i as int && t.adj[root as int][jx] != pint && in_sub(
                                    t.par,
                                    t.dep,
                                    #[trigger] t.adj[root as int][jx],
                                    w,
                                );
                            let cj = t.adj[root as int][jx];
                            assert((root as int != 0 && cj == t.par[root as int]) || (cj != 0
                                && t.par[cj] == root as int));
                            assert(t.adj[root as int].no_duplicates());
                            assert(cj != c as int);
                            lemma_sub_disjoint(t.par, t.dep, cj, c as int, w);
                        }
                    };
                }
                let ghost pre = *self;
                proof {
                    assert(self.tree() == t);
                    assert(0 <= t.dep[c as int] < t.n());
                    assert(t.n() - t.dep[c as int] < t.n() - t.dep[root as int]);
                }
                self.reroot(c, root, nv, adj_list);
                proof {
                    assert forall|w: int|
                        0 <= w < t.n() && !in_sub(t.par, t.dep, root as int, w) implies self.ans@[w]
                        == old(self).ans@[w] && self.dp@[w] == old(self).dp@[w] by {
                        if in_sub(t.par, t.dep, c as int, w) {
                            lemma_sub_mono(t.par, t.dep, c as int, w);
                        }
                        assert(self.ans@[w] == pre.ans@[w] && self.dp@[w] == pre.dp@[w]);
                    };
                    lemma_not_in_child_sub(t.par, t.dep, c as int, root as int);
                    assert(self.ans@[root as int] == pre.ans@[root as int]);
                    assert(cov_ans_good(*self, root as int, pint, c_i as int + 1)) by {
                    assert forall|w: int|
                        0 <= w < t.n() && w != root as int && covered(
                            t,
                            root as int,
                            pint,
                            c_i as int + 1,
                            w,
                        ) implies self.ans@[w] == eng_ans(self.ops_spec(), t, w) by {
                        let jx = choose|jx: int|
                            0 <= jx < c_i as int + 1 && t.adj[root as int][jx] != pint && in_sub(
                                t.par,
                                t.dep,
                                #[trigger] t.adj[root as int][jx],
                                w,
                            );
                        let cj = t.adj[root as int][jx];
                        if jx == c_i as int {
                            assert(in_sub(t.par, t.dep, c as int, w));
                            assert(0 <= w < t.n());
                            assert(self.ans@[w] == eng_ans(self.ops_spec(), t, w));
                        } else {
                            assert(covered(t, root as int, pint, c_i as int, w));
                            assert((root as int != 0 && cj == t.par[root as int]) || (cj != 0
                                && t.par[cj] == root as int));
                            lemma_sub_disjoint(t.par, t.dep, cj, c as int, w);
                            assert(!in_sub(t.par, t.dep, c as int, w));
                            assert(pre.ans@[w] == eng_ans(self.ops_spec(), t, w));
                            assert(self.ans@[w] == pre.ans@[w]);
                        }
                    };
                    };
                    assert forall|w: int, ii: int|
                        #![trigger self.dp@[w]@[ii]]
                        0 <= w < t.n() && w != root as int && in_sub(t.par, t.dep, root as int, w)
                            && !covered(t, root as int, pint, c_i as int + 1, w) && 0 <= ii
                            < t.adj[w].len() && t.adj[w][ii] != t.up(w) implies self.dp@[w]@[ii]
                        == bf(self.ops_spec(), t, t.adj[w][ii], w) by {
                        assert(!covered(t, root as int, pint, c_i as int, w));
                        assert(!in_sub(t.par, t.dep, c as int, w));
                        assert(pre.dp@[w] == self.dp@[w]);
                    };
                }
            } else {
                proof {
                    assert forall|w: int|
                        0 <= w < t.n() && w != root as int implies (covered(
                            t,
                            root as int,
                            pint,
                            c_i as int + 1,
                            w,
                        ) == covered(t, root as int, pint, c_i as int, w)) by {
                        if covered(t, root as int, pint, c_i as int + 1, w) {
                            let jx = choose|jx: int|
                                0 <= jx < c_i as int + 1 && t.adj[root as int][jx] != pint
                                    && in_sub(
                                    t.par,
                                    t.dep,
                                    #[trigger] t.adj[root as int][jx],
                                    w,
                                );
                            assert(jx < c_i as int);
                            assert(covered(t, root as int, pint, c_i as int, w));
                        }
                        if covered(t, root as int, pint, c_i as int, w) {
                            let jx = choose|jx: int|
                                0 <= jx < c_i as int && t.adj[root as int][jx] != pint && in_sub(
                                    t.par,
                                    t.dep,
                                    #[trigger] t.adj[root as int][jx],
                                    w,
                                );
                            assert(covered(t, root as int, pint, c_i as int + 1, w));
                        }
                    };
                    assert(cov_ans_good(*self, root as int, pint, c_i as int + 1));
                }
            }
            c_i = c_i + 1;
        }
        proof {
            assert forall|w: int|
                0 <= w < t.n() && in_sub(t.par, t.dep, root as int, w) implies self.ans@[w]
                == eng_ans(self.ops_spec(), t, w) by {
                if w != root as int {
                    lemma_sub_step(t.par, t.dep, root as int, w);
                    let c = choose|c: int|
                        1 <= c < t.par.len() && #[trigger] t.par[c] == root as int && in_sub(
                            t.par,
                            t.dep,
                            c,
                            w,
                        ) && in_sub(t.par, t.dep, root as int, c);
                    assert(t.adj[c].contains(t.par[c]));
                    let ci = choose|ci: int| 0 <= ci < t.adj[c].len() && t.adj[c][ci] == root as int;
                    assert(t.adj[t.adj[c][ci]].contains(c));
                    let jx = choose|jx: int|
                        0 <= jx < t.adj[root as int].len() && t.adj[root as int][jx] == c;
                    assert(t.adj[root as int][jx] != pint);
                    assert(covered(t, root as int, pint, d as int, w));
                }
            };
        }
    }

    /// The computed answers, indexed by vertex.  Stable: reading them never
    /// changes them.
    pub fn answers(&self) -> (r: &Vec<Op::Value>)
        ensures
            r@ == self.answer_seq(),
    {
        &self.ans
    }
}

/// `w` lies in the subtree of one of the first `i` neighbours of `node`
/// other than the excluded one — the part of `node`'s subtree a pass over
/// the first `i` slots has walked.
pub open spec fn covered(t: TreeShape, node: int, pint: int, i: int, w: int) -> bool {
    exists|j: int|
        0 <= j < i && t.adj[node][j] != pint && in_sub(t.par, t.dep, #[trigger] t.adj[node][j], w)
}

/// A distinct sequence of values drawn from `0..n` has at most `n` entries.
proof fn lemma_distinct_bounded(s: Seq<int>, n: int)
    requires
        n >= 0,
        s.no_duplicates(),
        forall|k: int| 0 <= k < s.len() ==> 0 <= #[trigger] s[k] < n,
    ensures
        s.len() <= n,
{
    broadcast use vstd::seq_lib::seq_to_set_is_finite;

    s.unique_seq_to_set();
    lemma_int_range(0, n);
    assert forall|e: int| s.to_set().contains(e) implies set_int_range(0, n).contains(e) by {
        let k = choose|k: int| 0 <= k < s.len() && s[k] == e;
    }
    assert(s.to_set().subset_of(set_int_range(0, n)));
    lemma_len_subset(s.to_set(), set_int_range(0, n));
}

/// In a tree whose rooting `par2`/`dep2` matches the adjacency list, every
/// vertex is reached by a search that starts at 0 and has explored every
/// neighbour of every vertex it reached.
proof fn lemma_search_complete(
    a: Seq<Seq<int>>,
    par2: Seq<int>,
    dep2: Seq<int>,
    vis: Seq<bool>,
    v: int,
)
    requires
        wf_shape(a),
        conforming(a, par2, dep2),
        vis.len() == a.len(),
        vis[0],
        forall|w: int, i: int|
            0 <= w < a.len() && vis[w] && 0 <= i < a[w].len() ==> vis[#[trigger] a[w][i]],
        0 <= v < a.len(),
    ensures
        vis[v],
    decreases dep2[v],
{
    if v != 0 {
        let p = par2[v];
        lemma_search_complete(a, par2, dep2, vis, p);
        assert(a[v].contains(p));
        let i = choose|i: int| 0 <= i < a[v].len() && a[v][i] == p;
        assert(a[a[v][i]].contains(v));
        let j = choose|j: int| 0 <= j < a[p].len() && a[p][j] == v;
        assert(vis[a[p][j]]);
    }
}

/// The ancestor chain of `v`: the vertices from `v` up to the root.
spec fn chain(par: Seq<int>, dep: Seq<int>, v: int) -> Seq<int>
    decreases dep[v],
        when rooted_shape(par, dep) && 0 <= v < par.len()
{
    if v == 0 {
        seq![0int]
    } else {
        seq![v] + chain(par, dep, par[v])
    }
}

/// A rooting of a tree at vertex 0 is unique: any two parent/depth
/// assignments that both respect the adjacency list agree, provided one of
/// them also certifies that every listed edge is one of its parent edges.
proof fn lemma_rooting_unique(
    a: Seq<Seq<int>>,
    par1: Seq<int>,
    dep1: Seq<int>,
    par2: Seq<int>,
    dep2: Seq<int>,
    v: int,
)
    requires
        wf_shape(a),
        par1.len() == a.len(),
        rooted_shape(par1, dep1),
        forall|w: int| 1 <= w < a.len() ==> a[w].contains(#[trigger] par1[w]),
        conforming(a, par2, dep2),
        0 <= v < a.len(),
    ensures
        chain(par1, dep1, v) == chain(par2, dep2, v),
        dep1[v] == dep2[v],
        v != 0 ==> par1[v] == par2[v],
    decreases dep1[v],
{
    if v != 0 {
        let u = par1[v];
        assert(a[v].contains(u));
        let i = choose|i: int| 0 <= i < a[v].len() && a[v][i] == u;
        assert((v != 0 && a[v][i] == par2[v]) || (a[v][i] != 0 && par2[a[v][i]] == v));
        if u == par2[v] {
            lemma_rooting_unique(a, par1, dep1, par2, dep2, u);
            assert(chain(par1, dep1, v) == seq![v] + chain(par1, dep1, u));
            assert(chain(par2, dep2, v) == seq![v] + chain(par2, dep2, u));
        } else {
            // the edge to u would have to be a parent edge of u under
            // par2, which contradicts the depths along the chains
            assert(u != 0 && par2[u] == v);
            lemma_rooting_unique(a, par1, dep1, par2, dep2, u);
            assert(chain(par2, dep2, u) == seq![u] + chain(par2, dep2, v));
            assert(chain(par1, dep1, u) == seq![u] + chain(par1, dep1, par1[u]));
            assert(chain(par1, dep1, par1[u]) == chain(par2, dep2, v));
            assert(chain(par2, dep2, v)[0] == v) by {
                if v == 0 {
                } else {
                }
            };
            assert(chain(par1, dep1, par1[u])[0] == par1[u]) by {
                if par1[u] == 0 {
                } else {
                }
            };
            assert(par1[u] == v);
            assert(dep1[u] == dep1[v] + 1);
            assert(dep1[v] == dep1[u] + 1);
            assert(false);
        }
    }
}

/// Rows not yet walked by a pass over the first `i` slots of `node` are
/// unchanged between the states `o` and `s`.
spec fn uncov_frame<Op: RerootOps>(
    s: Rerooting<Op>,
    o: Rerooting<Op>,
    node: int,
    pint: int,
    i: int,
) -> bool {
    forall|w: int|
        0 <= w < s.tree().n() && w != node && in_sub(s.tree().par, s.tree().dep, node, w)
            && !covered(s.tree(), node, pint, i, w) ==> s.dp@[w] == o.dp@[w]
}

/// Answers in the part already walked by the rerooting pass are final.
spec fn cov_ans_good<Op: RerootOps>(s: Rerooting<Op>, node: int, pint: int, i: int) -> bool {
    forall|w: int|
        0 <= w < s.tree().n() && w != node && covered(s.tree(), node, pint, i, w)
            ==> s.ans@[w] == eng_ans(s.ops_spec(), s.tree(), w)
}

/// The merge operator ignores argument order.
pub open spec fn commutative<Op: RerootOps>(ops: Op) -> bool {
    forall|a: Op::Value, b: Op::Value| #[trigger] ops.merge_spec(a, b) == ops.merge_spec(b, a)
}

/// In-order merge of the corrected slots `a..b` of vertex `v`.
spec fn infold<Op: RerootOps>(ops: Op, t: TreeShape, v: int, a: int, b: int) -> Op::Value
    decreases b - a,
        when t.wf() && 0 <= v < t.n() && 0 <= a && b <= t.adj[v].len()
{
    if b <= a {
        ops.identity_spec()
    } else {
        ops.merge_spec(infold(ops, t, v, a, b - 1), slotval(ops, t, v, b - 1))
    }
}

/// Merging one more slot in from the right equals folding it in from the
/// left, for an associative and commutative merge with identity.
proof fn lemma_infold_snoc<Op: RerootOps>(ops: Op, t: TreeShape, v: int, k: int, m: int)
    requires
        t.wf(),
        commutative(ops),
        0 <= v < t.n(),
        0 <= k < m <= t.adj[v].len(),
    ensures
        ops.merge_spec(infold(ops, t, v, k + 1, m), slotval(ops, t, v, k)) == infold(
            ops,
            t,
            v,
            k,
            m,
        ),
    decreases m - k,
{
    if m == k + 1 {
        assert(infold(ops, t, v, k + 1, m) == ops.identity_spec());
        ops.law_identity(slotval(ops, t, v, k));
        assert(infold(ops, t, v, k, k) == ops.identity_spec());
    } else {
        lemma_infold_snoc(ops, t, v, k, m - 1);
        ops.law_assoc(
            infold(ops, t, v, k + 1, m - 1),
            slotval(ops, t, v, m - 1),
            slotval(ops, t, v, k),
        );
        assert(ops.merge_spec(slotval(ops, t, v, m - 1), slotval(ops, t, v, k)) == ops.merge_spec(
            slotval(ops, t, v, k),
            slotval(ops, t, v, m - 1),
        ));
        ops.law_assoc(
            infold(ops, t, v, k + 1, m - 1),
            slotval(ops, t, v, k),
            slotval(ops, t, v, m - 1),
        );
    }
}

/// The suffix accumulation of the rerooting pass merges the same slots as
/// the in-order fold, for a commutative merge.
proof fn lemma_rsuf_infold<Op: RerootOps>(ops: Op, t: TreeShape, v: int, k: int)
    requires
        t.wf(),
        commutative(ops),
        0 <= v < t.n(),
        0 <= k <= t.adj[v].len(),
    ensures
        rsuf(ops, t, v, k) == infold(ops, t, v, k, t.adj[v].len() as int),
    decreases t.adj[v].len() - k,
{
    if k < t.adj[v].len() {
        lemma_rsuf_infold(ops, t, v, k + 1);
        lemma_infold_snoc(ops, t, v, k, t.adj[v].len() as int);
    }
}

/// Every corrected slot of `v` holds the downward value of its neighbour's
/// side of the edge, once the propagated parent value is known right.
proof fn lemma_slots_are_bf<Op: RerootOps>(ops: Op, t: TreeShape, v: int)
    requires
        t.wf(),
        commutative(ops),
        0 <= v < t.n(),
    ensures
        forall|j: int|
            0 <= j < t.adj[v].len() ==> slotval(ops, t, v, j) == bf(ops, t, #[trigger] t.adj[v][j], v),
    decreases t.dep[v], 1int,
{
    assert forall|j: int| 0 <= j < t.adj[v].len() implies slotval(ops, t, v, j) == bf(
        ops,
        t,
        #[trigger] t.adj[v][j],
        v,
    ) by {
        if v != 0 && t.adj[v][j] == t.par[v] {
            lemma_inval_is_bf(ops, t, v);
        }
    };
}

/// Below the excluded position, the downward merge and the corrected
/// prefix agree slot for slot.
proof fn lemma_prefix_eq<Op: RerootOps>(ops: Op, t: TreeShape, p: int, c: int, k: int)
    requires
        t.wf(),
        commutative(ops),
        0 <= p < t.n(),
        0 <= c < t.n(),
        forall|j: int|
            0 <= j < t.adj[p].len() ==> slotval(ops, t, p, j) == bf(ops, t, #[trigger] t.adj[p][j], p),
        0 <= k <= t.adj[p].len(),
        forall|j: int| 0 <= j < k ==> #[trigger] t.adj[p][j] != c,
    ensures
        bf_merge(ops, t, p, c, k) == pref(ops, t, p, k),
    decreases k,
{
    if k > 0 {
        lemma_prefix_eq(ops, t, p, c, k - 1);
    }
}

/// Above the excluded position, the downward merge is the prefix up to it
/// merged with the in-order fold of everything after it.
proof fn lemma_excluded_merge<Op: RerootOps>(ops: Op, t: TreeShape, p: int, c: int, i: int, k: int)
    requires
        t.wf(),
        commutative(ops),
        0 <= p < t.n(),
        0 <= c < t.n(),
        forall|j: int|
            0 <= j < t.adj[p].len() ==> slotval(ops, t, p, j) == bf(ops, t, #[trigger] t.adj[p][j], p),
        0 <= i < k <= t.adj[p].len(),
        t.adj[p][i] == c,
        forall|j: int| 0 <= j < t.adj[p].len() && j != i ==> #[trigger] t.adj[p][j] != c,
    ensures
        bf_merge(ops, t, p, c, k) == ops.merge_spec(
            pref(ops, t, p, i),
            infold(ops, t, p, i + 1, k),
        ),
    decreases k,
{
    if k == i + 1 {
        lemma_prefix_eq(ops, t, p, c, i);
        assert(bf_merge(ops, t, p, c, k) == bf_merge(ops, t, p, c, i));
        assert(infold(ops, t, p, i + 1, i + 1) == ops.identity_spec());
        ops.law_identity(pref(ops, t, p, i));
    } else {
        lemma_excluded_merge(ops, t, p, c, i, k - 1);
        ops.law_assoc(
            pref(ops, t, p, i),
            infold(ops, t, p, i + 1, k - 1),
            slotval(ops, t, p, k - 1),
        );
    }
}

/// The value the rerooting pass sends into `v` is exactly the downward
/// value of the rest of the tree, seen across the edge from `v`'s parent.
proof fn lemma_inval_is_bf<Op: RerootOps>(ops: Op, t: TreeShape, v: int)
    requires
        t.wf(),
        commutative(ops),
        1 <= v < t.n(),
    ensures
        inval(ops, t, v) == bf(ops, t, t.par[v], v),
    decreases t.dep[v], 0int,
{
    let p = t.par[v];
    let i = slot_of(t, v);
    assert(t.adj[v].contains(p));
    let pi = choose|pi: int| 0 <= pi < t.adj[v].len() && t.adj[v][pi] == p;
    assert(t.adj[t.adj[v][pi]].contains(v));
    assert(0 <= i < t.adj[p].len() && t.adj[p][i] == v);
    assert(t.dep[p] == t.dep[v] - 1);
    lemma_slots_are_bf(ops, t, p);
    assert forall|j: int| 0 <= j < t.adj[p].len() && j != i implies #[trigger] t.adj[p][j]
        != v by {
        assert(t.adj[p].no_duplicates());
    };
    lemma_excluded_merge(ops, t, p, v, i, t.adj[p].len() as int);
    lemma_rsuf_infold(ops, t, p, i + 1);
}

/// The headline property of the engine, for a commutative merge: every
/// answer equals the plain downward tree DP re-run with its vertex as the
/// root.  For non-commutative merges the suffix accumulation of the
/// rerooting pass combines the right-hand neighbours in reverse order, so
/// only the exact algorithmic contract (`eng_ans`) holds.
pub proof fn lemma_matches_brute_force<Op: RerootOps>(ops: Op, t: TreeShape, v: int)
    requires
        t.wf(),
        commutative(ops),
        0 <= v < t.n(),
    ensures
        eng_ans(ops, t, v) == bf(ops, t, v, t.n()),
{
    lemma_slots_are_bf(ops, t, v);
    assert forall|j: int| 0 <= j < t.adj[v].len() implies #[trigger] t.adj[v][j] != t.n() by {};
    lemma_full_prefix(ops, t, v, t.adj[v].len() as int);
}

/// With no neighbour excluded, the downward merge is the full prefix.
proof fn lemma_full_prefix<Op: RerootOps>(ops: Op, t: TreeShape, v: int, k: int)
    requires
        t.wf(),
        commutative(ops),
        0 <= v < t.n(),
        forall|j: int|
            0 <= j < t.adj[v].len() ==> slotval(ops, t, v, j) == bf(ops, t, #[trigger] t.adj[v][j], v),
        0 <= k <= t.adj[v].len(),
    ensures
        bf_merge(ops, t, v, t.n(), k) == pref(ops, t, v, k),
    decreases k,
{
    if k > 0 {
        lemma_full_prefix(ops, t, v, k - 1);
        assert(t.adj[v][k - 1] != t.n());
    }
}

/// Order-sensitive aggregation: each value is the first vertex of the
/// ordered concatenation the engine would build with `merge` as sequence
/// concatenation and `add_root` appending the vertex — tracked through the
/// "first element" image of that monoid.  `u64::MAX` stands for the empty
/// sequence and is the identity; `merge` keeps its left argument unless
/// that is empty, so it is associative but not commutative.
pub struct FirstSeen;

/// The marker `FirstSeen` uses for the empty aggregate.
pub const NO_VERTEX: u64 = u64::MAX;

impl RerootOps for FirstSeen {
    type Value = u64;

    open spec fn identity_spec(&self) -> u64 {
        NO_VERTEX
    }

    open spec fn merge_spec(&self, a: u64, b: u64) -> u64 {
        if a == NO_VERTEX {
            b
        } else {
            a
        }
    }

    open spec fn add_root_spec(&self, a: u64, v: int) -> u64 {
        if a == NO_VERTEX {
            v as u64
        } else {
            a
        }
    }

    proof fn law_identity(&self, a: u64) {
    }

    proof fn law_assoc(&self, a: u64, b: u64, c: u64) {
    }

    fn identity(&self) -> u64 {
        NO_VERTEX
    }

    fn merge(&self, a: u64, b: u64) -> u64 {
        if a == NO_VERTEX {
            b
        } else {
            a
        }
    }

    fn add_root(&self, a: u64, v: usize) -> u64 {
        if a == NO_VERTEX {
            v as u64
        } else {
            a
        }
    }
}

/// A tree has exactly one rooting at vertex 0, so two engines built over
/// the same adjacency list share one `TreeShape` — and hence, by
/// `answers_correct`, equal answers: construction is deterministic.
pub proof fn lemma_rooting_determined(t1: TreeShape, t2: TreeShape)
    requires
        t1.wf(),
        t2.wf(),
        t1.adj == t2.adj,
    ensures
        t1 == t2,
{
    assert forall|v: int| 0 <= v < t1.n() implies t1.par[v] == t2.par[v] && t1.dep[v]
        == t2.dep[v] by {
        if v != 0 {
            lemma_rooting_unique(t1.adj, t1.par, t1.dep, t2.par, t2.dep, v);
        }
    };
    assert(t1.par =~= t2.par);
    assert(t1.dep =~= t2.dep);
}

/// Construction is deterministic: two engines whose construction succeeded
/// over one adjacency list with one operator object hold identical answers.
pub proof fn lemma_deterministic<Op: RerootOps>(e1: Rerooting<Op>, e2: Rerooting<Op>)
    requires
        e1.tree().wf(),
        e2.tree().wf(),
        e1.tree().adj == e2.tree().adj,
        e1.ops_spec() == e2.ops_spec(),
        e1.answers_correct(),
        e2.answers_correct(),
        e1.answer_seq().len() == e1.tree().n(),
        e2.answer_seq().len() == e2.tree().n(),
    ensures
        e1.answer_seq() == e2.answer_seq(),
{
    lemma_rooting_determined(e1.tree(), e2.tree());
    assert(e1.answer_seq() =~= e2.answer_seq());
}

/// Check that `adj_list` is an undirected tree; on success return the
/// parent and depth of each vertex for the rooting at vertex 0.
#[verifier::loop_isolation(false)]
fn validate(adj_list: &Vec<Vec<usize>>) -> (r: Option<(Vec<usize>, Vec<usize>)>)
    ensures
        match r {
            Some(pd) => {
                &&& wf_shape(view_adj(adj_list))
                &&& conforming(
                    view_adj(adj_list),
                    pd.0@.map_values(|x: usize| x as int),
                    pd.1@.map_values(|x: usize| x as int),
                )
                &&& valid_tree(view_adj(adj_list))
            },
            None => !valid_tree(view_adj(adj_list)),
        },
{
    let n: usize = adj_list.len();
    let ghost a = view_adj(adj_list);
    proof {
        assert(a.len() == n);
        assert(forall|v: int|
            0 <= v < n ==> (#[trigger] a[v]).len() == adj_list@[v]@.len());
        assert(forall|v: int, i: int|
            0 <= v < n && 0 <= i < a[v].len() ==> #[trigger] a[v][i] == adj_list@[v]@[i] as int);
    }
    if n == 0 {
        return None;
    }
    // local shape: ranges, self-loops, duplicates, symmetry
    let mut v: usize = 0;
    while v < n
        invariant
            n == a.len(),
            n == adj_list@.len(),
            forall|w: int|
                0 <= w < n ==> (#[trigger] a[w]).len() == adj_list@[w]@.len(),
            forall|w: int, i: int|
                0 <= w < n && 0 <= i < a[w].len() ==> #[trigger] a[w][i] == adj_list@[w]@[i] as int,
            0 <= v <= n,
            forall|w: int, i: int|
                0 <= w < v as int && 0 <= i < a[w].len() ==> 0 <= #[trigger] a[w][i] < n && a[w][i]
                    != w,
            forall|w: int| 0 <= w < v as int ==> (#[trigger] a[w]).no_duplicates(),
            forall|w: int, i: int|
                0 <= w < v as int && 0 <= i < a[w].len() ==> a[#[trigger] a[w][i]].contains(w),
        decreases n - v,
    {
        let deg: usize = adj_list[v].len();
        let mut i: usize = 0;
        while i < deg
            invariant
                n == a.len(),
                n == adj_list@.len(),
                forall|w: int|
                    0 <= w < n ==> (#[trigger] a[w]).len() == adj_list@[w]@.len(),
                forall|w: int, ii: int|
                    0 <= w < n && 0 <= ii < a[w].len() ==> #[trigger] a[w][ii] == adj_list@[w]@[ii]
                        as int,
                0 <= v < n,
                deg == a[v as int].len(),
                0 <= i <= deg,
                forall|ii: int|
                    0 <= ii < i as int ==> 0 <= #[trigger] a[v as int][ii] < n && a[v as int][ii]
                        != v as int,
                forall|i1: int, i2: int|
                    #![trigger a[v as int][i1], a[v as int][i2]]
                    0 <= i1 < i2 < i as int ==> a[v as int][i1] != a[v as int][i2],
                forall|ii: int|
                    0 <= ii < i as int ==> a[#[trigger] a[v as int][ii]].contains(v as int),
            decreases deg - i,
        {
            let c: usize = adj_list[v][i];
            if c >= n || c == v {
                proof {
                    assert(!wf_shape(a)) by {
                        if wf_shape(a) {
                            assert(0 <= a[v as int][i as int] < n && a[v as int][i as int] != v);
                        }
                    };
                    assert(!valid_tree(a));
                }
                return None;
            }
            let mut j: usize = 0;
            while j < i
                invariant
                    n == a.len(),
                    n == adj_list@.len(),
                    forall|w: int, ii: int|
                        0 <= w < n && 0 <= ii < a[w].len() ==> #[trigger] a[w][ii]
                            == adj_list@[w]@[ii] as int,
                    forall|w: int|
                        0 <= w < n ==> (#[trigger] a[w]).len() == adj_list@[w]@.len(),
                    0 <= v < n,
                    0 <= i < a[v as int].len(),
                    c == adj_list@[v as int]@[i as int],
                    0 <= j <= i,
                    forall|m: int| 0 <= m < j as int ==> a[v as int][m] != a[v as int][i as int],
                decreases i - j,
            {
                if adj_list[v][j] == c {
                    proof {
                        assert(!wf_shape(a)) by {
                            if wf_shape(a) {
                                assert(a[v as int].no_duplicates());
                                assert(a[v as int][j as int] != a[v as int][i as int]);
                            }
                        };
                        assert(!valid_tree(a));
                    }
                    return None;
                }
                j = j + 1;
            }
            let cdeg: usize = adj_list[c].len();
            let mut k: usize = 0;
            let mut found: bool = false;
            while k < cdeg
                invariant
                    n == a.len(),
                    n == adj_list@.len(),
                    forall|w: int, ii: int|
                        0 <= w < n && 0 <= ii < a[w].len() ==> #[trigger] a[w][ii]
                            == adj_list@[w]@[ii] as int,
                    forall|w: int|
                        0 <= w < n ==> (#[trigger] a[w]).len() == adj_list@[w]@.len(),
                    0 <= v < n,
                    0 <= (c as int) < n,
                    0 <= i < a[v as int].len(),
                    c == adj_list@[v as int]@[i as int],
                    cdeg == a[c as int].len(),
                    0 <= k <= cdeg,
                    found ==> a[c as int].contains(v as int),
                    !found ==> forall|m: int| 0 <= m < k as int ==> a[c as int][m] != v as int,
                decreases cdeg - k,
            {
                if adj_list[c][k] == v {
                    proof {
                        assert(a[c as int][k as int] == v as int);
                        assert(a[c as int].contains(v as int));
                    }
                    found = true;
                }
                k = k + 1;
            }
            if !found {
                proof {
                    assert(!wf_shape(a)) by {
                        if wf_shape(a) {
                            assert(a[#[trigger] a[v as int][i as int]].contains(v as int));
                        }
                    };
                    assert(!valid_tree(a));
                }
                return None;
            }
            i = i + 1;
        }
        v = v + 1;
    }
    proof {
        assert(wf_shape(a));
    }
    // breadth-first search from vertex 0
    let mut visited: Vec<bool> = Vec::new();
    let mut parv: Vec<usize> = Vec::new();
    let mut depv: Vec<usize> = Vec::new();
    let mut w: usize = 0;
    while w < n
        invariant
            0 <= w <= n,
            visited@.len() == w,
            parv@.len() == w,
            depv@.len() == w,
            forall|x: int| 0 <= x < w as int ==> !visited@[x],
            forall|x: int| 0 <= x < w as int ==> parv@[x] == n,
            forall|x: int| 0 <= x < w as int ==> depv@[x] == 0,
        decreases n - w,
    {
        visited.push(false);
        parv.push(n);
        depv.push(0);
        w = w + 1;
    }
    visited[0] = true;
    let mut order: Vec<usize> = Vec::new();
    order.push(0);
    proof {
        assert(order@[0] == 0usize);
        assert(order@.contains(0usize));
    }
    let mut head: usize = 0;
    while head < order.len()
        invariant
            n == a.len() >= 1,
            n == adj_list@.len(),
            wf_shape(a),
            forall|x: int|
                0 <= x < n ==> (#[trigger] a[x]).len() == adj_list@[x]@.len(),
            forall|x: int, ii: int|
                0 <= x < n && 0 <= ii < a[x].len() ==> #[trigger] a[x][ii] == adj_list@[x]@[ii]
                    as int,
            visited@.len() == n,
            parv@.len() == n,
            depv@.len() == n,
            0 <= head <= order@.len() <= n,
            order@.no_duplicates(),
            order@[0] == 0,
            visited@[0],
            depv@[0] == 0,
            parv@[0] == n,
            forall|k: int|
                0 <= k < order@.len() ==> (#[trigger] order@[k]) < n && visited@[order@[k] as int]
                    && depv@[order@[k] as int] <= k,
            forall|x: int| 0 <= x < n && visited@[x] ==> order@.contains(x as usize),
            forall|x: int|
                0 <= x < n && visited@[x] && x != 0 ==> (#[trigger] parv@[x]) < n
                    && visited@[parv@[x] as int] && depv@[x] == depv@[parv@[x] as int] + 1
                    && depv@[x] >= 1 && a[x].contains(parv@[x] as int),
            forall|k: int, ii: int|
                #![trigger a[order@[k] as int][ii]]
                0 <= k < head && 0 <= ii < a[order@[k] as int].len()
                    ==> visited@[a[order@[k] as int][ii]],
        decreases n - head,
    {
        let u: usize = order[head];
        let deg: usize = adj_list[u].len();
        let mut i: usize = 0;
        while i < deg
            invariant
                n == a.len() >= 1,
                n == adj_list@.len(),
                wf_shape(a),
                forall|x: int|
                    0 <= x < n ==> (#[trigger] a[x]).len() == adj_list@[x]@.len(),
                forall|x: int, ii: int|
                    0 <= x < n && 0 <= ii < a[x].len() ==> #[trigger] a[x][ii] == adj_list@[x]@[ii]
                        as int,
                visited@.len() == n,
                parv@.len() == n,
                depv@.len() == n,
                0 <= head < order@.len() <= n,
                u == order@[head as int],
                (u as int) < n,
                visited@[u as int],
                depv@[u as int] <= head,
                deg == a[u as int].len(),
                0 <= i <= deg,
                order@.no_duplicates(),
                order@[0] == 0,
                visited@[0],
                depv@[0] == 0,
                parv@[0] == n,
                forall|k: int|
                    0 <= k < order@.len() ==> (#[trigger] order@[k]) < n && visited@[order@[k]
                        as int] && depv@[order@[k] as int] <= k,
                forall|x: int| 0 <= x < n && visited@[x] ==> order@.contains(x as usize),
                forall|x: int|
                    0 <= x < n && visited@[x] && x != 0 ==> (#[trigger] parv@[x]) < n
                        && visited@[parv@[x] as int] && depv@[x] == depv@[parv@[x] as int] + 1
                        && depv@[x] >= 1 && a[x].contains(parv@[x] as int),
                forall|k: int, ii: int|
                    #![trigger a[order@[k] as int][ii]]
                    0 <= k < head && 0 <= ii < a[order@[k] as int].len()
                        ==> visited@[a[order@[k] as int][ii]],
                forall|ii: int| 0 <= ii < i as int ==> visited@[a[u as int][ii]],
            decreases deg - i,
        {
            let c: usize = adj_list[u][i];
            proof {
                assert(0 <= a[u as int][i as int] < n);
            }
            if !visited[c] {
                let ghost vis0 = visited@;
                let ghost par0 = parv@;
                let ghost dep0 = depv@;
                visited[c] = true;
                parv[c] = u;
                let du: usize = depv[u];
                depv[c] = du + 1;
                proof {
                    assert forall|x: int|
                        0 <= x < n && visited@[x] && x != 0 implies (#[trigger] parv@[x]) < n
                            && visited@[parv@[x] as int] && depv@[x] == depv@[parv@[x] as int] + 1
                            && depv@[x] >= 1 && a[x].contains(parv@[x] as int) by {
                        if x == c as int {
                            assert(parv@[x] == u);
                            assert(a[a[u as int][i as int]].contains(u as int));
                        } else {
                            assert(vis0[x]);
                            assert(par0[x] == parv@[x]);
                            assert(vis0[par0[x] as int]);
                            assert(par0[x] != c);
                            assert(depv@[x] == dep0[x]);
                            assert(depv@[par0[x] as int] == dep0[par0[x] as int]);
                        }
                    };
                    assert(a[u as int][i as int] == c as int);
                    assert(a[a[u as int][i as int]].contains(u as int));
                    assert forall|k: int|
                        0 <= k < order@.len() implies (#[trigger] order@[k]) != c by {
                        assert(visited@[order@[k] as int] || order@[k] == c);
                    };
                    let neworder = order@.push(c).map_values(|x: usize| x as int);
                    assert(neworder.no_duplicates()) by {
                        assert(forall|k1: int, k2: int|
                            #![trigger neworder[k1], neworder[k2]]
                            0 <= k1 < k2 < neworder.len() ==> neworder[k1] != neworder[k2]);
                        assert(forall|k1: int, k2: int|
                            #![trigger neworder[k1], neworder[k2]]
                            k1 != k2 && 0 <= k1 < neworder.len() && 0 <= k2 < neworder.len()
                                ==> neworder[k1] != neworder[k2]);
                    };
                    assert(forall|k: int|
                        0 <= k < neworder.len() ==> 0 <= #[trigger] neworder[k] < n);
                    lemma_distinct_bounded(neworder, n as int);
                    assert(order@.len() + 1 <= n);
                    assert forall|y: int|
                        0 <= y < n && (y == c as int || visited@[y]) implies order@.push(
                        c,
                    ).contains(y as usize) by {
                        if y == c as int {
                            assert(order@.push(c)[order@.len() as int] == c);
                        } else {
                            let idx = choose|idx: int|
                                0 <= idx < order@.len() && order@[idx] == y as usize;
                            assert(order@.push(c)[idx] == y as usize);
                        }
                    };
                }
                order.push(c);
            }
            i = i + 1;
        }
        head = head + 1;
    }
    // connectivity: everything must have been reached
    let mut x: usize = 0;
    while x < n
        invariant
            n == a.len() >= 1,
            n == adj_list@.len(),
            wf_shape(a),
            visited@.len() == n,
            0 <= x <= n,
            forall|y: int| 0 <= y < x as int ==> visited@[y],
            visited@[0],
            forall|k: int, ii: int|
                0 <= k < n && visited@[k] && 0 <= ii < a[k].len() ==> visited@[#[trigger] a[k][ii]],
        decreases n - x,
    {
        if !visited[x] {
            proof {
                assert(!valid_tree(a)) by {
                    if valid_tree(a) {
                        let (par2, dep2): (Seq<int>, Seq<int>) = choose|par2: Seq<int>, dep2: Seq<
                            int,
                        >| conforming(a, par2, dep2);
                        let vis = Seq::new(n as nat, |y: int| visited@[y]);
                        assert forall|ww: int, ii: int|
                            0 <= ww < a.len() && vis[ww] && 0 <= ii < a[ww].len() implies vis[
                            #[trigger] a[ww][ii]] by {
                            assert(visited@[a[ww][ii]]);
                        };
                        lemma_search_complete(a, par2, dep2, vis, x as int);
                    }
                };
                assert(!valid_tree(a));
            }
            return None;
        }
        x = x + 1;
    }
    // acyclicity: every listed edge must be a parent edge of the rooting
    let ghost par1 = parv@.map_values(|y: usize| y as int);
    let ghost dep1 = depv@.map_values(|y: usize| y as int);
    proof {
        assert forall|y: int| 0 <= y < n implies 0 <= #[trigger] dep1[y] < n by {
            assert(visited@[y]);
            assert(order@.contains(y as usize));
            let k = choose|k: int| 0 <= k < order@.len() && order@[k] == y as usize;
            assert(depv@[y] <= k);
        };
        assert(rooted_shape(par1, dep1));
        assert(forall|y: int| 1 <= y < n ==> a[y].contains(#[trigger] par1[y]));
    }
    let mut v2: usize = 0;
    while v2 < n
        invariant
            n == a.len() >= 1,
            n == adj_list@.len(),
            wf_shape(a),
            forall|y: int|
                0 <= y < n ==> (#[trigger] a[y]).len() == adj_list@[y]@.len(),
            forall|y: int, ii: int|
                0 <= y < n && 0 <= ii < a[y].len() ==> #[trigger] a[y][ii] == adj_list@[y]@[ii]
                    as int,
            parv@.len() == n,
            depv@.len() == n,
            par1 == parv@.map_values(|y: usize| y as int),
            dep1 == depv@.map_values(|y: usize| y as int),
            rooted_shape(par1, dep1),
            forall|y: int| 1 <= y < n ==> a[y].contains(#[trigger] par1[y]),
            0 <= v2 <= n,
            forall|y: int, ii: int|
                0 <= y < v2 as int && 0 <= ii < a[y].len() ==> ((y != 0 && #[trigger] a[y][ii]
                    == par1[y]) || (a[y][ii] != 0 && par1[a[y][ii]] == y)),
        decreases n - v2,
    {
        let deg: usize = adj_list[v2].len();
        let mut i: usize = 0;
        while i < deg
            invariant
                n == a.len() >= 1,
                n == adj_list@.len(),
                wf_shape(a),
                forall|y: int|
                    0 <= y < n ==> (#[trigger] a[y]).len() == adj_list@[y]@.len(),
                forall|y: int, ii: int|
                    0 <= y < n && 0 <= ii < a[y].len() ==> #[trigger] a[y][ii] == adj_list@[y]@[ii]
                        as int,
                parv@.len() == n,
                depv@.len() == n,
                par1 == parv@.map_values(|y: usize| y as int),
                dep1 == depv@.map_values(|y: usize| y as int),
                rooted_shape(par1, dep1),
                forall|y: int| 1 <= y < n ==> a[y].contains(#[trigger] par1[y]),
                0 <= v2 < n,
                deg == a[v2 as int].len(),
                0 <= i <= deg,
                forall|ii: int|
                    0 <= ii < i as int ==> ((v2 as int != 0 && #[trigger] a[v2 as int][ii]
                        == par1[v2 as int]) || (a[v2 as int][ii] != 0 && par1[a[v2 as int][ii]]
                        == v2 as int)),
            decreases deg - i,
        {
            let c: usize = adj_list[v2][i];
            proof {
                assert(0 <= a[v2 as int][i as int] < n);
            }
            let ok: bool = (v2 != 0 && c == parv[v2]) || (c != 0 && parv[c] == v2);
            if !ok {
                proof {
                    assert(!valid_tree(a)) by {
                        if valid_tree(a) {
                            let (par2, dep2): (Seq<int>, Seq<int>) = choose|
                                par2: Seq<int>,
                                dep2: Seq<int>,
                            | conforming(a, par2, dep2);
                            lemma_rooting_unique(a, par1, dep1, par2, dep2, v2 as int);
                            lemma_rooting_unique(a, par1, dep1, par2, dep2, c as int);
                            assert((v2 as int != 0 && a[v2 as int][i as int] == par2[v2 as int])
                                || (a[v2 as int][i as int] != 0 && par2[a[v2 as int][i as int]]
                                == v2 as int));
                        }
                    };
                    assert(!valid_tree(a));
                }
                return None;
            }
            i = i + 1;
        }
        v2 = v2 + 1;
    }
    proof {
        assert(conforming(a, par1, dep1));
    }
    Some((parv, depv))
}

/// Subtree-size aggregation: values are saturating vertex counts, `merge`
/// adds them, and each vertex contributes one.  With these operators the
/// engine computes, for every vertex, the size of the whole tree.
pub struct SubtreeCount;

impl RerootOps for SubtreeCount {
    type Value = u64;

    open spec fn identity_spec(&self) -> u64 {
        0
    }

    open spec fn merge_spec(&self, a: u64, b: u64) -> u64 {
        if a + b > u64::MAX {
            u64::MAX
        } else {
            (a + b) as u64
        }
    }

    open spec fn add_root_spec(&self, a: u64, v: int) -> u64 {
        if a + 1 > u64::MAX {
            u64::MAX
        } else {
            (a + 1) as u64
        }
    }

    proof fn law_identity(&self, a: u64) {
    }

    proof fn law_assoc(&self, a: u64, b: u64, c: u64) {
    }

    fn identity(&self) -> u64 {
        0
    }

    fn merge(&self, a: u64, b: u64) -> u64 {
        if a > u64::MAX - b {
            u64::MAX
        } else {
            a + b
        }
    }

    fn add_root(&self, a: u64, v: usize) -> u64 {
        if a == u64::MAX {
            u64::MAX
        } else {
            a + 1
        }
    }
}

/// A tree with a single vertex has the answer `add_root(identity, 0)`.
pub proof fn lemma_single_vertex<Op: RerootOps>(ops: Op, t: TreeShape)
    requires
        t.wf(),
        t.n() == 1,
    ensures
        eng_ans(ops, t, 0) == ops.add_root_spec(ops.identity_spec(), 0),
{
    assert(t.adj[0].len() == 0) by {
        if t.adj[0].len() > 0 {
            assert(0 <= t.adj[0][0] < 1 && t.adj[0][0] != 0);
        }
    };
    assert(pref(ops, t, 0, 0) == ops.identity_spec());
}

/// In a two-vertex tree each answer incorporates the other vertex as the
/// sole neighbour: `add_root(add_root(identity, other), v)`, using that
/// `identity` is a unit of `merge`.
pub proof fn lemma_two_vertices<Op: RerootOps>(ops: Op, t: TreeShape)
    requires
        t.wf(),
        t.n() == 2,
    ensures
        eng_ans(ops, t, 0) == ops.add_root_spec(
            ops.add_root_spec(ops.identity_spec(), 1),
            0,
        ),
        eng_ans(ops, t, 1) == ops.add_root_spec(
            ops.add_root_spec(ops.identity_spec(), 0),
            1,
        ),
{
    assert(t.par[1] == 0 && t.dep[1] == 1);
    assert(t.adj[1].contains(t.par[1]));
    let i0 = choose|i: int| 0 <= i < t.adj[1].len() && t.adj[1][i] == 0;
    assert(t.adj[t.adj[1][i0]].contains(1));
    let i1 = choose|i: int| 0 <= i < t.adj[0].len() && t.adj[0][i] == 1;
    assert forall|i: int| 0 <= i < t.adj[0].len() implies t.adj[0][i] == 1 by {
        assert(0 <= t.adj[0][i] < 2 && t.adj[0][i] != 0);
    };
    assert forall|i: int| 0 <= i < t.adj[1].len() implies t.adj[1][i] == 0 by {
        assert(0 <= t.adj[1][i] < 2 && t.adj[1][i] != 1);
    };
    assert(t.adj[0].len() == 1) by {
        if t.adj[0].len() > 1 {
            assert(t.adj[0][0] == 1 && t.adj[0][1] == 1);
            assert(t.adj[0].no_duplicates());
        }
    };
    assert(t.adj[1].len() == 1) by {
        if t.adj[1].len() > 1 {
            assert(t.adj[1][0] == 0 && t.adj[1][1] == 0);
            assert(t.adj[1].no_duplicates());
        }
    };
    // the downward value of vertex 1 seen from 0, and the full merges
    assert(bf_merge(ops, t, 1, 0, 0) == ops.identity_spec());
    assert(bf_merge(ops, t, 1, 0, 1) == ops.identity_spec());
    assert(bf(ops, t, 1, 0) == ops.add_root_spec(ops.identity_spec(), 1));
    assert(slotval(ops, t, 0, 0) == bf(ops, t, 1, 0));
    assert(pref(ops, t, 0, 0) == ops.identity_spec());
    assert(pref(ops, t, 0, 1) == ops.merge_spec(ops.identity_spec(), slotval(ops, t, 0, 0)));
    ops.law_identity(slotval(ops, t, 0, 0));
    assert(eng_ans(ops, t, 0) == ops.add_root_spec(
        ops.add_root_spec(ops.identity_spec(), 1),
        0,
    ));
    // the propagated value into vertex 1, and its answer
    assert(slot_of(t, 1) == 0);
    assert(pref(ops, t, 0, 0) == ops.identity_spec());
    assert(rsuf(ops, t, 0, 1) == ops.identity_spec());
    ops.law_identity(ops.identity_spec());
    assert(inval(ops, t, 1) == ops.add_root_spec(ops.identity_spec(), 0));
    assert(t.adj[1][0] == t.par[1]);
    assert(slotval(ops, t, 1, 0) == inval(ops, t, 1));
    assert(pref(ops, t, 1, 0) == ops.identity_spec());
    assert(pref(ops, t, 1, 1) == ops.merge_spec(ops.identity_spec(), slotval(ops, t, 1, 0)));
    ops.law_identity(slotval(ops, t, 1, 0));
}

} // verus!
