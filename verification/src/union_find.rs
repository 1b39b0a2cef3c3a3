//! Disjoint-set forest with path compression.
//!
//! Each element points towards the representative of its set; `root` walks
//! and flattens that chain, `unite` hangs the lighter representative under
//! the heavier one and adds their weights, so each root carries the number
//! of elements of its set.  A ghost level on the vertices decreases
//! strictly towards each root, which is what bounds every parent walk.

use vstd::prelude::*;

verus! {

/// The parent forest is well formed: parents in range, and the ghost level
/// strictly decreases from an element to its parent.
pub open spec fn uf_inv(par: Seq<int>, lvl: Seq<nat>) -> bool {
    &&& lvl.len() == par.len()
    &&& forall|x: int| 0 <= x < par.len() ==> 0 <= #[trigger] par[x] < par.len()
    &&& forall|x: int| 0 <= x < par.len() && par[x] != x ==> lvl[par[x]] < #[trigger] lvl[x]
}

/// The representative of `x`: the fixed point of the parent map above `x`.
pub open spec fn root_of(par: Seq<int>, lvl: Seq<nat>, x: int) -> int
    decreases lvl[x],
        when uf_inv(par, lvl) && 0 <= x < par.len()
{
    if par[x] == x {
        x
    } else {
        root_of(par, lvl, par[x])
    }
}

proof fn lemma_root_props(par: Seq<int>, lvl: Seq<nat>, x: int)
    requires
        uf_inv(par, lvl),
        0 <= x < par.len(),
    ensures
        0 <= root_of(par, lvl, x) < par.len(),
        par[root_of(par, lvl, x)] == root_of(par, lvl, x),
        root_of(par, lvl, x) != x ==> lvl[root_of(par, lvl, x)] < lvl[x],
    decreases lvl[x],
{
    if par[x] != x {
        lemma_root_props(par, lvl, par[x]);
    }
}

/// Pointing `x` straight at its representative changes no representative.
proof fn lemma_compress(par: Seq<int>, lvl: Seq<nat>, x: int, y: int)
    requires
        uf_inv(par, lvl),
        0 <= x < par.len(),
        0 <= y < par.len(),
        uf_inv(par.update(x, root_of(par, lvl, x)), lvl),
    ensures
        root_of(par.update(x, root_of(par, lvl, x)), lvl, y) == root_of(par, lvl, y),
    decreases lvl[y],
{
    let r = root_of(par, lvl, x);
    lemma_root_props(par, lvl, x);
    let par2 = par.update(x, r);
    if y == x {
        if r != x {
            assert(par2[r] == par[r]);
            assert(root_of(par2, lvl, r) == r);
        }
    } else {
        if par[y] != y {
            lemma_compress(par, lvl, x, par[y]);
        }
    }
}

/// Hanging the root `ry` under the root `rx` merges exactly the two sets.
proof fn lemma_union(par: Seq<int>, lvl: Seq<nat>, lvl2: Seq<nat>, rx: int, ry: int, y: int)
    requires
        uf_inv(par, lvl),
        0 <= rx < par.len(),
        0 <= ry < par.len(),
        rx != ry,
        par[rx] == rx,
        par[ry] == ry,
        uf_inv(par.update(ry, rx), lvl2),
        0 <= y < par.len(),
    ensures
        root_of(par.update(ry, rx), lvl2, y) == (if root_of(par, lvl, y) == ry {
            rx
        } else {
            root_of(par, lvl, y)
        }),
    decreases lvl[y],
{
    let par2 = par.update(ry, rx);
    if y == ry {
        assert(par2[ry] == rx);
        assert(par2[rx] == rx);
        assert(root_of(par2, lvl2, rx) == rx);
    } else if par[y] == y {
        assert(root_of(par2, lvl2, y) == y);
    } else {
        lemma_union(par, lvl, lvl2, rx, ry, par[y]);
    }
}

/// `y` lies on the parent walk from `x` up to its representative,
/// both endpoints included.
pub open spec fn on_chain(par: Seq<int>, lvl: Seq<nat>, x: int, y: int) -> bool
    decreases lvl[x],
        when uf_inv(par, lvl) && 0 <= x < par.len()
{
    if y == x {
        true
    } else if par[x] == x {
        false
    } else {
        on_chain(par, lvl, par[x], y)
    }
}

proof fn lemma_on_chain_range(par: Seq<int>, lvl: Seq<nat>, x: int, y: int)
    requires
        uf_inv(par, lvl),
        0 <= x < par.len(),
        on_chain(par, lvl, x, y),
    ensures
        0 <= y < par.len(),
    decreases lvl[x],
{
    if y != x && par[x] != x {
        lemma_on_chain_range(par, lvl, par[x], y);
    }
}

/// A size-weighted disjoint-set forest over the elements `0..n`.
pub struct UnionFind {
    par: Vec<usize>,
    sz: Vec<u32>,
    lvl: Ghost<Seq<nat>>,
}

impl UnionFind {
    /// The parent map, as integers.
    pub closed spec fn parents(self) -> Seq<int> {
        self.par@.map_values(|p: usize| p as int)
    }

    /// How many elements the structure manages.
    pub closed spec fn n(self) -> int {
        self.par@.len() as int
    }

    /// The representative of `x`'s set.
    pub closed spec fn rep(self, x: int) -> int {
        root_of(self.parents(), self.lvl@, x)
    }

    /// The stored per-root weights.
    pub closed spec fn szs(self) -> Seq<u32> {
        self.sz@
    }

    /// The ghost level of one element (the bound on its parent walk).
    pub closed spec fn level(self, x: int) -> nat {
        self.lvl@[x]
    }

    /// All the ghost levels.
    pub closed spec fn levels(self) -> Seq<nat> {
        self.lvl@
    }

    pub closed spec fn wf(self) -> bool {
        &&& self.sz@.len() == self.par@.len()
        &&& uf_inv(self.parents(), self.lvl@)
    }

    /// A fresh structure: every element is the representative of its own
    /// singleton set, of weight one.
    pub fn new(n: usize) -> (r: UnionFind)
        ensures
            r.wf(),
            r.n() == n,
            forall|x: int| 0 <= x < n ==> r.rep(x) == x,
            forall|x: int| 0 <= x < n ==> r.szs()[x] == 1,
    {
        let mut par: Vec<usize> = Vec::new();
        let mut sz: Vec<u32> = Vec::new();
        let mut i: usize = 0;
        while i < n
            invariant
                0 <= i <= n,
                par@.len() == i,
                sz@.len() == i,
                forall|x: int| 0 <= x < i as int ==> #[trigger] par@[x] == x,
                forall|x: int| 0 <= x < i as int ==> #[trigger] sz@[x] == 1,
            decreases n - i,
        {
            par.push(i);
            sz.push(1);
            i = i + 1;
        }
        let r = UnionFind { par, sz, lvl: Ghost(Seq::new(n as nat, |x: int| 0nat)) };
        proof {
            assert(uf_inv(r.parents(), r.lvl@));
            assert forall|x: int| 0 <= x < n implies r.rep(x) == x by {
                assert(r.parents()[x] == x);
            };
        }
        r
    }

    /// The representative of `x`'s set, repointing every vertex of the
    /// walked chain directly at it.
    pub fn root(&mut self, x: usize) -> (r: usize)
        requires
            old(self).wf(),
            (x as int) < old(self).n(),
        ensures
            final(self).wf(),
            final(self).n() == old(self).n(),
            final(self).szs() == old(self).szs(),
            forall|y: int| 0 <= y < old(self).n() ==> final(self).rep(y) == old(self).rep(y),
            r as int == old(self).rep(x as int),
            (r as int) < old(self).n(),
            final(self).parents()[r as int] == r as int,
            final(self).rep(r as int) == r as int,
            final(self).parents()[x as int] == r as int,
            forall|y: int|
                on_chain(old(self).parents(), old(self).levels(), x as int, y)
                    ==> final(self).parents()[y] == r as int,
        decreases old(self).level(x as int),
    {
        proof {
            lemma_root_props(self.parents(), self.lvl@, x as int);
        }
        let p: usize = self.par[x];
        if p == x {
            proof {
                assert(self.parents()[x as int] == x as int);
                assert forall|y: int|
                    on_chain(old(self).parents(), old(self).levels(), x as int, y) implies final(self).parents()[y]
                    == x as int by {
                    assert(y == x as int);
                };
            }
            return x;
        }
        proof {
            assert(self.parents()[x as int] == p as int);
            assert(self.lvl@[p as int] < self.lvl@[x as int]);
            assert(old(self).rep(x as int) == old(self).rep(p as int));
        }
        let r = self.root(p);
        let ghost mid = *self;
        self.par[x] = r;
        proof {
            assert(self.parents() == mid.parents().update(x as int, r as int));
            lemma_root_props(mid.parents(), mid.lvl@, x as int);
            assert(r as int == root_of(mid.parents(), mid.lvl@, x as int));
            assert(uf_inv(self.parents(), self.lvl@)) by {
                if r as int != x as int {
                    assert(mid.lvl@[r as int] < mid.lvl@[x as int]);
                }
            };
            assert forall|y: int| 0 <= y < old(self).n() implies final(self).rep(y) == old(
                self,
            ).rep(y) by {
                lemma_compress(mid.parents(), mid.lvl@, x as int, y);
            };
            assert(self.parents()[r as int] == r as int);
            assert(self.rep(r as int) == r as int);
            assert forall|y: int|
                on_chain(old(self).parents(), old(self).levels(), x as int, y) implies final(self).parents()[y]
                == r as int by {
                if y != x as int {
                    assert(old(self).parents()[x as int] == p as int);
                    assert(old(self).parents()[x as int] != x as int);
                    assert(on_chain(old(self).parents(), old(self).levels(), p as int, y));
                    lemma_on_chain_range(old(self).parents(), old(self).levels(), p as int, y);
                    assert(mid.parents()[y] == r as int);
                    assert(self.parents()[y] == mid.parents()[y]);
                } else {
                    assert(self.parents()[x as int] == r as int);
                }
            };
        }
        r
    }

    /// The stored weight of `x`'s set.
    pub fn size(&mut self, x: usize) -> (r: u32)
        requires
            old(self).wf(),
            (x as int) < old(self).n(),
        ensures
            final(self).wf(),
            final(self).n() == old(self).n(),
            final(self).szs() == old(self).szs(),
            forall|y: int| 0 <= y < old(self).n() ==> final(self).rep(y) == old(self).rep(y),
            r == old(self).szs()[old(self).rep(x as int)],
    {
        let rx = self.root(x);
        self.sz[rx]
    }

    /// Join the sets of `x` and `y`; reports whether they were distinct.
    /// Afterwards the two old sets share one representative — the heavier of
    /// the two old ones, ties going to `x`'s — whose weight becomes the sum
    /// of the two old weights; every other set and weight is untouched.
    pub fn unite(&mut self, x: usize, y: usize) -> (r: bool)
        requires
            old(self).wf(),
            (x as int) < old(self).n(),
            (y as int) < old(self).n(),
            old(self).rep(x as int) != old(self).rep(y as int) ==> old(self).szs()[old(self).rep(
                x as int,
            )] + old(self).szs()[old(self).rep(y as int)] <= u32::MAX,
        ensures
            final(self).wf(),
            final(self).n() == old(self).n(),
            r == (old(self).rep(x as int) != old(self).rep(y as int)),
            final(self).rep(x as int) == final(self).rep(y as int),
            final(self).rep(x as int) == (if !r {
                old(self).rep(x as int)
            } else if old(self).szs()[old(self).rep(x as int)] < old(self).szs()[old(self).rep(
                y as int,
            )] {
                old(self).rep(y as int)
            } else {
                old(self).rep(x as int)
            }),
            forall|z: int|
                0 <= z < old(self).n() ==> final(self).rep(z) == (if old(self).rep(z) == old(
                    self,
                ).rep(x as int) || old(self).rep(z) == old(self).rep(y as int) {
                    final(self).rep(x as int)
                } else {
                    old(self).rep(z)
                }),
            !r ==> final(self).szs() == old(self).szs(),
            r ==> final(self).szs()[final(self).rep(x as int)] == old(self).szs()[old(self).rep(
                x as int,
            )] + old(self).szs()[old(self).rep(y as int)],
            r ==> forall|z: int|
                0 <= z < old(self).n() && z != final(self).rep(x as int) ==> final(self).szs()[z]
                    == old(self).szs()[z],
        decreases old(self).n(),
    {
        let mut rx = self.root(x);
        let ghost s1 = *self;
        let mut ry = self.root(y);
        if rx == ry {
            return false;
        }
        if self.sz[rx] < self.sz[ry] {
            let tmp = rx;
            rx = ry;
            ry = tmp;
        }
        let ghost mid = *self;
        proof {
            // both ends are representatives of the current forest: each walk
            // ended at one, and later walks keep every representative fixed
            assert(s1.rep(rx as int) == rx as int || s1.rep(ry as int) == ry as int);
            assert(mid.parents()[rx as int] == rx as int || mid.parents()[ry as int]
                == ry as int);
            assert(mid.rep(rx as int) == rx as int && mid.rep(ry as int) == ry as int);
            lemma_root_props(mid.parents(), mid.lvl@, rx as int);
            lemma_root_props(mid.parents(), mid.lvl@, ry as int);
            assert(mid.parents()[rx as int] == rx as int);
            assert(mid.parents()[ry as int] == ry as int);
        }
        self.par[ry] = rx;
        let wsum: u32 = self.sz[rx] + self.sz[ry];
        self.sz[rx] = wsum;
        proof {
            assert(self.szs() == mid.szs().update(rx as int, wsum));
            assert(mid.szs() == old(self).szs());
            let shift = (mid.lvl@[rx as int] + 1) as nat;
            let lvl2 = Seq::new(
                mid.lvl@.len(),
                |z: int|
                    if root_of(mid.parents(), mid.lvl@, z) == ry as int {
                        (mid.lvl@[z] + shift) as nat
                    } else {
                        mid.lvl@[z]
                    },
            );
            self.lvl = Ghost(lvl2);
            assert(self.parents() == mid.parents().update(ry as int, rx as int));
            assert(uf_inv(self.parents(), lvl2)) by {
                assert forall|w: int|
                    0 <= w < self.parents().len() && self.parents()[w] != w implies lvl2[self.parents(
                )[w]] < lvl2[w] by {
                    if w == ry as int {
                        assert(root_of(mid.parents(), mid.lvl@, rx as int) == rx as int);
                        assert(root_of(mid.parents(), mid.lvl@, ry as int) == ry as int);
                    } else {
                        assert(mid.parents()[w] != w);
                        assert(root_of(mid.parents(), mid.lvl@, w) == root_of(
                            mid.parents(),
                            mid.lvl@,
                            mid.parents()[w],
                        ));
                    }
                };
            };
            assert forall|z: int| 0 <= z < old(self).n() implies final(self).rep(z) == (if root_of(
                mid.parents(),
                mid.lvl@,
                z,
            ) == ry as int {
                rx as int
            } else {
                root_of(mid.parents(), mid.lvl@, z)
            }) by {
                lemma_union(mid.parents(), mid.lvl@, lvl2, rx as int, ry as int, z);
            };
        }
        true
    }

    /// Whether `x` and `y` are in one set.
    pub fn same(&mut self, x: usize, y: usize) -> (r: bool)
        requires
            old(self).wf(),
            (x as int) < old(self).n(),
            (y as int) < old(self).n(),
        ensures
            final(self).wf(),
            final(self).n() == old(self).n(),
            final(self).szs() == old(self).szs(),
            forall|z: int| 0 <= z < old(self).n() ==> final(self).rep(z) == old(self).rep(z),
            r == (old(self).rep(x as int) == old(self).rep(y as int)),
    {
        let rx = self.root(x);
        let ry = self.root(y);
        rx == ry
    }
}

} // verus!
