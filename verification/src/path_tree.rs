//! A forest of indexed nodes that carry a signed value, with updates and
//! queries along the path from a node to its root.

use vstd::prelude::*;
use crate::dag::{ancestor, ancestor_at_depth, depth, parents_earlier, NULL};
#[allow(unused_imports)]
use crate::dag::{lemma_ancestor_earlier, lemma_ancestor_transitive};

verus! {

/// Node `v` is the child of `parent[v]`, or a root where that is `NULL`.
pub struct PathTree {
    parent: Vec<usize>,
    children: Vec<Vec<usize>>,
    value: Vec<i128>,
}

impl PathTree {
    pub closed spec fn parents(&self) -> Seq<usize> {
        self.parent@
    }

    pub closed spec fn values(&self) -> Seq<i128> {
        self.value@
    }

    pub open spec fn len(&self) -> nat {
        self.parents().len()
    }

    pub closed spec fn wf(&self) -> bool {
        &&& self.children@.len() == self.parent@.len()
        &&& self.value@.len() == self.parent@.len()
        &&& self.parent@.len() < NULL
        &&& parents_earlier(self.parent@)
        &&& forall|p: int, j: int|
            0 <= p < self.children@.len() && 0 <= j < self.children@[p]@.len() ==> {
                &&& (#[trigger] self.children@[p]@[j]) < self.parent@.len()
                &&& self.parent@[self.children@[p]@[j] as int] == p
            }
        &&& forall|p: int, j: int, k: int|
            0 <= p < self.children@.len() && 0 <= j < k < self.children@[p]@.len()
                ==> #[trigger] self.children@[p]@[j] != #[trigger] self.children@[p]@[k]
        &&& forall|c: int|
            0 <= c < self.parent@.len() && (#[trigger] self.parent@[c]) < self.parent@.len()
                ==> self.children@[self.parent@[c] as int]@.contains(c as usize)
    }

    /// `c` hangs below a node on the path from `v` to its root.
    pub open spec fn below_path(parents: Seq<usize>, c: int, v: int) -> bool {
        0 <= c < parents.len() && parents[c] < parents.len() && ancestor(
            parents,
            parents[c] as int,
            v,
        )
    }

    pub proof fn lemma_shape(&self)
        requires
            self.wf(),
        ensures
            self.values().len() == self.len(),
            self.len() < NULL,
            parents_earlier(self.parents()),
    {
    }

    pub fn new() -> (tree: PathTree)
        ensures
            tree.wf(),
            tree.len() == 0,
    {
        PathTree { parent: Vec::new(), children: Vec::new(), value: Vec::new() }
    }

    /// Adds node `v`, a root of value zero.
    pub fn make_tree(&mut self, v: usize)
        requires
            old(self).wf(),
            v == old(self).len(),
            v < NULL - 1,
        ensures
            final(self).wf(),
            final(self).parents() == old(self).parents().push(NULL),
            final(self).values() == old(self).values().push(0),
    {
        self.parent.push(NULL);
        self.children.push(Vec::new());
        self.value.push(0);
        assert forall|c: int| 0 <= c < self.parent@.len() && (#[trigger] self.parent@[c])
            < self.parent@.len() implies self.children@[self.parent@[c] as int]@.contains(
            c as usize,
        ) by {
            assert(c < old(self).parent@.len());
            assert(old(self).parent@[c] < c);
        }
    }

    /// Hangs the root `v` below `p`. Values stay as they are.
    pub fn link(&mut self, p: usize, v: usize)
        requires
            old(self).wf(),
            p < v < old(self).len(),
            old(self).parents()[v as int] == NULL,
        ensures
            final(self).wf(),
            final(self).parents() == old(self).parents().update(v as int, p),
            final(self).values() == old(self).values(),
    {
        let mut siblings: Vec<usize> = Vec::new();
        std::mem::swap(&mut siblings, &mut self.children[p as usize]);
        let ghost before = siblings@;
        assert(before == old(self).children@[p as int]@);
        siblings.push(v);
        self.children.set(p, siblings);
        self.parent.set(v, p);
        proof {
            let kids = old(self).children@;
            assert forall|q: int, j: int|
                0 <= q < self.children@.len() && 0 <= j < self.children@[q]@.len() implies {
                &&& (#[trigger] self.children@[q]@[j]) < self.parent@.len()
                &&& self.parent@[self.children@[q]@[j] as int] == q
            } by {
                if j < kids[q]@.len() {
                    assert(self.children@[q]@[j] == kids[q]@[j]);
                    assert(old(self).parent@[kids[q]@[j] as int] == q);
                }
            }
            assert forall|q: int, j: int, k: int|
                0 <= q < self.children@.len() && 0 <= j < k < self.children@[q]@.len()
                implies #[trigger] self.children@[q]@[j] != #[trigger] self.children@[q]@[k] by {
                assert(self.children@[q]@[j] == kids[q]@[j]);
                if k < kids[q]@.len() {
                    assert(self.children@[q]@[k] == kids[q]@[k]);
                } else {
                    assert(old(self).parent@[kids[q]@[j] as int] == q);
                }
            }
            assert forall|c: int| 0 <= c < self.parent@.len() && (#[trigger] self.parent@[c])
                < self.parent@.len() implies self.children@[self.parent@[c] as int]@.contains(
                c as usize,
            ) by {
                if c == v {
                    assert(self.children@[p as int]@[before.len() as int] == v);
                } else {
                    let q = old(self).parent@[c] as int;
                    assert(kids[q]@.contains(c as usize));
                    let j = kids[q]@.index_of(c as usize);
                    assert(self.children@[q]@[j] == c as usize);
                }
            }
        }
    }

    pub fn set(&mut self, v: usize, x: i128)
        requires
            old(self).wf(),
            v < old(self).len(),
        ensures
            final(self).wf(),
            final(self).parents() == old(self).parents(),
            final(self).values() == old(self).values().update(v as int, x),
    {
        self.value.set(v, x);
    }

    pub fn get(&self, v: usize) -> (x: i128)
        requires
            self.wf(),
            v < self.len(),
        ensures
            x == self.values()[v as int],
    {
        self.value[v]
    }

    /// Adds `delta` to every node on the path from `v` to its root.
    pub fn path_apply(&mut self, v: usize, delta: i128)
        requires
            old(self).wf(),
            v < old(self).len(),
            forall|x: int|
                0 <= x < old(self).len() && #[trigger] ancestor(old(self).parents(), x, v as int)
                    ==> i128::MIN <= old(self).values()[x] + delta <= i128::MAX,
        ensures
            final(self).wf(),
            final(self).parents() == old(self).parents(),
            final(self).values().len() == old(self).values().len(),
            forall|x: int|
                0 <= x < old(self).len() ==> (#[trigger] final(self).values()[x])
                    == old(self).values()[x] + (if ancestor(old(self).parents(), x, v as int) {
                    delta as int
                } else {
                    0
                }),
    {
        let ghost par = self.parent@;
        let ghost before = self.value@;
        let mut u: usize = v;
        let mut going: bool = true;
        while going
            invariant
                self.wf(),
                self.parent@ == par,
                par == old(self).parent@,
                before == old(self).value@,
                before.len() == par.len(),
                self.value@.len() == before.len(),
                v < par.len(),
                going ==> u < par.len() && ancestor(par, u as int, v as int),
                forall|x: int|
                    0 <= x < par.len() && #[trigger] ancestor(par, x, v as int) ==> i128::MIN
                        <= before[x] + delta <= i128::MAX,
                forall|x: int|
                    0 <= x < par.len() ==> (#[trigger] self.value@[x]) == before[x] + (if ancestor(
                        par,
                        x,
                        v as int,
                    ) && !(going && ancestor(par, x, u as int)) {
                        delta as int
                    } else {
                        0
                    }),
            decreases (if going { u + 1 } else { 0 }),
        {
            let ghost here = self.value@;
            assert(ancestor(par, u as int, u as int));
            assert(here[u as int] == before[u as int]);
            let x: i128 = self.value[u];
            self.value.set(u, x + delta);
            let p: usize = self.parent[u];
            proof {
                assert forall|y: int| 0 <= y < par.len() implies (#[trigger] self.value@[y])
                    == before[y] + (if ancestor(par, y, v as int) && !(p != NULL && ancestor(
                    par,
                    y,
                    p as int,
                )) {
                    delta as int
                } else {
                    0
                }) by {
                    assert(here[y] == before[y] + (if ancestor(par, y, v as int) && !ancestor(
                        par,
                        y,
                        u as int,
                    ) {
                        delta as int
                    } else {
                        0
                    }));
                    assert(par[u as int] < u || par[u as int] == NULL);
                    if y == u && p != NULL {
                        if ancestor(par, y, p as int) {
                            lemma_ancestor_earlier(par, y, p as int);
                        }
                    }
                    if ancestor(par, y, u as int) {
                        lemma_ancestor_transitive(par, y, u as int, v as int);
                    }
                }
            }
            if p == NULL {
                going = false;
            } else {
                proof {
                    assert(ancestor(par, p as int, u as int)) by {
                        assert(ancestor(par, p as int, p as int));
                    }
                    lemma_ancestor_transitive(par, p as int, u as int, v as int);
                }
                u = p;
            }
        }
    }

    /// Adds `delta` to every child of a node on the path from `v` to its root.
    pub fn catepillar_apply(&mut self, v: usize, delta: i128)
        requires
            old(self).wf(),
            v < old(self).len(),
            forall|x: int|
                0 <= x < old(self).len() && #[trigger] Self::below_path(
                    old(self).parents(),
                    x,
                    v as int,
                ) ==> i128::MIN <= old(self).values()[x] + delta <= i128::MAX,
        ensures
            final(self).wf(),
            final(self).parents() == old(self).parents(),
            final(self).values().len() == old(self).values().len(),
            forall|x: int|
                0 <= x < old(self).len() ==> (#[trigger] final(self).values()[x])
                    == old(self).values()[x] + (if Self::below_path(
                    old(self).parents(),
                    x,
                    v as int,
                ) {
                    delta as int
                } else {
                    0
                }),
    {
        let ghost par = self.parent@;
        let ghost before = self.value@;
        let mut u: usize = v;
        let mut going: bool = true;
        while going
            invariant
                self.wf(),
                self.parent@ == par,
                par == old(self).parent@,
                before == old(self).value@,
                before.len() == par.len(),
                self.value@.len() == before.len(),
                v < par.len(),
                going ==> u < par.len() && ancestor(par, u as int, v as int),
                forall|x: int|
                    0 <= x < par.len() && #[trigger] Self::below_path(par, x, v as int)
                        ==> i128::MIN <= before[x] + delta <= i128::MAX,
                forall|x: int|
                    0 <= x < par.len() ==> (#[trigger] self.value@[x]) == before[x] + (if Self::below_path(
                        par,
                        x,
                        v as int,
                    ) && !(going && Self::below_path(par, x, u as int)) {
                        delta as int
                    } else {
                        0
                    }),
            decreases (if going { u + 1 } else { 0 }),
        {
            let ghost here = self.value@;
            let n: usize = self.children[u].len();
            let ghost kids = self.children@[u as int]@;
            let mut j: usize = 0;
            while j < n
                invariant
                    self.wf(),
                    self.parent@ == par,
                    u < par.len(),
                    here.len() == par.len(),
                    before.len() == par.len(),
                    self.value@.len() == before.len(),
                    kids == self.children@[u as int]@,
                    n == kids.len(),
                    j <= n,
                    v < par.len(),
                    ancestor(par, u as int, v as int),
                    forall|x: int|
                        0 <= x < par.len() && #[trigger] Self::below_path(par, x, v as int)
                            ==> i128::MIN <= before[x] + delta <= i128::MAX,
                    forall|x: int|
                        0 <= x < par.len() && par[x] == u ==> #[trigger] here[x] == before[x],
                    forall|x: int|
                        0 <= x < par.len() ==> (#[trigger] self.value@[x]) == here[x] + (if kids.take(
                            j as int,
                        ).contains(x as usize) {
                            delta as int
                        } else {
                            0
                        }),
                decreases n - j,
            {
                let c: usize = self.children[u][j];
                assert(c == kids[j as int]);
                assert(c < par.len() && par[c as int] == u);
                assert(Self::below_path(par, c as int, v as int));
                assert(!kids.take(j as int).contains(c)) by {
                    if kids.take(j as int).contains(c) {
                        let i = kids.take(j as int).index_of(c);
                        assert(kids[i] == kids[j as int]);
                    }
                }
                let ghost inner = self.value@;
                assert(inner[c as int] == here[c as int]);
                assert(here[c as int] == before[c as int]);
                let x: i128 = self.value[c];
                self.value.set(c, x + delta);
                assert(kids.take(j + 1) == kids.take(j as int).push(c));
                assert forall|y: int| 0 <= y < par.len() implies (#[trigger] self.value@[y])
                    == here[y] + (if kids.take(j + 1).contains(y as usize) {
                    delta as int
                } else {
                    0
                }) by {
                    assert(inner[y] == here[y] + (if kids.take(j as int).contains(y as usize) {
                        delta as int
                    } else {
                        0
                    }));
                    if kids.take(j as int).contains(y as usize) {
                        let i = kids.take(j as int).index_of(y as usize);
                        assert(kids.take(j + 1)[i] == y as usize);
                    }
                    if y == c {
                        assert(kids.take(j + 1)[j as int] == y as usize);
                    } else if kids.take(j + 1).contains(y as usize) {
                        let i = kids.take(j + 1).index_of(y as usize);
                        assert(kids.take(j as int)[i] == y as usize);
                    }
                }
                j = j + 1;
            }
            assert(kids.take(n as int) == kids);
            let p: usize = self.parent[u];
            proof {
                assert forall|y: int| 0 <= y < par.len() implies (#[trigger] self.value@[y])
                    == before[y] + (if Self::below_path(par, y, v as int) && !(p != NULL
                    && Self::below_path(par, y, p as int)) {
                    delta as int
                } else {
                    0
                }) by {
                    assert(here[y] == before[y] + (if Self::below_path(par, y, v as int)
                        && !Self::below_path(par, y, u as int) {
                        delta as int
                    } else {
                        0
                    }));
                    assert(par[u as int] < u || par[u as int] == NULL);
                    assert(kids.contains(y as usize) == (par[y] == u)) by {
                        if kids.contains(y as usize) {
                            let i = kids.index_of(y as usize);
                            assert(kids[i] == y as usize);
                        }
                    }
                    if par[y] == u && p != NULL && ancestor(par, u as int, p as int) {
                        lemma_ancestor_earlier(par, u as int, p as int);
                    }
                    if Self::below_path(par, y, u as int) {
                        lemma_ancestor_transitive(par, par[y] as int, u as int, v as int);
                    }
                }
            }
            if p == NULL {
                going = false;
            } else {
                proof {
                    assert(ancestor(par, p as int, u as int)) by {
                        assert(ancestor(par, p as int, p as int));
                    }
                    lemma_ancestor_transitive(par, p as int, u as int, v as int);
                }
                u = p;
            }
        }
    }

    /// The smallest value on the path from `v` up to, but without, its proper
    /// ancestor `top`.
    pub fn path_aggregate(&self, v: usize, top: usize) -> (m: i128)
        requires
            self.wf(),
            v < self.len(),
            top < self.len(),
            top != v,
            ancestor(self.parents(), top as int, v as int),
        ensures
            is_path_minimum(self.parents(), self.values(), top as int, v as int, m as int),
    {
        let ghost par = self.parent@;
        let mut u: usize = v;
        let mut m: i128 = self.value[v];
        let mut p: usize = self.parent[v];
        assert(ancestor(par, v as int, v as int));
        proof {
            if ancestor(par, v as int, top as int) {
                lemma_ancestor_earlier(par, v as int, top as int);
                lemma_ancestor_earlier(par, top as int, v as int);
            }
        }
        while p != top
            invariant
                self.wf(),
                par == self.parent@,
                v < par.len(),
                u < par.len(),
                top < par.len(),
                u != top,
                ancestor(par, top as int, u as int),
                p == par[u as int],
                ancestor(par, u as int, v as int),
                exists|x: int|
                    0 <= x < par.len() && #[trigger] ancestor(par, x, v as int) && !ancestor(
                        par,
                        x,
                        top as int,
                    ) && self.value@[x] == m,
                forall|x: int|
                    0 <= x < par.len() && #[trigger] ancestor(par, x, v as int) && !(par[u as int]
                        != NULL && ancestor(par, x, par[u as int] as int)) ==> m <= self.value@[x],
            decreases u,
        {
            assert(par[u as int] < u);
            assert(ancestor(par, top as int, p as int));
            assert(ancestor(par, p as int, u as int)) by {
                assert(ancestor(par, p as int, p as int));
            }
            proof {
                lemma_ancestor_transitive(par, p as int, u as int, v as int);
                if ancestor(par, p as int, top as int) {
                    lemma_ancestor_earlier(par, p as int, top as int);
                    lemma_ancestor_earlier(par, top as int, p as int);
                }
            }
            u = p;
            let x: i128 = self.value[u];
            if x < m {
                m = x;
            }
            p = self.parent[u];
        }
        m
    }

    /// The ancestor of `v` that is `at` steps from the root, or `NULL`.
    pub fn ancestor_at(&self, v: usize, at: usize) -> (a: usize)
        requires
            self.wf(),
            v < self.len(),
        ensures
            at <= depth(self.parents(), v as int) ==> a == ancestor_at_depth(
                self.parents(),
                v as int,
                at as nat,
            ) && a < self.len(),
            at > depth(self.parents(), v as int) ==> a == NULL,
    {
        let ghost par = self.parent@;
        let d: usize = self.depth_of(v);
        if at > d {
            return NULL;
        }
        let mut u: usize = v;
        let mut left: usize = d;
        while left > at
            invariant
                self.wf(),
                par == self.parent@,
                u < par.len(),
                at <= left,
                left == depth(par, u as int),
                ancestor_at_depth(par, u as int, at as nat) == ancestor_at_depth(
                    par,
                    v as int,
                    at as nat,
                ),
            decreases left,
        {
            assert(par[u as int] < u);
            u = self.parent[u];
            left = left - 1;
        }
        u
    }

    /// How many steps lead from `v` to its root.
    fn depth_of(&self, v: usize) -> (d: usize)
        requires
            self.wf(),
            v < self.len(),
        ensures
            d == depth(self.parents(), v as int),
    {
        let ghost par = self.parent@;
        let mut u: usize = v;
        let mut d: usize = 0;
        let mut p: usize = self.parent[v];
        while p != NULL
            invariant
                self.wf(),
                par == self.parent@,
                v < par.len(),
                u < par.len(),
                p == par[u as int],
                d + u <= v,
                d + depth(par, u as int) == depth(par, v as int),
            decreases u,
        {
            assert(par[u as int] < u);
            u = p;
            d = d + 1;
            p = self.parent[u];
        }
        d
    }

    /// The deepest node that lies on both paths to the root, or `NULL` where
    /// the two nodes hang below different roots.
    pub fn lca(&self, v: usize, w: usize) -> (a: usize)
        requires
            self.wf(),
            v < self.len(),
            w < self.len(),
        ensures
            a != NULL ==> a < self.len() && is_lowest_common_ancestor(
                self.parents(),
                v as int,
                w as int,
                a as int,
            ),
            a == NULL ==> forall|x: int|
                !(#[trigger] ancestor(self.parents(), x, v as int) && ancestor(
                    self.parents(),
                    x,
                    w as int,
                )),
    {
        let ghost par = self.parent@;
        let mut x: usize = v;
        let mut y: usize = w;
        while x != y
            invariant
                self.wf(),
                par == self.parent@,
                v < par.len(),
                w < par.len(),
                x < par.len(),
                y < par.len(),
                ancestor(par, x as int, v as int),
                ancestor(par, y as int, w as int),
                forall|z: int|
                    #[trigger] ancestor(par, z, v as int) && ancestor(par, z, w as int) ==> ancestor(
                        par,
                        z,
                        x as int,
                    ) && ancestor(par, z, y as int),
            decreases x + y,
        {
            if x < y {
                let p: usize = self.parent[y];
                assert(par[y as int] < y || par[y as int] == NULL);
                proof {
                    assert forall|z: int|
                        #[trigger] ancestor(par, z, v as int) && ancestor(par, z, w as int) implies
                        p != NULL && ancestor(par, z, p as int) by {
                        lemma_ancestor_earlier(par, z, x as int);
                    }
                }
                if p == NULL {
                    return NULL;
                }
                proof {
                    assert(ancestor(par, p as int, y as int)) by {
                        assert(ancestor(par, p as int, p as int));
                    }
                    lemma_ancestor_transitive(par, p as int, y as int, w as int);
                }
                y = p;
            } else {
                let p: usize = self.parent[x];
                assert(par[x as int] < x || par[x as int] == NULL);
                proof {
                    assert forall|z: int|
                        #[trigger] ancestor(par, z, v as int) && ancestor(par, z, w as int) implies
                        p != NULL && ancestor(par, z, p as int) by {
                        lemma_ancestor_earlier(par, z, y as int);
                    }
                }
                if p == NULL {
                    return NULL;
                }
                proof {
                    assert(ancestor(par, p as int, x as int)) by {
                        assert(ancestor(par, p as int, p as int));
                    }
                    lemma_ancestor_transitive(par, p as int, x as int, v as int);
                }
                x = p;
            }
        }
        x
    }
}

/// `m` is the smallest of the values on the path from `v` up to, but without,
/// `top`.
pub open spec fn is_path_minimum(
    parents: Seq<usize>,
    values: Seq<i128>,
    top: int,
    v: int,
    m: int,
) -> bool {
    &&& exists|x: int|
        0 <= x < parents.len() && #[trigger] ancestor(parents, x, v) && !ancestor(parents, x, top)
            && values[x] == m
    &&& forall|x: int|
        0 <= x < parents.len() && #[trigger] ancestor(parents, x, v) && !ancestor(parents, x, top)
            ==> m <= values[x]
}

/// `a` is an ancestor of both nodes, and every common ancestor is one of `a`.
pub open spec fn is_lowest_common_ancestor(parents: Seq<usize>, v: int, w: int, a: int) -> bool {
    &&& ancestor(parents, a, v)
    &&& ancestor(parents, a, w)
    &&& forall|z: int|
        #[trigger] ancestor(parents, z, v) && ancestor(parents, z, w) ==> ancestor(parents, z, a)
}

} // verus!
