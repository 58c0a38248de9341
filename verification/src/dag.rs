//! The block graph as a mathematical object.
//!
//! Every block names one parent and any number of referees, all of them
//! inserted before it, so an edge always leads to a smaller index. What a
//! block "sees" is everything it reaches along such edges.

use vstd::prelude::*;

verus! {

/// The index that stands for "no block".
pub const NULL: usize = usize::MAX;

/// Parents and referees of every block, by index.
#[verifier::ext_equal]
pub struct Dag {
    pub parent: Seq<usize>,
    pub referees: Seq<Seq<usize>>,
}

/// `a` is `d` or lies on the way from `d` to the root along parents.
pub open spec fn ancestor(parent: Seq<usize>, a: int, d: int) -> bool
    decreases d,
{
    a == d || (0 <= d < parent.len() && parent[d] < d && ancestor(parent, a, parent[d] as int))
}

/// How many steps along parents lead from `d` to its root.
pub open spec fn depth(parent: Seq<usize>, d: int) -> nat
    decreases d,
{
    if 0 <= d < parent.len() && parent[d] < d {
        depth(parent, parent[d] as int) + 1
    } else {
        0
    }
}

/// The ancestor of `d` that is `k` steps from the root; `d` itself where
/// there is none.
pub open spec fn ancestor_at_depth(parent: Seq<usize>, d: int, k: nat) -> int
    decreases d,
{
    if depth(parent, d) > k && 0 <= d < parent.len() && parent[d] < d {
        ancestor_at_depth(parent, parent[d] as int, k)
    } else {
        d
    }
}

/// Every parent is an earlier index or absent.
pub open spec fn parents_earlier(parent: Seq<usize>) -> bool {
    forall|i: int| 0 <= i < parent.len() ==> (#[trigger] parent[i]) < i || parent[i] == NULL
}

/// The first block is the only one without a parent.
pub open spec fn rooted(parent: Seq<usize>) -> bool {
    &&& parent.len() > 0
    &&& parent.len() < NULL
    &&& parent[0] == NULL
    &&& forall|i: int| 0 < i < parent.len() ==> (#[trigger] parent[i]) < i
}

impl Dag {
    pub open spec fn len(self) -> nat {
        self.parent.len()
    }

    /// `b` is the parent or a referee of `a`.
    pub open spec fn edge(self, a: int, b: int) -> bool {
        &&& 0 <= b < a < self.len()
        &&& (self.parent[a] == b || self.referees[a].contains(b as usize))
    }

    /// `b` is `a` or lies in the past of `a`.
    pub open spec fn reaches(self, a: int, b: int) -> bool
        decreases a,
    {
        a == b || exists|c: int| #[trigger] self.edge(a, c) && 0 <= c < a && self.reaches(c, b)
    }

    /// One block without a parent, and every other block refers to earlier
    /// blocks only.
    pub open spec fn well_formed(self) -> bool {
        &&& rooted(self.parent)
        &&& self.referees.len() == self.parent.len()
        &&& self.referees[0].len() == 0
        &&& forall|a: int, j: int|
            0 <= a < self.len() && 0 <= j < self.referees[a].len()
                ==> (#[trigger] self.referees[a][j]) < a
    }

    /// The two blocks see nothing of each other.
    pub open spec fn unrelated(self, a: int, b: int) -> bool {
        !self.reaches(a, b) && !self.reaches(b, a)
    }
}

pub proof fn lemma_ancestor_earlier(parent: Seq<usize>, a: int, d: int)
    requires
        ancestor(parent, a, d),
        0 <= d,
    ensures
        0 <= a <= d,
    decreases d,
{
    if a != d {
        lemma_ancestor_earlier(parent, a, parent[d] as int);
    }
}

pub proof fn lemma_ancestor_transitive(parent: Seq<usize>, a: int, b: int, c: int)
    requires
        ancestor(parent, a, b),
        ancestor(parent, b, c),
    ensures
        ancestor(parent, a, c),
    decreases c,
{
    if b != c {
        lemma_ancestor_transitive(parent, a, b, parent[c] as int);
    }
}

pub proof fn lemma_ancestor_depth(parent: Seq<usize>, a: int, d: int)
    requires
        ancestor(parent, a, d),
        0 <= d,
    ensures
        depth(parent, a) <= depth(parent, d),
        a != d ==> depth(parent, a) < depth(parent, d),
        depth(parent, a) == depth(parent, d) ==> a == d,
    decreases d,
{
    if a != d {
        lemma_ancestor_depth(parent, a, parent[d] as int);
    }
}

/// The ancestors of a block form a chain: the shallower of two is an ancestor
/// of the deeper.
pub proof fn lemma_ancestors_chain(parent: Seq<usize>, a: int, b: int, d: int)
    requires
        ancestor(parent, a, d),
        ancestor(parent, b, d),
        0 <= d,
        depth(parent, a) <= depth(parent, b),
    ensures
        ancestor(parent, a, b),
    decreases d,
{
    if b == d {
    } else if a == d {
        lemma_ancestor_depth(parent, b, d);
    } else {
        lemma_ancestors_chain(parent, a, b, parent[d] as int);
    }
}

pub proof fn lemma_ancestor_at_depth(parent: Seq<usize>, d: int, k: nat)
    requires
        0 <= d,
        k <= depth(parent, d),
    ensures
        ancestor(parent, ancestor_at_depth(parent, d, k), d),
        depth(parent, ancestor_at_depth(parent, d, k)) == k,
        0 <= ancestor_at_depth(parent, d, k) <= d,
    decreases d,
{
    if depth(parent, d) > k {
        lemma_ancestor_at_depth(parent, parent[d] as int, k);
    }
}

/// An ancestor is the one that stands at its own depth.
pub proof fn lemma_ancestor_unique(parent: Seq<usize>, a: int, d: int)
    requires
        ancestor(parent, a, d),
        0 <= d,
    ensures
        ancestor_at_depth(parent, d, depth(parent, a)) == a,
    decreases d,
{
    lemma_ancestor_depth(parent, a, d);
    if a != d {
        lemma_ancestor_unique(parent, a, parent[d] as int);
    }
}

/// Parents up to `d` decide what the ancestors of `d` are.
pub proof fn lemma_ancestor_prefix(p: Seq<usize>, q: Seq<usize>, a: int, d: int)
    requires
        0 <= d < p.len(),
        d < q.len(),
        forall|i: int| 0 <= i <= d ==> p[i] == q[i],
    ensures
        ancestor(p, a, d) == ancestor(q, a, d),
        depth(p, d) == depth(q, d),
    decreases d,
{
    if p[d] < d {
        lemma_ancestor_prefix(p, q, a, p[d] as int);
    }
}

pub proof fn lemma_ancestor_at_depth_prefix(p: Seq<usize>, q: Seq<usize>, d: int, k: nat)
    requires
        0 <= d < p.len(),
        d < q.len(),
        forall|i: int| 0 <= i <= d ==> p[i] == q[i],
    ensures
        ancestor_at_depth(p, d, k) == ancestor_at_depth(q, d, k),
    decreases d,
{
    lemma_ancestor_prefix(p, q, d, d);
    if p[d] < d {
        lemma_ancestor_at_depth_prefix(p, q, p[d] as int, k);
    }
}

pub proof fn lemma_root_is_ancestor(parent: Seq<usize>, d: int)
    requires
        rooted(parent),
        0 <= d < parent.len(),
    ensures
        ancestor(parent, 0, d),
        depth(parent, 0) == 0,
        d > 0 ==> depth(parent, d) > 0,
    decreases d,
{
    if d > 0 {
        assert(parent[d] < d);
        lemma_root_is_ancestor(parent, parent[d] as int);
    }
}

pub proof fn lemma_reaches_earlier(g: Dag, a: int, b: int)
    requires
        g.reaches(a, b),
        0 <= a,
    ensures
        0 <= b <= a,
    decreases a,
{
    if a != b {
        let c = choose|c: int| #[trigger] g.edge(a, c) && 0 <= c < a && g.reaches(c, b);
        lemma_reaches_earlier(g, c, b);
    }
}

pub proof fn lemma_reaches_transitive(g: Dag, a: int, b: int, c: int)
    requires
        g.reaches(a, b),
        g.reaches(b, c),
    ensures
        g.reaches(a, c),
    decreases a,
{
    if a != b {
        let x = choose|x: int| #[trigger] g.edge(a, x) && 0 <= x < a && g.reaches(x, b);
        lemma_reaches_transitive(g, x, b, c);
        assert(g.edge(a, x) && 0 <= x < a && g.reaches(x, c));
    }
}

pub proof fn lemma_reaches_step(g: Dag, a: int, b: int, c: int)
    requires
        g.edge(a, b),
        g.reaches(b, c),
    ensures
        g.reaches(a, c),
{
}

pub proof fn lemma_ancestor_is_reached(g: Dag, a: int, d: int)
    requires
        ancestor(g.parent, a, d),
        0 <= d,
    ensures
        g.reaches(d, a),
    decreases d,
{
    if a != d {
        lemma_ancestor_is_reached(g, a, g.parent[d] as int);
        assert(g.edge(d, g.parent[d] as int));
    }
}

/// Edges out of the blocks up to `a` decide what `a` reaches.
pub proof fn lemma_reaches_prefix(g: Dag, h: Dag, a: int, b: int)
    requires
        0 <= a < g.len(),
        a < h.len(),
        forall|i: int| 0 <= i <= a ==> g.parent[i] == h.parent[i],
        forall|i: int| 0 <= i <= a ==> g.referees[i] == h.referees[i],
    ensures
        g.reaches(a, b) == h.reaches(a, b),
    decreases a,
{
    if g.reaches(a, b) && a != b {
        let c = choose|c: int| #[trigger] g.edge(a, c) && 0 <= c < a && g.reaches(c, b);
        lemma_reaches_prefix(g, h, c, b);
        assert(h.edge(a, c) && 0 <= c < a && h.reaches(c, b));
    }
    if h.reaches(a, b) && a != b {
        let c = choose|c: int| #[trigger] h.edge(a, c) && 0 <= c < a && h.reaches(c, b);
        lemma_reaches_prefix(g, h, c, b);
        assert(g.edge(a, c) && 0 <= c < a && g.reaches(c, b));
    }
}

pub proof fn lemma_all_reach_root(g: Dag, a: int)
    requires
        g.well_formed(),
        0 <= a < g.len(),
    ensures
        g.reaches(a, 0),
{
    lemma_root_is_ancestor(g.parent, a);
    lemma_ancestor_is_reached(g, 0, a);
}

/// Two blocks that reach each other are the same block.
pub proof fn lemma_reaches_antisymmetric(g: Dag, a: int, b: int)
    requires
        g.reaches(a, b),
        g.reaches(b, a),
        0 <= a,
        0 <= b,
    ensures
        a == b,
{
    lemma_reaches_earlier(g, a, b);
    lemma_reaches_earlier(g, b, a);
}

/// A set that holds a block's successors with each of its members, and the
/// block itself, holds all that the block reaches.
pub proof fn lemma_closed_set_holds_reached(g: Dag, s: Set<int>, a: int, b: int)
    requires
        s.contains(a),
        g.reaches(a, b),
        forall|x: int, y: int| s.contains(x) && #[trigger] g.edge(x, y) ==> s.contains(y),
    ensures
        s.contains(b),
    decreases a,
{
    if a != b {
        let c = choose|c: int| #[trigger] g.edge(a, c) && 0 <= c < a && g.reaches(c, b);
        lemma_closed_set_holds_reached(g, s, c, b);
    }
}

} // verus!
