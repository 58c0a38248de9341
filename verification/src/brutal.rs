//! The same rules by walking over the whole graph, for barriers that are too
//! large to take out of the trees.

use vstd::prelude::*;
use crate::adaptive::{adaptivity_by, diluted_at, some_on_path, unstable_at};
use crate::arena::ConsensusGraphNode;
use crate::barrier::sum_below;
use crate::bits::BlockSet;
use crate::config::{ConsensusInnerConfig, ERA_EPOCH_COUNT};
use crate::dag::{ancestor, depth, NULL};
#[allow(unused_imports)]
use crate::dag::{lemma_ancestor_at_depth, lemma_ancestor_depth, lemma_ancestor_earlier,
    lemma_ancestor_transitive};
use crate::model::{in_subtree, limits_ok, links_ok, parents_of, past_weights_ok, total_cap,
    tree_weights, trees_ok, weight_cap, weight_limit, weight_of};
#[allow(unused_imports)]
use crate::past::lemma_recorded_bounds;
use crate::removal::{not_below, seen_sum, seen_weight};
use crate::state::ConsensusGraphInner;
#[allow(unused_imports)]
use crate::state::{lemma_masked_weight_bounds, lemma_node, lemma_total_cap_bounds,
    lemma_weight_bounds};
use crate::sums::{masked, sum_to};
#[allow(unused_imports)]
use crate::sums::{lemma_sum_added, lemma_sum_congruent, lemma_sum_single, lemma_sum_zero};
#[allow(unused_imports)]
use crate::trees::lemma_scaled;

verus! {

/// Weights that are seen without a barrier stay below the caps.
pub proof fn lemma_seen_bounds(
    conf: ConsensusInnerConfig,
    nodes: Seq<ConsensusGraphNode>,
    barrier: Set<int>,
    k: nat,
    x: int,
)
    requires
        limits_ok(conf, nodes),
        k <= nodes.len(),
    ensures
        0 <= seen_weight(conf, nodes, barrier, k, x) <= total_cap(conf, nodes) <= weight_limit(),
{
    let par = parents_of(nodes);
    let f = tree_weights(conf, nodes);
    assert forall|i: int| 0 <= i < nodes.len() implies 0 <= #[trigger] f(i) <= weight_cap(conf)(
        nodes[i],
    ) by {
        lemma_weight_bounds(conf, nodes, i);
    }
    lemma_masked_weight_bounds(
        conf,
        nodes,
        |y: int| ancestor(par, x, y) && not_below(par, barrier, y),
        f,
        k,
    );
}

/// Three lists with an entry for every block, none above the cap of all.
pub open spec fn tuple_ok(
    conf: ConsensusInnerConfig,
    nodes: Seq<ConsensusGraphNode>,
    w: Seq<i128>,
    iw: Seq<i128>,
    sw: Seq<i128>,
) -> bool {
    &&& w.len() == nodes.len()
    &&& iw.len() == nodes.len()
    &&& sw.len() == nodes.len()
    &&& forall|x: int| 0 <= x < w.len() ==> 0 <= #[trigger] w[x] <= total_cap(conf, nodes)
    &&& forall|x: int| 0 <= x < iw.len() ==> 0 <= #[trigger] iw[x] <= total_cap(conf, nodes)
    &&& forall|x: int| 0 <= x < sw.len() ==> 0 <= #[trigger] sw[x] <= total_cap(conf, nodes)
}

/// The entries of a list as a function.
pub open spec fn table(w: Seq<i128>) -> spec_fn(int) -> int {
    |x: int| w[x] as int
}

/// Stability and adaptivity of a child of `parent`, from lists of the subtree
/// weights of all blocks: of all, of all with the partially invalid ones, and of
/// the stable ones.
pub open spec fn adaptivity_brutal(
    conf: ConsensusInnerConfig,
    nodes: Seq<ConsensusGraphNode>,
    w: Seq<i128>,
    iw: Seq<i128>,
    sw: Seq<i128>,
    parent: int,
    difficulty: int,
) -> (bool, bool) {
    adaptivity_by(conf, nodes, table(w), table(iw), table(sw), parent, difficulty)
}

/// The sum below `x` is the own term of `x` and the sums below its children.
proof fn lemma_sum_below_children(
    par: Seq<usize>,
    f: spec_fn(int) -> int,
    n: nat,
    k: nat,
    x: int,
)
    requires
        par.len() == n,
        k <= n,
        0 <= x < n,
        forall|i: int| 0 < i < n ==> (#[trigger] par[i]) < i,
        par[0] >= n,
    ensures
        sum_below(par, f, k, x) == (if x < k {
            f(x)
        } else {
            0
        }) + sum_to(masked(|c: int| par[c] == x, |c: int| sum_below(par, f, k, c)), n),
    decreases k,
{
    let is_child = |c: int| par[c] == x;
    let t = |c: int| sum_below(par, f, k, c);
    if k == 0 {
        assert forall|c: int| 0 <= c < n implies #[trigger] masked(is_child, t)(c) == 0 by {}
        lemma_sum_zero(masked(is_child, t), n);
    } else {
        let j = (k - 1) as nat;
        let y = j as int;
        lemma_sum_below_children(par, f, n, j, x);
        let s = |c: int| sum_below(par, f, j, c);
        assert forall|c: int| #[trigger] sum_below(par, f, k, c) == sum_below(par, f, j, c) + (
        if ancestor(par, c, y) {
            f(y)
        } else {
            0
        }) by {
            let m = masked(in_subtree(par, c), f);
            assert(sum_to(m, k) == sum_to(m, j) + m(y));
        }
        assert(sum_below(par, f, k, x) == sum_below(par, f, j, x) + (if ancestor(par, x, y) {
            f(y)
        } else {
            0
        }));
        let g = |c: int|
            if par[c] == x && ancestor(par, c, y) {
                f(y)
            } else {
                0
            };
        assert forall|c: int| 0 <= c < n implies #[trigger] masked(is_child, t)(c) == masked(
            is_child,
            s,
        )(c) + g(c) by {
            assert(sum_below(par, f, k, c) == sum_below(par, f, j, c) + (if ancestor(par, c, y) {
                f(y)
            } else {
                0
            }));
        }
        lemma_sum_added(masked(is_child, s), g, masked(is_child, t), n);
        if ancestor(par, x, y) && x != y {
            let c = lemma_child_towards(par, x, y);
            assert forall|d: int| 0 <= d < n && d != c implies #[trigger] g(d) == 0 by {
                if par[d] == x && ancestor(par, d, y) {
                    crate::barrier::lemma_comparable(par, c, d, y);
                    if ancestor(par, c, d) {
                        lemma_sibling(par, x, c, d);
                    } else {
                        lemma_sibling(par, x, d, c);
                    }
                }
            }
            lemma_sum_single(g, n, c);
        } else {
            assert forall|d: int| 0 <= d < n implies #[trigger] g(d) == 0 by {
                if par[d] == x && ancestor(par, d, y) {
                    lemma_ancestor_earlier(par, d, y);
                    assert(d > 0);
                    assert(ancestor(par, x, x));
                    assert(ancestor(par, x, d));
                    lemma_ancestor_transitive(par, x, d, y);
                }
            }
            lemma_sum_zero(g, n);
        }
    }
}

/// The children of `x` from index `i` on.
spec fn later_children(par: Seq<usize>, i: int, x: int) -> spec_fn(int) -> bool {
    |c: int| c >= i && par[c] == x
}

/// The child of `x` on the way to a proper descendant.
proof fn lemma_child_towards(par: Seq<usize>, x: int, y: int) -> (c: int)
    requires
        ancestor(par, x, y),
        x != y,
        0 <= x,
        0 <= y < par.len(),
    ensures
        0 <= c < par.len(),
        par[c] == x,
        x < c,
        ancestor(par, c, y),
    decreases y,
{
    if par[y] == x {
        assert(ancestor(par, y, y));
        y
    } else {
        let c = lemma_child_towards(par, x, par[y] as int);
        c
    }
}

/// Two children of `x` are not below each other.
proof fn lemma_sibling(par: Seq<usize>, x: int, c: int, d: int)
    requires
        ancestor(par, c, d),
        0 <= c < par.len(),
        0 <= d < par.len(),
        par[c] == x,
        par[d] == x,
        0 <= x < c,
    ensures
        c == d,
{
    if c != d {
        assert(ancestor(par, c, x));
        lemma_ancestor_earlier(par, c, x);
    }
}

impl ConsensusGraphInner {
    /// For every block the sum of the own values of the blocks in its subtree.
    fn subtree_sums(&self, own: &Vec<i128>) -> (sums: Vec<i128>)
        requires
            self.arena.wf(),
            links_ok(self.nodes()),
            limits_ok(self.inner_conf, self.nodes()),
            own@.len() == self.size(),
            forall|x: int|
                0 <= x < own@.len() ==> 0 <= #[trigger] own@[x] <= weight_cap(self.inner_conf)(
                    self.nodes()[x],
                ),
        ensures
            sums@.len() == self.size(),
            forall|x: int|
                0 <= x < self.size() ==> #[trigger] sums@[x] == sum_below(
                    self.parents(),
                    |y: int| own@[y] as int,
                    self.size(),
                    x,
                ),
            forall|x: int|
                0 <= x < self.size() ==> 0 <= #[trigger] sums@[x] <= total_cap(
                    self.inner_conf,
                    self.nodes(),
                ),
    {
        let ghost conf = self.inner_conf;
        let ghost nodes = self.nodes();
        let ghost par = self.parents();
        let ghost n = nodes.len();
        let ghost f = |y: int| own@[y] as int;
        let ghost t = |c: int| sum_below(par, f, n, c);
        let len: usize = self.arena.len();
        proof {
            assert(n > 0 && par.len() == n && par[0] == NULL && n < NULL && forall|i: int|
                0 < i < n ==> (#[trigger] par[i]) < i) by {
                reveal(links_ok);
            }
            assert forall|i: int| 0 <= i < n implies 0 <= #[trigger] f(i) <= weight_cap(conf)(
                nodes[i],
            ) by {
                assert(0 <= own@[i]);
            }
            assert forall|x: int| 0 <= x < n implies 0 <= #[trigger] t(x) <= total_cap(
                conf,
                nodes,
            ) by {
                lemma_masked_weight_bounds(conf, nodes, in_subtree(par, x), f, n);
            }
            lemma_total_cap_bounds(conf, nodes);
        }
        let mut sums: Vec<i128> = Vec::new();
        let mut i: usize = 0;
        while i < len
            invariant
                len == n,
                i <= n,
                sums@.len() == i,
                forall|x: int| 0 <= x < i ==> #[trigger] sums@[x] == 0,
            decreases n - i,
        {
            sums.push(0);
            i = i + 1;
        }
        proof {
            assert forall|x: int| 0 <= x < n implies #[trigger] sums@[x] == sum_to(
                masked(later_children(par, n as int, x), t),
                n,
            ) by {
                let m = masked(later_children(par, n as int, x), t);
                assert forall|c: int| 0 <= c < n implies #[trigger] m(c) == 0 by {}
                lemma_sum_zero(m, n);
            }
        }
        while i > 0
            invariant
                self.arena.wf(),
                conf == self.inner_conf,
                nodes == self.nodes(),
                par == self.parents(),
                n == nodes.len(),
                n == par.len(),
                par[0] == NULL,
                n < NULL,
                forall|j: int| 0 < j < n ==> (#[trigger] par[j]) < j,
                own@.len() == n,
                f == (|y: int| own@[y] as int),
                t == (|c: int| sum_below(par, f, n, c)),
                forall|x: int| 0 <= x < n ==> 0 <= #[trigger] t(x) <= total_cap(conf, nodes),
                forall|x: int| 0 <= x < n ==> 0 <= #[trigger] f(x),
                total_cap(conf, nodes) <= weight_limit(),
                i <= n,
                sums@.len() == n,
                forall|x: int| i <= x < n ==> #[trigger] sums@[x] == t(x),
                forall|x: int|
                    0 <= x < i ==> #[trigger] sums@[x] == sum_to(
                        masked(later_children(par, i as int, x), t),
                        n,
                    ),
            decreases i,
        {
            i = i - 1;
            let ghost x = i as int;
            let ghost before = sums@;
            proof {
                lemma_sum_below_children(par, f, n, n, x);
                let a = masked(later_children(par, x + 1, x), t);
                let b = masked(|c: int| par[c] == x, t);
                assert forall|c: int| 0 <= c < n implies #[trigger] a(c) == b(c) by {
                    if c > 0 && par[c] == x {
                        assert(par[c] < c);
                    }
                }
                lemma_sum_congruent(a, b, n);
                assert(before[x] == sum_to(a, n));
                assert(t(x) == f(x) + before[x]);
                assert(f(x) >= 0);
                assert(0 <= t(x) <= total_cap(conf, nodes));
                crate::sums::lemma_sum_nonnegative(a, n);
            }
            let v: i128 = sums[i] + own[i];
            sums.set(i, v);
            let parent: usize = self.arena.get(i).parent;
            if parent != NULL {
                proof {
                    assert(par[x] == parent);
                    assert(par[x] < x);
                    let p = parent as int;
                    // The children of `p` from `x` on weigh no more than `p`.
                    lemma_sum_below_children(par, f, n, n, p);
                    let a = masked(later_children(par, x + 1, p), t);
                    let b = masked(later_children(par, x, p), t);
                    let all = masked(|c: int| par[c] == p, t);
                    assert forall|c: int| 0 <= c < n && c != x implies #[trigger] a(c) == b(
                        c,
                    ) by {}
                    crate::sums::lemma_sum_changed_once(a, b, n, x);
                    assert forall|c: int| 0 <= c < n implies #[trigger] b(c) <= all(c) by {
                        assert(0 <= t(c));
                    }
                    crate::sums::lemma_sum_ordered(b, all, n);
                    assert forall|c: int| 0 <= c < n implies 0 <= #[trigger] a(c) by {
                        assert(0 <= t(c));
                    }
                    crate::sums::lemma_sum_nonnegative(a, n);
                    assert(sums@[p] == sum_to(a, n));
                    assert(t(p) == f(p) + sum_to(all, n));
                    assert(0 <= f(p));
                    assert(0 <= t(p) <= total_cap(conf, nodes));
                    assert(sums@[p] + v <= total_cap(conf, nodes));
                }
                let w: i128 = sums[parent] + v;
                sums.set(parent, w);
            }
            proof {
                assert forall|y: int| 0 <= y < i implies #[trigger] sums@[y] == sum_to(
                    masked(later_children(par, i as int, y), t),
                    n,
                ) by {
                    let a = masked(later_children(par, x + 1, y), t);
                    let b = masked(later_children(par, x, y), t);
                    assert(before[y] == sum_to(a, n));
                    assert forall|c: int| 0 <= c < n && c != x implies #[trigger] a(c) == b(
                        c,
                    ) by {}
                    crate::sums::lemma_sum_changed_once(a, b, n, x);
                    if parent == y {
                        assert(sums@[y] == before[y] + v);
                    } else {
                        assert(sums@[y] == before[y]);
                    }
                }
            }
        }
        proof {
            assert forall|x: int| 0 <= x < n implies #[trigger] sums@[x] == sum_below(
                par,
                f,
                n,
                x,
            ) by {
                assert(sums@[x] == t(x));
            }
            assert forall|x: int| 0 <= x < n implies 0 <= #[trigger] sums@[x] <= total_cap(
                conf,
                nodes,
            ) by {
                assert(sums@[x] == t(x));
                assert(0 <= t(x) <= total_cap(conf, nodes));
            }
        }
        sums
    }

    /// The subtree weights of all blocks without what is below the barrier and
    /// without block `me`: of all blocks, of all with the partially invalid
    /// ones, and of the stable ones.
    pub fn compute_subtree_weights(&self, me: usize, anticone_barrier: &BlockSet) -> (r: (
        Vec<i128>,
        Vec<i128>,
        Vec<i128>,
    ))
        requires
            self.arena.wf(),
            links_ok(self.nodes()),
            limits_ok(self.inner_conf, self.nodes()),
            0 < me < self.size(),
            anticone_barrier.wf(),
            !anticone_barrier@.contains(0),
        ensures
            tuple_ok(self.inner_conf, self.nodes(), r.0@, r.1@, r.2@),
            forall|x: int|
                0 <= x < self.size() ==> #[trigger] r.0@[x] == seen_sum(
                    self.parents(),
                    anticone_barrier@.insert(me as int),
                    |y: int| weight_of(self.inner_conf, self.nodes()[y]),
                    self.size(),
                    x,
                ),
            forall|x: int|
                0 <= x < self.size() ==> #[trigger] r.1@[x] == seen_sum(
                    self.parents(),
                    anticone_barrier@.insert(me as int),
                    |y: int| weight_of(self.inner_conf, self.nodes()[y]),
                    self.size(),
                    x,
                ),
            forall|x: int|
                0 <= x < self.size() ==> #[trigger] r.2@[x] == seen_sum(
                    self.parents(),
                    anticone_barrier@.insert(me as int),
                    |y: int|
                        if self.nodes()[y].stable {
                            weight_of(self.inner_conf, self.nodes()[y])
                        } else {
                            0
                        },
                    self.size(),
                    x,
                ),
    {
        let ghost conf = self.inner_conf;
        let ghost nodes = self.nodes();
        let ghost par = self.parents();
        let ghost n = nodes.len();
        let ghost gone = anticone_barrier@.insert(me as int);
        let mut alive: Vec<bool> = Vec::new();
        let mut own: Vec<i128> = Vec::new();
        let mut own_inclusive: Vec<i128> = Vec::new();
        let mut own_stable: Vec<i128> = Vec::new();
        let mut i: usize = 0;
        while i < self.arena.len()
            invariant
                self.arena.wf(),
                conf == self.inner_conf,
                nodes == self.nodes(),
                par == self.parents(),
                n == nodes.len(),
                links_ok(nodes),
                limits_ok(conf, nodes),
                0 < me < n,
                anticone_barrier.wf(),
                gone == anticone_barrier@.insert(me as int),
                !gone.contains(0),
                i <= n,
                alive@.len() == i,
                own@.len() == i,
                own_inclusive@.len() == i,
                own_stable@.len() == i,
                forall|y: int| 0 <= y < i ==> #[trigger] alive@[y] == not_below(par, gone, y),
                forall|y: int|
                    0 <= y < i ==> #[trigger] own@[y] == (if not_below(par, gone, y) {
                        weight_of(conf, nodes[y])
                    } else {
                        0
                    }),
                forall|y: int|
                    0 <= y < i ==> #[trigger] own_inclusive@[y] == (if not_below(par, gone, y) {
                        weight_of(conf, nodes[y])
                    } else {
                        0
                    }),
                forall|y: int|
                    0 <= y < i ==> #[trigger] own_stable@[y] == (if not_below(par, gone, y)
                        && nodes[y].stable {
                        weight_of(conf, nodes[y])
                    } else {
                        0
                    }),
            decreases n - i,
        {
            proof {
                lemma_node(nodes, i as int);
                lemma_alive(par, gone, i as int);
            }
            let parent: usize = self.arena.get(i).parent;
            let live: bool = if parent == NULL {
                true
            } else {
                alive[parent] && !anticone_barrier.contains(i) && i != me
            };
            alive.push(live);
            let weight: i128 = self.block_weight(i, false);
            let inclusive: i128 = self.block_weight(i, true);
            if live {
                own.push(weight);
                own_inclusive.push(inclusive);
            } else {
                own.push(0);
                own_inclusive.push(0);
            }
            if live && self.arena.get(i).stable {
                own_stable.push(weight);
            } else {
                own_stable.push(0);
            }
            i = i + 1;
        }
        proof {
            assert forall|x: int| 0 <= x < n implies 0 <= #[trigger] own@[x] <= weight_cap(conf)(
                nodes[x],
            ) by {
                lemma_weight_bounds(conf, nodes, x);
            }
            assert forall|x: int|
                0 <= x < n implies 0 <= #[trigger] own_inclusive@[x] <= weight_cap(conf)(
                nodes[x],
            ) by {
                lemma_weight_bounds(conf, nodes, x);
            }
            assert forall|x: int| 0 <= x < n implies 0 <= #[trigger] own_stable@[x] <= weight_cap(
                conf,
            )(nodes[x]) by {
                lemma_weight_bounds(conf, nodes, x);
            }
        }
        let w: Vec<i128> = self.subtree_sums(&own);
        let iw: Vec<i128> = self.subtree_sums(&own_inclusive);
        let sw: Vec<i128> = self.subtree_sums(&own_stable);
        proof {
            let f = |y: int| weight_of(conf, nodes[y]);
            let fi = |y: int| weight_of(conf, nodes[y]);
            let fs = |y: int|
                if nodes[y].stable {
                    weight_of(conf, nodes[y])
                } else {
                    0
                };
            assert forall|x: int| 0 <= x < n implies #[trigger] w@[x] == seen_sum(
                par,
                gone,
                f,
                n,
                x,
            ) by {
                lemma_own_is_seen(par, gone, |y: int| own@[y] as int, f, n, x);
            }
            assert forall|x: int| 0 <= x < n implies #[trigger] iw@[x] == seen_sum(
                par,
                gone,
                fi,
                n,
                x,
            ) by {
                lemma_own_is_seen(par, gone, |y: int| own_inclusive@[y] as int, fi, n, x);
            }
            assert forall|x: int| 0 <= x < n implies #[trigger] sw@[x] == seen_sum(
                par,
                gone,
                fs,
                n,
                x,
            ) by {
                lemma_own_is_seen(par, gone, |y: int| own_stable@[y] as int, fs, n, x);
            }
        }
        (w, iw, sw)
    }

    /// Whether some ancestor of `from` above the height `until` is unstable.
    fn unstable_on_path(
        &self,
        from: usize,
        until: u64,
        w: &Vec<i128>,
        total: i128,
        beta: i128,
    ) -> (found: bool)
        requires
            self.arena.wf(),
            links_ok(self.nodes()),
            limits_ok(self.inner_conf, self.nodes()),
            past_weights_ok(self.inner_conf, self.nodes(), self.size()),
            from < self.size(),
            until <= depth(self.parents(), from as int),
            w@.len() == self.size(),
            forall|x: int|
                0 <= x < w@.len() ==> 0 <= #[trigger] w@[x] <= total_cap(
                    self.inner_conf,
                    self.nodes(),
                ),
            0 <= total <= total_cap(self.inner_conf, self.nodes()),
        ensures
            found == some_on_path(
                self.parents(),
                from as int,
                until as int,
                |a: int|
                    unstable_at(
                        self.inner_conf,
                        self.nodes(),
                        table(w@),
                        total as int,
                        beta as int,
                        a,
                    ),
            ),
    {
        let ghost conf = self.inner_conf;
        let ghost nodes = self.nodes();
        let ghost par = self.parents();
        let ghost p = |a: int| unstable_at(conf, nodes, table(w@), total as int, beta as int, a);
        let mut at: usize = from;
        proof {
            lemma_node(nodes, from as int);
        }
        while self.arena.get(at).height != until
            invariant
                self.arena.wf(),
                conf == self.inner_conf,
                nodes == self.nodes(),
                par == self.parents(),
                links_ok(nodes),
                limits_ok(conf, nodes),
                past_weights_ok(conf, nodes, nodes.len()),
                from < nodes.len(),
                at <= from,
                ancestor(par, at as int, from as int),
                until <= depth(par, at as int),
                nodes[at as int].height == depth(par, at as int),
                w@.len() == nodes.len(),
                forall|x: int|
                    0 <= x < w@.len() ==> 0 <= #[trigger] w@[x] <= total_cap(conf, nodes),
                0 <= total <= total_cap(conf, nodes),
                p == (|a: int| unstable_at(conf, nodes, table(w@), total as int, beta as int, a)),
                some_on_path(par, from as int, until as int, p) == some_on_path(
                    par,
                    at as int,
                    until as int,
                    p,
                ),
            decreases at,
        {
            proof {
                lemma_node(nodes, at as int);
                let gp = nodes[at as int].parent as int;
                lemma_node(nodes, gp);
                lemma_recorded_bounds(conf, nodes, nodes.len(), gp);
                lemma_weight_bounds(conf, nodes, gp);
                lemma_total_cap_bounds(conf, nodes);
                let num = conf.adaptive_weight_alpha_num as int;
                let den = conf.adaptive_weight_alpha_den as int;
                let e = nodes[gp].past_era_weight as int;
                let v = weight_of(conf, nodes[gp]);
                assert(0 <= w@[at as int]);
                lemma_scaled(conf, nodes, w@[at as int] as int, den);
                lemma_scaled(conf, nodes, total as int, num);
                lemma_scaled(conf, nodes, e, num);
                lemma_scaled(conf, nodes, v, num);
                assert(num * (total - e - v) == num * total - num * e - num * v)
                    by (nonlinear_arith);
                lemma_path_step(par, at as int, until as int, p);
                crate::views::lemma_ancestor_step(par, at as int, from as int);
            }
            let grandparent: usize = self.arena.get(at).parent;
            let since: i128 = total - self.arena.get(grandparent).past_era_weight
                - self.block_weight(grandparent, false);
            if since > beta {
                let a: i128 = w[at];
                if self.inner_conf.adaptive_weight_alpha_den as i128 * a
                    - self.inner_conf.adaptive_weight_alpha_num as i128 * since < 0 {
                    assert(p(at as int));
                    return true;
                }
            }
            assert(!p(at as int));
            at = grandparent;
        }
        proof {
            lemma_path_end(par, at as int, until as int, p);
        }
        false
    }

    /// Whether some ancestor of `from` above the height `until` is diluted.
    fn diluted_on_path(
        &self,
        from: usize,
        until: u64,
        part: &Vec<i128>,
        whole: &Vec<i128>,
        beta: i128,
    ) -> (found: bool)
        requires
            self.arena.wf(),
            links_ok(self.nodes()),
            limits_ok(self.inner_conf, self.nodes()),
            from < self.size(),
            until <= depth(self.parents(), from as int),
            part@.len() == self.size(),
            whole@.len() == self.size(),
            forall|x: int|
                0 <= x < part@.len() ==> 0 <= #[trigger] part@[x] <= total_cap(
                    self.inner_conf,
                    self.nodes(),
                ),
            forall|x: int|
                0 <= x < whole@.len() ==> 0 <= #[trigger] whole@[x] <= total_cap(
                    self.inner_conf,
                    self.nodes(),
                ),
        ensures
            found == some_on_path(
                self.parents(),
                from as int,
                until as int,
                |a: int|
                    diluted_at(
                        self.inner_conf,
                        self.nodes(),
                        table(part@),
                        table(whole@),
                        beta as int,
                        a,
                    ),
            ),
    {
        let ghost conf = self.inner_conf;
        let ghost nodes = self.nodes();
        let ghost par = self.parents();
        let ghost p = |a: int| diluted_at(conf, nodes, table(part@), table(whole@), beta as int, a);
        let mut at: usize = from;
        proof {
            lemma_node(nodes, from as int);
        }
        while self.arena.get(at).height != until
            invariant
                self.arena.wf(),
                conf == self.inner_conf,
                nodes == self.nodes(),
                par == self.parents(),
                links_ok(nodes),
                limits_ok(conf, nodes),
                from < nodes.len(),
                at <= from,
                until <= depth(par, at as int),
                nodes[at as int].height == depth(par, at as int),
                part@.len() == nodes.len(),
                whole@.len() == nodes.len(),
                forall|x: int|
                    0 <= x < part@.len() ==> 0 <= #[trigger] part@[x] <= total_cap(conf, nodes),
                forall|x: int|
                    0 <= x < whole@.len() ==> 0 <= #[trigger] whole@[x] <= total_cap(conf, nodes),
                p == (|a: int| diluted_at(conf, nodes, table(part@), table(whole@), beta as int, a)),
                some_on_path(par, from as int, until as int, p) == some_on_path(
                    par,
                    at as int,
                    until as int,
                    p,
                ),
            decreases at,
        {
            proof {
                lemma_node(nodes, at as int);
                let gp = nodes[at as int].parent as int;
                lemma_node(nodes, gp);
                assert(0 <= part@[at as int]);
                assert(0 <= whole@[gp]);
                lemma_scaled(
                    conf,
                    nodes,
                    part@[at as int] as int,
                    conf.adaptive_weight_alpha_den as int,
                );
                lemma_scaled(
                    conf,
                    nodes,
                    whole@[gp] as int,
                    conf.adaptive_weight_alpha_num as int,
                );
                lemma_path_step(par, at as int, until as int, p);
            }
            let grandparent: usize = self.arena.get(at).parent;
            let v: i128 = whole[grandparent];
            if v > beta {
                let a: i128 = part[at];
                if self.inner_conf.adaptive_weight_alpha_den as i128 * a
                    - self.inner_conf.adaptive_weight_alpha_num as i128 * v < 0 {
                    assert(p(at as int));
                    return true;
                }
            }
            assert(!p(at as int));
            at = grandparent;
        }
        proof {
            lemma_path_end(par, at as int, until as int, p);
        }
        false
    }

    /// Stability and adaptivity of a child of `parent_0`, by walking up the
    /// path with the subtree weights given.
    pub fn adaptive_weight_impl_brutal(
        &self,
        parent_0: usize,
        subtree_weight: &Vec<i128>,
        subtree_inclusive_weight: &Vec<i128>,
        subtree_stable_weight: &Vec<i128>,
        difficulty: i128,
        Ghost(k): Ghost<nat>,
    ) -> (r: (bool, bool))
        requires
            self.tree_ready(k),
            parent_0 < self.size(),
            0 <= self.inner_conf.adaptive_weight_beta * difficulty <= i128::MAX,
            tuple_ok(
                self.inner_conf,
                self.nodes(),
                subtree_weight@,
                subtree_inclusive_weight@,
                subtree_stable_weight@,
            ),
        ensures
            r == adaptivity_brutal(
                self.inner_conf,
                self.nodes(),
                subtree_weight@,
                subtree_inclusive_weight@,
                subtree_stable_weight@,
                parent_0 as int,
                difficulty as int,
            ),
    {
        let ghost par = self.parents();
        proof {
            lemma_node(self.nodes(), parent_0 as int);
            reveal(trees_ok);
        }
        let height: u64 = self.arena.get(parent_0).height;
        let era: u64 = self.get_era_height(height, 0);
        let two_era: u64 = self.get_era_height(height, ERA_EPOCH_COUNT);
        proof {
            crate::adaptive::lemma_era_heights(height as int);
            self.lemma_tree_ancestor(parent_0 as int, era as nat);
            lemma_ancestor_at_depth(par, parent_0 as int, era as nat);
        }
        let era_genesis: usize = self.trees.weight_tree.ancestor_at(parent_0, era as usize);
        let total: i128 = subtree_weight[era_genesis];
        let beta: i128 = self.inner_conf.adaptive_weight_beta as i128 * difficulty;
        let unstable: bool = self.unstable_on_path(parent_0, era, subtree_weight, total, beta);
        let mut adaptive: bool = self.diluted_on_path(
            parent_0,
            era,
            subtree_stable_weight,
            subtree_weight,
            beta,
        );
        if !adaptive {
            adaptive = self.diluted_on_path(
                era_genesis,
                two_era,
                subtree_inclusive_weight,
                subtree_inclusive_weight,
                beta,
            );
        }
        (!unstable, adaptive)
    }
}

/// A block is not below the set if it is not in it and its parent is not below.
proof fn lemma_alive(par: Seq<usize>, gone: Set<int>, y: int)
    requires
        0 <= y < par.len(),
        par[y] < y || (par[y] == NULL && par.len() < NULL),
    ensures
        not_below(par, gone, y) <==> !gone.contains(y) && (par[y] < y ==> not_below(
            par,
            gone,
            par[y] as int,
        )),
{
    assert(ancestor(par, y, y));
    if not_below(par, gone, y) && par[y] < y {
        assert forall|b: int| #[trigger] gone.contains(b) implies !ancestor(
            par,
            b,
            par[y] as int,
        ) by {
            assert(!ancestor(par, b, y));
        }
    }
}

/// Values that vanish below the set sum up to what is seen without it.
proof fn lemma_own_is_seen(
    par: Seq<usize>,
    gone: Set<int>,
    own: spec_fn(int) -> int,
    f: spec_fn(int) -> int,
    n: nat,
    x: int,
)
    requires
        forall|y: int|
            0 <= y < n ==> #[trigger] own(y) == (if not_below(par, gone, y) {
                f(y)
            } else {
                0
            }),
    ensures
        sum_below(par, own, n, x) == seen_sum(par, gone, f, n, x),
{
    let a = masked(in_subtree(par, x), own);
    let b = masked(|y: int| ancestor(par, x, y) && not_below(par, gone, y), f);
    assert forall|y: int| 0 <= y < n implies #[trigger] a(y) == b(y) by {
        assert(own(y) == (if not_below(par, gone, y) {
            f(y)
        } else {
            0
        }));
    }
    lemma_sum_congruent(a, b, n);
}

/// One step up the path.
proof fn lemma_path_step(par: Seq<usize>, x: int, until: int, p: spec_fn(int) -> bool)
    requires
        0 < x < par.len(),
        par[x] < x,
        depth(par, x) > until,
    ensures
        some_on_path(par, x, until, p) <==> p(x) || some_on_path(par, par[x] as int, until, p),
{
    assert(ancestor(par, x, x));
    if some_on_path(par, x, until, p) {
        let a = choose|a: int| #[trigger] ancestor(par, a, x) && depth(par, a) > until && p(a);
        if a != x {
            assert(ancestor(par, a, par[x] as int));
        }
    }
    if some_on_path(par, par[x] as int, until, p) {
        let a = choose|a: int| #[trigger]
            ancestor(par, a, par[x] as int) && depth(par, a) > until && p(a);
        assert(ancestor(par, a, x));
    }
}

/// Nothing on the path is above a height that the block does not exceed.
proof fn lemma_path_end(par: Seq<usize>, x: int, until: int, p: spec_fn(int) -> bool)
    requires
        0 <= x,
        depth(par, x) <= until,
    ensures
        !some_on_path(par, x, until, p),
{
    if some_on_path(par, x, until, p) {
        let a = choose|a: int| #[trigger] ancestor(par, a, x) && depth(par, a) > until && p(a);
        lemma_ancestor_depth(par, a, x);
    }
}

} // verus!
