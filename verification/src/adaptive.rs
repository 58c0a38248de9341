//! Whether a block is stable and whether it has adaptive weight: the rule over
//! the subtree weights that the block sees, and the decision from the weight
//! trees.

use vstd::prelude::*;
use crate::arena::{dag_of, ConsensusGraphNode};
use crate::bits::BlockSet;
use crate::config::{ConsensusInnerConfig, ERA_EPOCH_COUNT};
use crate::dag::{ancestor, ancestor_at_depth, depth};
#[allow(unused_imports)]
use crate::dag::{lemma_ancestor_at_depth, lemma_ancestor_depth, lemma_ancestor_earlier,
    lemma_ancestor_transitive, lemma_ancestor_unique, lemma_ancestors_chain};
use crate::model::{era_genesis, era_height, in_era_past, in_own_epoch, limits_ok, links_ok,
    parents_of, past_weights_ok, tree_shape, tree_weights, trees_ok, weight_limit, weight_of,
    weights};
use crate::path_tree::{is_path_minimum, PathTree};
#[allow(unused_imports)]
use crate::past::{lemma_era_past_step, lemma_recorded_bounds};
use crate::removal::{is_barrier, not_below, same_trees, seen_adaptive_value, seen_inclusive_value,
    seen_stable_value, seen_stable_weight, seen_weight, shifted, BarrierWeights};
#[allow(unused_imports)]
use crate::removal::{lemma_same_trees_ok, lemma_shift_undone, lemma_taken_out,
    lemma_trees_bounded};
use crate::state::ConsensusGraphInner;
#[allow(unused_imports)]
use crate::state::{lemma_depth_bounded, lemma_node, lemma_weight_bounds};
use crate::sums::{masked, sum_to};
#[allow(unused_imports)]
use crate::sums::{lemma_sum_nonnegative, lemma_sum_ordered};
#[allow(unused_imports)]
use crate::trees::{lemma_scaled, lemma_tree_ancestors};
use crate::types::U256;

verus! {

/// `p` holds at some ancestor of `x`, or at `x`, above the height `until`.
pub open spec fn some_on_path(
    par: Seq<usize>,
    x: int,
    until: int,
    p: spec_fn(int) -> bool,
) -> bool {
    exists|a: int| #[trigger] ancestor(par, a, x) && depth(par, a) > until && p(a)
}

/// What is left of the weight of the era when the past of the parent of `a` and
/// that parent are taken away: `f` of the stable rule.
pub open spec fn came_since(
    conf: ConsensusInnerConfig,
    nodes: Seq<ConsensusGraphNode>,
    total: int,
    a: int,
) -> int {
    let gp = nodes[a].parent as int;
    total - nodes[gp].past_era_weight - weight_of(conf, nodes[gp])
}

/// Enough weight came since `a`, and its subtree is too light.
pub open spec fn unstable_at(
    conf: ConsensusInnerConfig,
    nodes: Seq<ConsensusGraphNode>,
    w: spec_fn(int) -> int,
    total: int,
    beta: int,
    a: int,
) -> bool {
    let since = came_since(conf, nodes, total, a);
    since > beta && conf.adaptive_weight_alpha_den * w(a) < conf.adaptive_weight_alpha_num * since
}

/// The parent of `a` weighs enough as a whole, and `a` has too little of the
/// part.
pub open spec fn diluted_at(
    conf: ConsensusInnerConfig,
    nodes: Seq<ConsensusGraphNode>,
    part: spec_fn(int) -> int,
    whole: spec_fn(int) -> int,
    beta: int,
    a: int,
) -> bool {
    let v = whole(nodes[a].parent as int);
    v > beta && conf.adaptive_weight_alpha_den * part(a) < conf.adaptive_weight_alpha_num * v
}

/// Whether a child of `parent` is stable, by the subtree weights `w`: on the
/// path in its era no subtree is too light for the weight that came since.
pub open spec fn is_stable_child(
    conf: ConsensusInnerConfig,
    nodes: Seq<ConsensusGraphNode>,
    w: spec_fn(int) -> int,
    parent: int,
    difficulty: int,
) -> bool {
    let par = parents_of(nodes);
    let era = era_height(depth(par, parent) as int, 0);
    let total = w(ancestor_at_depth(par, parent, era as nat));
    let beta = conf.adaptive_weight_beta * difficulty;
    !some_on_path(
        par,
        parent,
        era,
        |a: int| unstable_at(conf, nodes, w, total, beta, a),
    )
}

/// Whether the stable weight `sw` is too light somewhere on the path in the era
/// of a child of `parent`.
pub open spec fn is_diluted_in_era(
    conf: ConsensusInnerConfig,
    nodes: Seq<ConsensusGraphNode>,
    w: spec_fn(int) -> int,
    sw: spec_fn(int) -> int,
    parent: int,
    difficulty: int,
) -> bool {
    let par = parents_of(nodes);
    let era = era_height(depth(par, parent) as int, 0);
    let beta = conf.adaptive_weight_beta * difficulty;
    some_on_path(par, parent, era, |a: int| diluted_at(conf, nodes, sw, w, beta, a))
}

/// Whether the weight `iw` is too light somewhere on the path in the era before.
pub open spec fn is_diluted_before_era(
    conf: ConsensusInnerConfig,
    nodes: Seq<ConsensusGraphNode>,
    iw: spec_fn(int) -> int,
    parent: int,
    difficulty: int,
) -> bool {
    let par = parents_of(nodes);
    let height = depth(par, parent) as int;
    let era = era_height(height, 0);
    let two = era_height(height, ERA_EPOCH_COUNT as int);
    let beta = conf.adaptive_weight_beta * difficulty;
    some_on_path(
        par,
        ancestor_at_depth(par, parent, era as nat),
        two,
        |a: int| diluted_at(conf, nodes, iw, iw, beta, a),
    )
}

/// Whether a child of `parent` is stable and whether it is adaptive, from the
/// subtree weights that it sees: of all blocks, of all with the partially
/// invalid ones, and of the stable ones.
pub open spec fn adaptivity_by(
    conf: ConsensusInnerConfig,
    nodes: Seq<ConsensusGraphNode>,
    w: spec_fn(int) -> int,
    iw: spec_fn(int) -> int,
    sw: spec_fn(int) -> int,
    parent: int,
    difficulty: int,
) -> (bool, bool) {
    (
        is_stable_child(conf, nodes, w, parent, difficulty),
        is_diluted_in_era(conf, nodes, w, sw, parent, difficulty) || is_diluted_before_era(
            conf,
            nodes,
            iw,
            parent,
            difficulty,
        ),
    )
}

/// The subtree weights of the first `k` blocks without the barrier.
pub open spec fn weights_without(
    conf: ConsensusInnerConfig,
    nodes: Seq<ConsensusGraphNode>,
    barrier: Set<int>,
    k: nat,
) -> spec_fn(int) -> int {
    |x: int| seen_weight(conf, nodes, barrier, k, x)
}

/// The same for the stable blocks.
pub open spec fn stable_weights_without(
    conf: ConsensusInnerConfig,
    nodes: Seq<ConsensusGraphNode>,
    barrier: Set<int>,
    k: nat,
) -> spec_fn(int) -> int {
    |x: int| seen_stable_weight(conf, nodes, barrier, k, x)
}

/// Whether a child of `parent` that sees the first `k` blocks without the
/// barrier is stable and whether it is adaptive.
pub open spec fn adaptivity(
    conf: ConsensusInnerConfig,
    nodes: Seq<ConsensusGraphNode>,
    barrier: Set<int>,
    k: nat,
    parent: int,
    difficulty: int,
) -> (bool, bool) {
    adaptivity_by(
        conf,
        nodes,
        weights_without(conf, nodes, barrier, k),
        weights_without(conf, nodes, barrier, k),
        stable_weights_without(conf, nodes, barrier, k),
        parent,
        difficulty,
    )
}

/// Whether a block to come is adaptive, with a parent and a difficulty, if it sees
/// all that is there.
pub open spec fn told_adaptive(inner: ConsensusGraphInner, parent: int, difficulty: int) -> bool {
    adaptivity(
        inner.inner_conf,
        inner.nodes(),
        Set::<int>::empty(),
        inner.size(),
        parent,
        difficulty,
    ).1
}

/// The result of a binary search for the last height between `low` and `high`
/// at which `p` holds, with `best` found so far.
pub open spec fn last_found(p: spec_fn(int) -> bool, low: int, high: int, best: int) -> int
    decreases high - low + 1,
{
    if low <= high {
        let mid = (low + high) / 2;
        if p(mid) {
            last_found(p, mid + 1, high, mid)
        } else {
            last_found(p, low, mid - 1, best)
        }
    } else {
        best
    }
}

/// A binary search on a property that holds up to some height finds that height.
proof fn lemma_last_found_splits(p: spec_fn(int) -> bool, low: int, high: int, best: int)
    requires
        best < low,
        low <= high + 1,
        forall|m: int, n: int|
            low <= m <= n <= high && #[trigger] p(n) ==> #[trigger] p(m),
    ensures
        best <= last_found(p, low, high, best) <= high || last_found(p, low, high, best) == best,
        last_found(p, low, high, best) == best || low <= last_found(p, low, high, best),
        forall|m: int|
            low <= m <= high ==> (#[trigger] p(m) <==> m <= last_found(p, low, high, best)),
    decreases high - low + 1,
{
    if low <= high {
        let mid = (low + high) / 2;
        if p(mid) {
            lemma_last_found_splits(p, mid + 1, high, mid);
        } else {
            lemma_last_found_splits(p, low, mid - 1, best);
        }
    }
}

/// The parent of the ancestor of `x` at height `h`.
pub open spec fn above_at(par: Seq<usize>, x: int, h: int) -> int {
    par[ancestor_at_depth(par, x, h as nat)] as int
}

/// Of two heights, the ancestor at the smaller one is above that at the other.
proof fn lemma_heights_ordered(par: Seq<usize>, x: int, m: int, n: int)
    requires
        0 <= m <= n <= depth(par, x),
        0 <= x,
    ensures
        ancestor(
            par,
            ancestor_at_depth(par, x, m as nat),
            ancestor_at_depth(par, x, n as nat),
        ),
{
    lemma_ancestor_at_depth(par, x, m as nat);
    lemma_ancestor_at_depth(par, x, n as nat);
    lemma_ancestors_chain(
        par,
        ancestor_at_depth(par, x, m as nat),
        ancestor_at_depth(par, x, n as nat),
        x,
    );
}

/// The parents of blocks on a path are ordered as the blocks.
proof fn lemma_parents_ordered(par: Seq<usize>, a: int, b: int)
    requires
        ancestor(par, a, b),
        0 < a < par.len(),
        0 < b < par.len(),
        par[a] < a,
        par[b] < b,
    ensures
        ancestor(par, par[a] as int, par[b] as int),
{
    assert(ancestor(par, par[a] as int, par[a] as int));
    if a == b {
    } else {
        assert(ancestor(par, a, par[b] as int));
        assert(ancestor(par, par[a] as int, a));
        lemma_ancestor_transitive(par, par[a] as int, a, par[b] as int);
    }
}

/// Two tests that agree on a path are met somewhere on it or both nowhere.
pub proof fn lemma_some_same(
    par: Seq<usize>,
    x: int,
    until: int,
    p: spec_fn(int) -> bool,
    q: spec_fn(int) -> bool,
)
    requires
        forall|a: int|
            #[trigger] ancestor(par, a, x) && depth(par, a) > until ==> p(a) == q(a),
    ensures
        some_on_path(par, x, until, p) == some_on_path(par, x, until, q),
{
    if some_on_path(par, x, until, p) {
        let a = choose|a: int| #[trigger] ancestor(par, a, x) && depth(par, a) > until && p(a);
        assert(ancestor(par, a, x) && q(a));
    }
    if some_on_path(par, x, until, q) {
        let a = choose|a: int| #[trigger] ancestor(par, a, x) && depth(par, a) > until && q(a);
        assert(ancestor(par, a, x) && p(a));
    }
}

/// Where `pred` holds on a path down to some height and not below, looking for
/// `pred` and `test` together is looking for `test` down to the height that the
/// binary search finds.
proof fn lemma_search_decides(
    par: Seq<usize>,
    x: int,
    low: int,
    high: int,
    found: spec_fn(int) -> bool,
    pred: spec_fn(int) -> bool,
    test: spec_fn(int) -> bool,
)
    requires
        0 <= x,
        0 <= low <= high <= depth(par, x),
        forall|h: int|
            low < h <= high ==> #[trigger] found(h) == pred(ancestor_at_depth(par, x, h as nat)),
        forall|m: int, n: int|
            low < m <= n <= high && #[trigger] found(n) ==> #[trigger] found(m),
    ensures
        ({
            let best = last_found(found, low + 1, high, low);
            &&& low <= best <= high
            &&& some_on_path(
                par,
                ancestor_at_depth(par, x, high as nat),
                low,
                |a: int| pred(a) && test(a),
            ) == (best != low && some_on_path(
                par,
                ancestor_at_depth(par, x, best as nat),
                low,
                test,
            ))
        }),
{
    let best = last_found(found, low + 1, high, low);
    let both = |a: int| pred(a) && test(a);
    lemma_last_found_splits(found, low + 1, high, low);
    let y = ancestor_at_depth(par, x, high as nat);
    let z = ancestor_at_depth(par, x, best as nat);
    lemma_ancestor_at_depth(par, x, high as nat);
    lemma_ancestor_at_depth(par, x, best as nat);
    assert forall|a: int| #[trigger] ancestor(par, a, y) && depth(par, a) > low implies (pred(a)
        <==> ancestor(par, a, z)) by {
        lemma_ancestor_transitive(par, a, y, x);
        lemma_ancestor_depth(par, a, y);
        lemma_ancestor_unique(par, a, x);
        assert(found(depth(par, a) as int) == pred(a));
        if depth(par, a) <= best {
            lemma_ancestors_chain(par, a, z, x);
        } else if ancestor(par, a, z) {
            lemma_ancestor_depth(par, a, z);
        }
    }
    if some_on_path(par, y, low, both) {
        let a = choose|a: int| #[trigger] ancestor(par, a, y) && depth(par, a) > low && both(a);
        assert(ancestor(par, a, z));
        lemma_ancestor_depth(par, a, z);
    }
    if best != low && some_on_path(par, z, low, test) {
        let a = choose|a: int| #[trigger] ancestor(par, a, z) && depth(par, a) > low && test(a);
        lemma_heights_ordered(par, x, best, high);
        lemma_ancestor_transitive(par, a, z, y);
        assert(ancestor(par, a, y) && both(a));
    }
}

/// Further down a path less is seen of the subtrees.
pub proof fn lemma_seen_shrinks(
    conf: ConsensusInnerConfig,
    nodes: Seq<ConsensusGraphNode>,
    barrier: Set<int>,
    k: nat,
    a: int,
    b: int,
)
    requires
        limits_ok(conf, nodes),
        k <= nodes.len(),
        ancestor(parents_of(nodes), a, b),
    ensures
        seen_weight(conf, nodes, barrier, k, a) >= seen_weight(conf, nodes, barrier, k, b),
{
    let par = parents_of(nodes);
    let t = tree_weights(conf, nodes);
    let f = masked(|y: int| ancestor(par, b, y) && not_below(par, barrier, y), t);
    let h = masked(|y: int| ancestor(par, a, y) && not_below(par, barrier, y), t);
    assert forall|y: int| 0 <= y < k implies #[trigger] f(y) <= h(y) by {
        lemma_weight_bounds(conf, nodes, y);
        if ancestor(par, b, y) {
            lemma_ancestor_transitive(par, a, b, y);
        }
    }
    lemma_sum_ordered(f, h, k);
}

/// From the second block of an era on, less weight has come since further down
/// a path.
proof fn lemma_since_shrinks(
    conf: ConsensusInnerConfig,
    nodes: Seq<ConsensusGraphNode>,
    total: int,
    x: int,
    m: int,
    n: int,
)
    requires
        links_ok(nodes),
        limits_ok(conf, nodes),
        past_weights_ok(conf, nodes, nodes.len()),
        0 <= x < nodes.len(),
        era_height(depth(parents_of(nodes), x) as int, 0) + 1 < m <= n <= depth(
            parents_of(nodes),
            x,
        ),
    ensures
        came_since(conf, nodes, total, ancestor_at_depth(parents_of(nodes), x, m as nat))
            >= came_since(conf, nodes, total, ancestor_at_depth(parents_of(nodes), x, n as nat)),
    decreases n,
{
    if m < n {
        let par = parents_of(nodes);
        lemma_since_shrinks(conf, nodes, total, x, m, n - 1);
        lemma_ancestor_at_depth(par, x, n as nat);
        lemma_ancestor_at_depth(par, x, (n - 1) as nat);
        let b = ancestor_at_depth(par, x, n as nat);
        let q = ancestor_at_depth(par, x, (n - 1) as nat);
        lemma_node(nodes, b);
        assert(par[b] == q) by {
            let c = par[b] as int;
            assert(ancestor(par, c, c));
            assert(ancestor(par, c, b));
            lemma_ancestor_transitive(par, c, b, x);
            lemma_ancestor_unique(par, c, x);
        }
        lemma_node(nodes, q);
        let r = par[q] as int;
        lemma_node(nodes, r);
        assert(depth(par, r) == n - 2);
        assert(past_weights_ok(conf, nodes, q as nat)) by {
            reveal(past_weights_ok);
        }
        lemma_era_past_step(conf, nodes, q);
        let e = era_genesis(par, r);
        assert(r != e) by {
            let height = depth(par, x) as int;
            let d = depth(par, r) as int;
            assert(era_height(d, 0) == era_height(height, 0)) by {
                let size = ERA_EPOCH_COUNT as int;
                let at = height / size;
                assert(d / size == at) by (nonlinear_arith)
                    requires
                        size > 0,
                        at == height / size,
                        at * size <= d <= height,
                ;
            }
            lemma_ancestor_at_depth(par, r, era_height(d, 0) as nat);
        }
        let own = masked(
            |y: int| in_own_epoch(dag_of(nodes), q, y) && ancestor(par, e, y),
            weights(conf, nodes),
        );
        assert forall|y: int| 0 <= y < q implies 0 <= #[trigger] own(y) by {
            lemma_weight_bounds(conf, nodes, y);
        }
        lemma_sum_nonnegative(own, q as nat);
        assert(nodes[q].past_era_weight == sum_to(
            masked(in_era_past(dag_of(nodes), q), weights(conf, nodes)),
            q as nat,
        )) by {
            reveal(past_weights_ok);
        }
        lemma_weight_bounds(conf, nodes, q);
    }
}

/// The test of the stable tree at `x` is the test of the rule: the weight of
/// the subtree of `x` against the weight that came since, as `g / f < alpha`.
proof fn lemma_stable_test(
    conf: ConsensusInnerConfig,
    nodes: Seq<ConsensusGraphNode>,
    barrier: Set<int>,
    k: nat,
    total: int,
    x: int,
)
    requires
        x != 0,
    ensures
        seen_stable_value(conf, nodes, barrier, k, x) < total * conf.adaptive_weight_alpha_num
            <==> conf.adaptive_weight_alpha_den * seen_weight(conf, nodes, barrier, k, x)
            < conf.adaptive_weight_alpha_num * came_since(conf, nodes, total, x),
{
    let num = conf.adaptive_weight_alpha_num as int;
    let p = nodes[x].parent as int;
    let w = weight_of(conf, nodes[p]);
    let e = nodes[p].past_era_weight as int;
    assert(num * (total - e - w) == total * num - num * (w + e)) by (nonlinear_arith);
}

/// Eras begin no later with an offset than without.
pub proof fn lemma_era_heights(height: int)
    requires
        0 <= height,
    ensures
        0 <= era_height(height, ERA_EPOCH_COUNT as int) <= era_height(height, 0) <= height,
{
}

impl ConsensusGraphInner {
    /// The graph and its trees are in order, with the weights of the first `k`
    /// blocks in the trees.
    pub open spec fn tree_ready(&self, k: nat) -> bool {
        &&& self.arena.wf()
        &&& links_ok(self.nodes())
        &&& limits_ok(self.inner_conf, self.nodes())
        &&& past_weights_ok(self.inner_conf, self.nodes(), self.size())
        &&& self.trees_hold(self.size(), k)
        &&& 0 < k <= self.size()
    }

    /// The parent of the ancestor of `x` at a height above the root.
    fn parent_at(&self, x: usize, height: u64) -> (gp: usize)
        requires
            self.arena.wf(),
            links_ok(self.nodes()),
            tree_shape(self.trees.weight_tree, self.parents(), self.size()),
            x < self.size(),
            0 < height <= depth(self.parents(), x as int),
        ensures
            gp == above_at(self.parents(), x as int, height as int),
            gp < x,
            ancestor(self.parents(), gp as int, x as int),
    {
        let ghost par = self.parents();
        proof {
            self.lemma_tree_ancestor(x as int, height as nat);
            lemma_ancestor_at_depth(par, x as int, height as nat);
            let a = ancestor_at_depth(par, x as int, height as nat);
            lemma_node(self.nodes(), a);
            assert(a > 0);
            assert(ancestor(par, par[a] as int, a)) by {
                assert(ancestor(par, par[a] as int, par[a] as int));
            }
            lemma_ancestor_transitive(par, par[a] as int, a, x as int);
        }
        let p: usize = self.trees.weight_tree.ancestor_at(x, height as usize);
        self.arena.get(p).parent
    }

    /// The last height above `low` found at which enough weight has come since.
    fn search_since(
        &self,
        parent: usize,
        total: i128,
        beta: i128,
        era: u64,
        height: u64,
    ) -> (best: u64)
        requires
            self.arena.wf(),
            links_ok(self.nodes()),
            limits_ok(self.inner_conf, self.nodes()),
            past_weights_ok(self.inner_conf, self.nodes(), self.size()),
            tree_shape(self.trees.weight_tree, self.parents(), self.size()),
            parent < self.size(),
            era <= height == depth(self.parents(), parent as int),
            -weight_limit() <= total <= weight_limit(),
        ensures
            best == last_found(
                |h: int|
                    came_since(
                        self.inner_conf,
                        self.nodes(),
                        total as int,
                        ancestor_at_depth(self.parents(), parent as int, h as nat),
                    ) > beta,
                era + 1,
                height as int,
                era as int,
            ),
            era <= best <= height,
    {
        let ghost conf = self.inner_conf;
        let ghost nodes = self.nodes();
        let ghost par = self.parents();
        let ghost pred = |h: int|
            came_since(
                conf,
                nodes,
                total as int,
                ancestor_at_depth(par, parent as int, h as nat),
            ) > beta;
        proof {
            lemma_node(nodes, parent as int);
            lemma_depth_bounded(par, parent as int);
        }
        let mut high: u64 = height;
        let mut low: u64 = era + 1;
        let mut best: u64 = era;
        while low <= high
            invariant
                self.arena.wf(),
                conf == self.inner_conf,
                nodes == self.nodes(),
                par == self.parents(),
                links_ok(nodes),
                limits_ok(conf, nodes),
                past_weights_ok(conf, nodes, nodes.len()),
                tree_shape(self.trees.weight_tree, par, nodes.len()),
                parent < nodes.len(),
                -weight_limit() <= total <= weight_limit(),
                era <= height == depth(par, parent as int),
                height < u64::MAX / 4,
                pred == (|h: int|
                    came_since(
                        conf,
                        nodes,
                        total as int,
                        ancestor_at_depth(par, parent as int, h as nat),
                    ) > beta),
                era < low <= height + 1,
                high <= height,
                low <= high + 1,
                era <= best <= height,
                last_found(pred, low as int, high as int, best as int) == last_found(
                    pred,
                    era + 1,
                    height as int,
                    era as int,
                ),
            decreases high + 1 - low,
        {
            let mid: u64 = (low + high) / 2;
            let gp: usize = self.parent_at(parent, mid);
            proof {
                lemma_ancestor_at_depth(par, parent as int, mid as nat);
                lemma_recorded_bounds(conf, nodes, nodes.len(), gp as int);
                lemma_weight_bounds(conf, nodes, gp as int);
            }
            let w: i128 = total - self.arena.get(gp).past_era_weight - self.block_weight(gp, false);
            assert(pred(mid as int) == (w > beta));
            if w > beta {
                best = mid;
                low = mid + 1;
            } else {
                high = mid - 1;
            }
        }
        best
    }

    /// The last height above `low` found at which the parent of the ancestor
    /// weighs enough in the given tree.
    fn search_weight(
        &self,
        tree: &PathTree,
        parent: usize,
        beta: i128,
        low_0: u64,
        high_0: u64,
    ) -> (best: u64)
        requires
            self.arena.wf(),
            links_ok(self.nodes()),
            tree_shape(self.trees.weight_tree, self.parents(), self.size()),
            tree_shape(*tree, self.parents(), self.size()),
            parent < self.size(),
            low_0 <= high_0 <= depth(self.parents(), parent as int),
        ensures
            best == last_found(
                |h: int| tree.values()[above_at(self.parents(), parent as int, h)] > beta,
                low_0 + 1,
                high_0 as int,
                low_0 as int,
            ),
            low_0 <= best <= high_0,
    {
        let ghost nodes = self.nodes();
        let ghost par = self.parents();
        let ghost pred = |h: int| tree.values()[above_at(par, parent as int, h)] > beta;
        proof {
            lemma_node(nodes, parent as int);
            lemma_depth_bounded(par, parent as int);
        }
        let mut high: u64 = high_0;
        let mut low: u64 = low_0 + 1;
        let mut best: u64 = low_0;
        while low <= high
            invariant
                self.arena.wf(),
                nodes == self.nodes(),
                par == self.parents(),
                links_ok(nodes),
                tree_shape(self.trees.weight_tree, par, nodes.len()),
                tree_shape(*tree, par, nodes.len()),
                parent < nodes.len(),
                low_0 <= high_0 <= depth(par, parent as int),
                high_0 < u64::MAX / 4,
                pred == (|h: int| tree.values()[above_at(par, parent as int, h)] > beta),
                low_0 < low <= high_0 + 1,
                high <= high_0,
                low <= high + 1,
                low_0 <= best <= high_0,
                last_found(pred, low as int, high as int, best as int) == last_found(
                    pred,
                    low_0 + 1,
                    high_0 as int,
                    low_0 as int,
                ),
            decreases high + 1 - low,
        {
            let mid: u64 = (low + high) / 2;
            let gp: usize = self.parent_at(parent, mid);
            let w: i128 = tree.get(gp);
            assert(pred(mid as int) == (w > beta));
            if w > beta {
                best = mid;
                low = mid + 1;
            } else {
                high = mid - 1;
            }
        }
        best
    }

    /// Whether the value of the tree is below `least` at some block on the path
    /// down to the ancestor of `x` at `height`, from above the height `low`.
    fn path_dips(
        &self,
        tree: &PathTree,
        x: usize,
        low: u64,
        height: u64,
        least: i128,
    ) -> (some: bool)
        requires
            self.arena.wf(),
            links_ok(self.nodes()),
            tree_shape(self.trees.weight_tree, self.parents(), self.size()),
            tree_shape(*tree, self.parents(), self.size()),
            x < self.size(),
            low < height <= depth(self.parents(), x as int),
        ensures
            some == some_on_path(
                self.parents(),
                ancestor_at_depth(self.parents(), x as int, height as nat),
                low as int,
                |a: int| tree.values()[a] < least,
            ),
    {
        let ghost par = self.parents();
        let ghost n = self.size();
        proof {
            self.lemma_tree_ancestor(x as int, height as nat);
            self.lemma_tree_ancestor(x as int, low as nat);
            lemma_ancestor_at_depth(par, x as int, height as nat);
            lemma_ancestor_at_depth(par, x as int, low as nat);
            lemma_tree_ancestors(*tree, par, n);
            lemma_heights_ordered(par, x as int, low as int, height as int);
        }
        let p: usize = self.trees.weight_tree.ancestor_at(x, height as usize);
        let top: usize = self.trees.weight_tree.ancestor_at(x, low as usize);
        assert(ancestor(tree.parents(), top as int, p as int));
        let m: i128 = tree.path_aggregate(p, top);
        proof {
            let v = |a: int| tree.values()[a] < least;
            assert(is_path_minimum(
                tree.parents(),
                tree.values(),
                top as int,
                p as int,
                m as int,
            ));
            assert forall|a: int| #[trigger] ancestor(par, a, p as int) implies (depth(par, a)
                > low <==> !ancestor(par, a, top as int)) by {
                lemma_ancestor_transitive(par, a, p as int, x as int);
                if depth(par, a) <= low {
                    lemma_ancestors_chain(par, a, top as int, x as int);
                } else if ancestor(par, a, top as int) {
                    lemma_ancestor_depth(par, a, top as int);
                }
            }
            if m < least {
                let a = choose|a: int|
                    0 <= a < tree.parents().len() && #[trigger] ancestor(
                        tree.parents(),
                        a,
                        p as int,
                    ) && !ancestor(tree.parents(), a, top as int) && tree.values()[a] == m;
                assert(ancestor(par, a, p as int));
                assert(ancestor(tree.parents(), a, top as int) == ancestor(par, a, top as int));
                assert(v(a));
            } else {
                assert forall|a: int| #[trigger] ancestor(par, a, p as int) && depth(par, a)
                    > low implies !v(a) by {
                    lemma_ancestor_earlier(par, a, p as int);
                    assert(ancestor(tree.parents(), a, p as int));
                    assert(ancestor(tree.parents(), a, top as int) == ancestor(
                        par,
                        a,
                        top as int,
                    ));
                }
            }
        }
        m < least
    }

    /// Whether some block on the path in the era of a child of `parent` shows
    /// that the child is not stable.
    fn unstable_in_trees(
        &self,
        parent: usize,
        total: i128,
        beta: i128,
        era: u64,
        height: u64,
        Ghost(w): Ghost<spec_fn(int) -> int>,
    ) -> (found: bool)
        requires
            self.arena.wf(),
            links_ok(self.nodes()),
            limits_ok(self.inner_conf, self.nodes()),
            past_weights_ok(self.inner_conf, self.nodes(), self.size()),
            tree_shape(self.trees.weight_tree, self.parents(), self.size()),
            tree_shape(self.trees.stable_tree, self.parents(), self.size()),
            parent < self.size(),
            height == depth(self.parents(), parent as int),
            era == era_height(height as int, 0),
            -weight_limit() <= total <= weight_limit(),
            i128::MIN <= total * self.inner_conf.adaptive_weight_alpha_num <= i128::MAX,
            forall|a: int|
                a != 0 && #[trigger] ancestor(self.parents(), a, parent as int) ==> (
                self.trees.stable_tree.values()[a] < total
                    * self.inner_conf.adaptive_weight_alpha_num
                    <==> self.inner_conf.adaptive_weight_alpha_den * w(a)
                    < self.inner_conf.adaptive_weight_alpha_num * came_since(
                    self.inner_conf,
                    self.nodes(),
                    total as int,
                    a,
                )),
        ensures
            found == some_on_path(
                self.parents(),
                parent as int,
                era as int,
                |a: int|
                    unstable_at(
                        self.inner_conf,
                        self.nodes(),
                        w,
                        total as int,
                        beta as int,
                        a,
                    ),
            ),
    {
        let ghost conf = self.inner_conf;
        let ghost nodes = self.nodes();
        let ghost par = self.parents();
        let ghost x = parent as int;
        let ghost rule = |a: int| unstable_at(conf, nodes, w, total as int, beta as int, a);
        proof {
            lemma_node(nodes, x);
            lemma_depth_bounded(par, x);
        }
        if height == era {
            proof {
                if some_on_path(par, x, era as int, rule) {
                    let a = choose|a: int| #[trigger]
                        ancestor(par, a, x) && depth(par, a) > era && rule(a);
                    lemma_ancestor_depth(par, a, x);
                }
            }
            return false;
        }
        let least: i128 = total * (self.inner_conf.adaptive_weight_alpha_num as i128);
        let low: u64 = era + 1;
        proof {
            self.lemma_tree_ancestor(x, low as nat);
            lemma_ancestor_at_depth(par, x, low as nat);
        }
        let first: usize = self.trees.weight_tree.ancestor_at(parent, low as usize);
        proof {
            lemma_node(nodes, first as int);
            let gp = nodes[first as int].parent as int;
            lemma_node(nodes, gp);
            lemma_recorded_bounds(conf, nodes, nodes.len(), gp);
            lemma_weight_bounds(conf, nodes, gp);
        }
        let above: usize = self.arena.get(first).parent;
        let since: i128 = total - self.arena.get(above).past_era_weight - self.block_weight(
            above,
            false,
        );
        if since > beta && self.trees.stable_tree.get(first) < least {
            assert(ancestor(par, first as int, x) && rule(first as int));
            return true;
        }
        assert(!rule(first as int));
        let best: u64 = self.search_since(parent, total, beta, low, height);
        let ghost found = |h: int|
            came_since(conf, nodes, total as int, ancestor_at_depth(par, x, h as nat)) > beta;
        let ghost pred = |a: int| came_since(conf, nodes, total as int, a) > beta;
        let ghost test = |a: int| self.trees.stable_tree.values()[a] < least;
        let ghost both = |a: int| pred(a) && test(a);
        proof {
            assert forall|m: int, n: int|
                low < m <= n <= height && #[trigger] found(n) implies #[trigger] found(m) by {
                lemma_since_shrinks(conf, nodes, total as int, x, m, n);
            }
            assert(ancestor_at_depth(par, x, height as nat) == x);
            lemma_search_decides(par, x, low as int, height as int, found, pred, test);
            assert forall|a: int| #[trigger] ancestor(par, a, x) && depth(par, a) > low implies rule(
                a,
            ) == both(a) by {
                assert(a != 0);
            }
            lemma_some_same(par, x, low as int, rule, both);
            if some_on_path(par, x, era as int, rule) {
                let a = choose|a: int| #[trigger]
                    ancestor(par, a, x) && depth(par, a) > era && rule(a);
                if depth(par, a) == low {
                    lemma_ancestor_unique(par, a, x);
                }
                assert(ancestor(par, a, x) && depth(par, a) > low);
            }
            if some_on_path(par, x, low as int, rule) {
                let a = choose|a: int| #[trigger]
                    ancestor(par, a, x) && depth(par, a) > low && rule(a);
                assert(ancestor(par, a, x) && depth(par, a) > era);
            }
        }
        if best != low {
            self.path_dips(&self.trees.stable_tree, parent, low, best, least)
        } else {
            false
        }
    }

    /// Whether some block on the path down to the ancestor of `parent` at
    /// `high`, from above the height `low`, is diluted, with the weights in one
    /// tree and the values of the rule in the other.
    fn diluted_in_trees(
        &self,
        weights: &PathTree,
        values: &PathTree,
        parent: usize,
        beta: i128,
        low: u64,
        high: u64,
        Ghost(part): Ghost<spec_fn(int) -> int>,
        Ghost(whole): Ghost<spec_fn(int) -> int>,
    ) -> (found: bool)
        requires
            self.arena.wf(),
            links_ok(self.nodes()),
            tree_shape(self.trees.weight_tree, self.parents(), self.size()),
            tree_shape(*weights, self.parents(), self.size()),
            tree_shape(*values, self.parents(), self.size()),
            parent < self.size(),
            low <= high <= depth(self.parents(), parent as int),
            forall|a: int|
                #[trigger] ancestor(self.parents(), a, parent as int) ==> weights.values()[a]
                    == whole(a),
            forall|a: int|
                a != 0 && #[trigger] ancestor(self.parents(), a, parent as int)
                    ==> values.values()[a] == self.inner_conf.adaptive_weight_alpha_den * part(a)
                    - self.inner_conf.adaptive_weight_alpha_num * whole(
                    self.nodes()[a].parent as int,
                ),
            forall|a: int, b: int| #[trigger]
                ancestor(self.parents(), a, b) && #[trigger] ancestor(
                    self.parents(),
                    b,
                    parent as int,
                ) ==> whole(a) >= whole(b),
        ensures
            found == some_on_path(
                self.parents(),
                ancestor_at_depth(self.parents(), parent as int, high as nat),
                low as int,
                |a: int|
                    diluted_at(self.inner_conf, self.nodes(), part, whole, beta as int, a),
            ),
    {
        let ghost conf = self.inner_conf;
        let ghost nodes = self.nodes();
        let ghost par = self.parents();
        let ghost x = parent as int;
        let best: u64 = self.search_weight(weights, parent, beta, low, high);
        let ghost rule = |a: int| diluted_at(conf, nodes, part, whole, beta as int, a);
        let ghost found = |h: int| weights.values()[above_at(par, x, h)] > beta;
        let ghost pred = |a: int| whole(nodes[a].parent as int) > beta;
        let ghost test = |a: int| values.values()[a] < 0i128;
        let ghost both = |a: int| pred(a) && test(a);
        proof {
            lemma_node(nodes, x);
            let y = ancestor_at_depth(par, x, high as nat);
            lemma_ancestor_at_depth(par, x, high as nat);
            assert forall|h: int| low < h <= high implies #[trigger] found(h) == pred(
                ancestor_at_depth(par, x, h as nat),
            ) by {
                self.lemma_above(x, h);
            }
            assert forall|m: int, n: int|
                low < m <= n <= high && #[trigger] found(n) implies #[trigger] found(m) by {
                self.lemma_above(x, m);
                self.lemma_above(x, n);
                lemma_heights_ordered(par, x, m, n);
                lemma_parents_ordered(
                    par,
                    ancestor_at_depth(par, x, m as nat),
                    ancestor_at_depth(par, x, n as nat),
                );
                assert(ancestor(par, above_at(par, x, m), above_at(par, x, n)));
            }
            lemma_search_decides(par, x, low as int, high as int, found, pred, test);
            assert forall|a: int| #[trigger] ancestor(par, a, y) && depth(par, a) > low implies rule(
                a,
            ) == both(a) by {
                lemma_ancestor_transitive(par, a, y, x);
                assert(a != 0);
            }
            lemma_some_same(par, y, low as int, rule, both);
        }
        if best != low {
            self.path_dips(values, parent, low, best, 0)
        } else {
            false
        }
    }

    /// The parent of the ancestor at a height is an ancestor too.
    proof fn lemma_above(&self, x: int, h: int)
        requires
            links_ok(self.nodes()),
            0 <= x < self.size(),
            0 < h <= depth(self.parents(), x),
        ensures
            ({
                let par = self.parents();
                let a = ancestor_at_depth(par, x, h as nat);
                &&& 0 < a < par.len()
                &&& par[a] < a
                &&& above_at(par, x, h) == self.nodes()[a].parent
                &&& ancestor(par, a, x)
                &&& ancestor(par, above_at(par, x, h), x)
            }),
    {
        let par = self.parents();
        lemma_node(self.nodes(), x);
        lemma_ancestor_at_depth(par, x, h as nat);
        let a = ancestor_at_depth(par, x, h as nat);
        lemma_node(self.nodes(), a);
        assert(a > 0);
        assert(ancestor(par, par[a] as int, par[a] as int));
        assert(ancestor(par, par[a] as int, a));
        lemma_ancestor_transitive(par, par[a] as int, a, x);
    }

    /// Computes stability and adaptivity of a child of `parent_0` in the trees,
    /// from which the barrier has been taken out.
    fn adaptive_weight_in_trees(
        &self,
        parent_0: usize,
        difficulty: i128,
        Ghost(barrier): Ghost<Set<int>>,
        Ghost(t): Ghost<crate::model::WeightTrees>,
        Ghost(b): Ghost<BarrierWeights>,
        Ghost(k): Ghost<nat>,
    ) -> (r: (bool, bool))
        requires
            self.arena.wf(),
            links_ok(self.nodes()),
            limits_ok(self.inner_conf, self.nodes()),
            past_weights_ok(self.inner_conf, self.nodes(), self.size()),
            k <= self.size(),
            trees_ok(self.inner_conf, self.nodes(), t, self.size(), k),
            crate::removal::measured(
                b,
                self.inner_conf,
                self.nodes(),
                barrier,
                self.size(),
                k,
            ),
            is_barrier(self.parents(), barrier, self.size()),
            shifted(t, self.trees, b, self.inner_conf, self.parents(), self.size(), -1),
            parent_0 < self.size(),
            not_below(self.parents(), barrier, parent_0 as int),
            0 <= self.inner_conf.adaptive_weight_beta * difficulty <= i128::MAX,
        ensures
            r == adaptivity(
                self.inner_conf,
                self.nodes(),
                barrier,
                k,
                parent_0 as int,
                difficulty as int,
            ),
    {
        let ghost conf = self.inner_conf;
        let ghost nodes = self.nodes();
        let ghost par = self.parents();
        let ghost n = nodes.len();
        let ghost x = parent_0 as int;
        proof {
            lemma_node(nodes, x);
            reveal(trees_ok);
        }
        let height: u64 = self.arena.get(parent_0).height;
        let era: u64 = self.get_era_height(height, 0);
        let two_era: u64 = self.get_era_height(height, ERA_EPOCH_COUNT);
        proof {
            lemma_era_heights(height as int);
            lemma_depth_bounded(par, x);
            self.lemma_tree_ancestor(x, era as nat);
            lemma_ancestor_at_depth(par, x, era as nat);
        }
        let era_genesis: usize = self.trees.weight_tree.ancestor_at(parent_0, era as usize);
        let total: i128 = self.trees.weight_tree.get(era_genesis);
        proof {
            assert forall|a: int| #[trigger] ancestor(par, a, x) implies {
                &&& 0 <= a < n
                &&& not_below(par, barrier, a)
                &&& self.trees.weight_tree.values()[a] == seen_weight(conf, nodes, barrier, k, a)
                &&& self.trees.stable_tree.values()[a] == seen_stable_value(
                    conf,
                    nodes,
                    barrier,
                    k,
                    a,
                )
                &&& self.trees.adaptive_tree.values()[a] == seen_adaptive_value(
                    conf,
                    nodes,
                    barrier,
                    k,
                    a,
                )
                &&& self.trees.inclusive_adaptive_tree.values()[a] == seen_inclusive_value(
                    conf,
                    nodes,
                    barrier,
                    k,
                    a,
                )
                &&& self.trees.inclusive_weight_tree.values()[a] == seen_weight(
                    conf,
                    nodes,
                    barrier,
                    k,
                    a,
                )
            } by {
                lemma_ancestor_earlier(par, a, x);
                assert forall|z: int| #[trigger] barrier.contains(z) implies !ancestor(
                    par,
                    z,
                    a,
                ) by {
                    if ancestor(par, z, a) {
                        lemma_ancestor_transitive(par, z, a, x);
                    }
                }
                lemma_taken_out(b, conf, nodes, barrier, t, self.trees, n, k, a);
            }
            assert(total == seen_weight(conf, nodes, barrier, k, era_genesis as int));
            crate::brutal::lemma_seen_bounds(conf, nodes, barrier, k, era_genesis as int);
            lemma_scaled(conf, nodes, total as int, conf.adaptive_weight_alpha_num as int);
        }
        let beta: i128 = self.inner_conf.adaptive_weight_beta as i128 * difficulty;
        let ghost w = weights_without(conf, nodes, barrier, k);
        let ghost sw = stable_weights_without(conf, nodes, barrier, k);
        proof {
            assert forall|a: int| a != 0 && #[trigger] ancestor(par, a, x) implies (
            self.trees.stable_tree.values()[a] < total * conf.adaptive_weight_alpha_num
                <==> conf.adaptive_weight_alpha_den * w(a) < conf.adaptive_weight_alpha_num
                * came_since(conf, nodes, total as int, a)) by {
                lemma_stable_test(conf, nodes, barrier, k, total as int, a);
            }
            assert forall|a: int, c: int| #[trigger]
                ancestor(par, a, c) && #[trigger] ancestor(par, c, x) implies w(a) >= w(c) by {
                lemma_seen_shrinks(conf, nodes, barrier, k, a, c);
            }
        }
        let unstable: bool = self.unstable_in_trees(
            parent_0,
            total,
            beta,
            era,
            height,
            Ghost(w),
        );
        let mut adaptive: bool = self.diluted_in_trees(
            &self.trees.weight_tree,
            &self.trees.adaptive_tree,
            parent_0,
            beta,
            era,
            height,
            Ghost(sw),
            Ghost(w),
        );
        assert(ancestor_at_depth(par, x, height as nat) == x);
        if !adaptive {
            adaptive = self.diluted_in_trees(
                &self.trees.inclusive_weight_tree,
                &self.trees.inclusive_adaptive_tree,
                parent_0,
                beta,
                two_era,
                era,
                Ghost(w),
                Ghost(w),
            );
        }
        (!unstable, adaptive)
    }
}

impl ConsensusGraphInner {
    /// Whether a child of `parent_0` with the given difficulty is stable and
    /// whether it is adaptive, when it sees all but what is below the barrier.
    /// With the weights of the subtrees given, they are used; otherwise the
    /// barrier is taken out of the trees and put back.
    pub fn adaptive_weight_impl(
        &mut self,
        parent_0: usize,
        anticone_barrier: &BlockSet,
        weight_tuple: Option<&(Vec<i128>, Vec<i128>, Vec<i128>)>,
        difficulty: i128,
        Ghost(k): Ghost<nat>,
    ) -> (r: (bool, bool))
        requires
            old(self).tree_ready(k),
            anticone_barrier.wf(),
            is_barrier(old(self).parents(), anticone_barrier@, old(self).size()),
            parent_0 < old(self).size(),
            not_below(old(self).parents(), anticone_barrier@, parent_0 as int),
            0 <= old(self).inner_conf.adaptive_weight_beta * difficulty <= i128::MAX,
            weight_tuple matches Some(t) ==> crate::brutal::tuple_ok(
                old(self).inner_conf,
                old(self).nodes(),
                t.0@,
                t.1@,
                t.2@,
            ),
        ensures
            final(self).tree_ready(k),
            *final(self) == (ConsensusGraphInner { trees: final(self).trees, ..*old(self) }),
            same_trees(old(self).trees, final(self).trees),
            r == (match weight_tuple {
                Some(t) => crate::brutal::adaptivity_brutal(
                    old(self).inner_conf,
                    old(self).nodes(),
                    t.0@,
                    t.1@,
                    t.2@,
                    parent_0 as int,
                    difficulty as int,
                ),
                None => adaptivity(
                    old(self).inner_conf,
                    old(self).nodes(),
                    anticone_barrier@,
                    k,
                    parent_0 as int,
                    difficulty as int,
                ),
            }),
    {
        match weight_tuple {
            Some(t) => {
                return self.adaptive_weight_impl_brutal(
                    parent_0,
                    &t.0,
                    &t.1,
                    &t.2,
                    difficulty,
                    Ghost(k),
                );
            },
            None => {},
        }
        let ghost conf = self.inner_conf;
        let ghost nodes = self.nodes();
        let ghost par = self.parents();
        let ghost n = nodes.len();
        let ghost barrier = anticone_barrier@;
        let ghost t = self.trees;
        let b: BarrierWeights = self.measure_barrier(anticone_barrier, Ghost(k));
        proof {
            lemma_trees_bounded(conf, nodes, t, n, k);
        }
        self.shift_barrier(&b, -1, Ghost(barrier), Ghost(k), Ghost(3 * weight_limit()));
        let ghost u = self.trees;
        let r: (bool, bool) = self.adaptive_weight_in_trees(
            parent_0,
            difficulty,
            Ghost(barrier),
            Ghost(t),
            Ghost(b),
            Ghost(k),
        );
        self.shift_barrier(&b, 1, Ghost(barrier), Ghost(k), Ghost(5 * weight_limit()));
        proof {
            lemma_shift_undone(t, u, self.trees, b, conf, par, n);
            lemma_same_trees_ok(conf, nodes, t, self.trees, n, k);
        }
        r
    }

    /// Whether a block mined on `parent_index` with the given difficulty would
    /// have adaptive weight.
    pub fn check_mining_adaptive_block(&mut self, parent_index: usize, difficulty: U256) -> (
        adaptive: bool)
        requires
            old(self).wf(),
            parent_index < old(self).size(),
            difficulty.fits_weight(),
            old(self).inner_conf.adaptive_weight_beta * difficulty.value() <= i128::MAX,
        ensures
            final(self).wf(),
            *final(self) == (ConsensusGraphInner { trees: final(self).trees, ..*old(self) }),
            same_trees(old(self).trees, final(self).trees),
            adaptive == adaptivity(
                old(self).inner_conf,
                old(self).nodes(),
                Set::<int>::empty(),
                old(self).size(),
                parent_index as int,
                difficulty.value(),
            ).1,
            adaptive == told_adaptive(*old(self), parent_index as int, difficulty.value()),
    {
        let ghost k = self.size();
        let none = BlockSet::new();
        let d: i128 = difficulty.to_weight();
        proof {
            let beta = self.inner_conf.adaptive_weight_beta as int;
            assert(0 <= beta * d) by (nonlinear_arith)
                requires
                    0 <= beta,
                    0 <= d,
            ;
            assert(none@ =~= Set::<int>::empty());
        }
        let r: (bool, bool) = self.adaptive_weight_impl(parent_index, &none, None, d, Ghost(k));
        r.1
    }

    /// Whether block `me` is stable and whether it is adaptive.
    pub fn adaptive_weight(
        &mut self,
        me: usize,
        anticone_barrier: &BlockSet,
        weight_tuple: Option<&(Vec<i128>, Vec<i128>, Vec<i128>)>,
        Ghost(k): Ghost<nat>,
    ) -> (r: (bool, bool))
        requires
            old(self).tree_ready(k),
            anticone_barrier.wf(),
            is_barrier(old(self).parents(), anticone_barrier@, old(self).size()),
            0 < me < old(self).size(),
            not_below(
                old(self).parents(),
                anticone_barrier@,
                old(self).nodes()[me as int].parent as int,
            ),
            weight_tuple matches Some(t) ==> crate::brutal::tuple_ok(
                old(self).inner_conf,
                old(self).nodes(),
                t.0@,
                t.1@,
                t.2@,
            ),
        ensures
            final(self).tree_ready(k),
            *final(self) == (ConsensusGraphInner { trees: final(self).trees, ..*old(self) }),
            same_trees(old(self).trees, final(self).trees),
            r == (match weight_tuple {
                Some(t) => crate::brutal::adaptivity_brutal(
                    old(self).inner_conf,
                    old(self).nodes(),
                    t.0@,
                    t.1@,
                    t.2@,
                    old(self).nodes()[me as int].parent as int,
                    old(self).nodes()[me as int].difficulty.value(),
                ),
                None => adaptivity(
                    old(self).inner_conf,
                    old(self).nodes(),
                    anticone_barrier@,
                    k,
                    old(self).nodes()[me as int].parent as int,
                    old(self).nodes()[me as int].difficulty.value(),
                ),
            }),
    {
        proof {
            lemma_node(self.nodes(), me as int);
            lemma_weight_bounds(self.inner_conf, self.nodes(), me as int);
            lemma_scaled(
                self.inner_conf,
                self.nodes(),
                self.nodes()[me as int].difficulty.value(),
                self.inner_conf.adaptive_weight_beta as int,
            );
        }
        let parent: usize = self.arena.get(me).parent;
        let difficulty: i128 = self.arena.get(me).difficulty.to_weight();
        self.adaptive_weight_impl(parent, anticone_barrier, weight_tuple, difficulty, Ghost(k))
    }
}

} // verus!
