//! The greedy heaviest adaptive subtree rule as it is stated, and that the
//! decisions taken with the trees and block by block follow it.
//!
//! For a block `b` with the past `B`, and a block `a` on the path from the
//! parent of `b` up to, but without, the first block:
//!
//! - `b` is stable unless for some `a`, with `f(a)` the weight of `B` without the
//!   past of the parent of `a` and that parent, `f(a) > beta` and the subtree of
//!   `a` in `B` weighs less than `alpha * f(a)`.
//! - `b` is adaptive if for some `a`, with `f(a)` the weight of the subtree of the
//!   parent of `a` in `B`, `f(a) > beta` and the stable blocks in the subtree of
//!   `a` in `B` weigh less than `alpha * f(a)`.

use vstd::prelude::*;
use crate::adaptive::{adaptivity, adaptivity_by, came_since, diluted_at, some_on_path,
    stable_weights_without, unstable_at, weights_without};
use crate::anticone::{anticone_of, barrier_of};
use crate::arena::{dag_of, ConsensusGraphNode};
use crate::arrival::{block_adaptivity, plain_stable_weights, plain_weights, seen_table};
use crate::barrier::stable_weights;
use crate::brutal::{adaptivity_brutal, table};
use crate::config::{ConsensusInnerConfig, ERA_EPOCH_COUNT};
use crate::dag::{ancestor, ancestor_at_depth, depth};
#[allow(unused_imports)]
use crate::dag::{lemma_ancestor_at_depth, lemma_ancestor_at_depth_prefix, lemma_ancestor_depth,
    lemma_ancestor_earlier, lemma_ancestor_prefix, lemma_ancestor_transitive,
    lemma_ancestor_unique, lemma_reaches_earlier, lemma_root_is_ancestor};
use crate::model::{era_genesis, era_height, in_era_past, in_past, limits_ok, links_ok, parents_of,
    past_weights_ok, tree_weights, weight_cap, weight_of, weights};
use crate::removal::{not_below, seen_stable_weight, seen_weight};
#[allow(unused_imports)]
use crate::removal::lemma_barrier_of;
#[allow(unused_imports)]
use crate::state::{lemma_masked_weight_bounds, lemma_node, lemma_weight_bounds};
use crate::sums::{masked, sum_to};
#[allow(unused_imports)]
use crate::sums::lemma_sum_congruent;

verus! {

/// The weight of the subtree of `x` in the past of `me`.
pub open spec fn past_subtree_weight(
    conf: ConsensusInnerConfig,
    nodes: Seq<ConsensusGraphNode>,
    me: int,
    x: int,
) -> int {
    sum_to(masked(in_past_subtree(nodes, me, x), weights(conf, nodes)), me as nat)
}

/// The weight of the stable blocks in the subtree of `x` in the past of `me`.
pub open spec fn past_stable_subtree_weight(
    conf: ConsensusInnerConfig,
    nodes: Seq<ConsensusGraphNode>,
    me: int,
    x: int,
) -> int {
    sum_to(
        masked(in_past_subtree(nodes, me, x), plain_stable_weights(conf, nodes)),
        me as nat,
    )
}

/// In the past of `me` and in the subtree of `x`.
pub open spec fn in_past_subtree(nodes: Seq<ConsensusGraphNode>, me: int, x: int) -> spec_fn(
    int,
) -> bool {
    |y: int| ancestor(parents_of(nodes), x, y) && in_past(dag_of(nodes), me)(y)
}

/// The weight of the past of `me` without the past of the parent of `a` and
/// without that parent.
pub open spec fn past_since(
    conf: ConsensusInnerConfig,
    nodes: Seq<ConsensusGraphNode>,
    me: int,
    a: int,
) -> int {
    let p = nodes[a].parent as int;
    nodes[me].past_weight - nodes[p].past_weight - weight_of(conf, nodes[p])
}

/// The threshold for the weight that counts, in the difficulty of `me`.
pub open spec fn threshold(
    conf: ConsensusInnerConfig,
    nodes: Seq<ConsensusGraphNode>,
    me: int,
) -> int {
    conf.adaptive_weight_beta * nodes[me].difficulty.value()
}

/// `a` is on the path from the parent of `me` up to, but without, the first
/// block.
pub open spec fn on_path(nodes: Seq<ConsensusGraphNode>, me: int, a: int) -> bool {
    a != 0 && ancestor(parents_of(nodes), a, nodes[me].parent as int)
}

/// Enough weight came since `a`, and too little of it into its subtree.
pub open spec fn shows_unstable(
    conf: ConsensusInnerConfig,
    nodes: Seq<ConsensusGraphNode>,
    me: int,
    a: int,
) -> bool {
    &&& past_since(conf, nodes, me, a) > threshold(conf, nodes, me)
    &&& conf.adaptive_weight_alpha_den * past_subtree_weight(conf, nodes, me, a)
        < conf.adaptive_weight_alpha_num * past_since(conf, nodes, me, a)
}

/// The subtree of the parent of `a` weighs enough, and too little of it are
/// stable blocks in that of `a`.
pub open spec fn shows_diluted(
    conf: ConsensusInnerConfig,
    nodes: Seq<ConsensusGraphNode>,
    me: int,
    a: int,
) -> bool {
    let whole = past_subtree_weight(conf, nodes, me, nodes[a].parent as int);
    &&& whole > threshold(conf, nodes, me)
    &&& conf.adaptive_weight_alpha_den * past_stable_subtree_weight(conf, nodes, me, a)
        < conf.adaptive_weight_alpha_num * whole
}

/// The rule calls the block stable.
pub open spec fn rule_stable(
    conf: ConsensusInnerConfig,
    nodes: Seq<ConsensusGraphNode>,
    me: int,
) -> bool {
    forall|a: int| #[trigger] on_path(nodes, me, a) ==> !shows_unstable(conf, nodes, me, a)
}

/// The rule finds too little stable weight on the path of the block.
pub open spec fn rule_diluted(
    conf: ConsensusInnerConfig,
    nodes: Seq<ConsensusGraphNode>,
    me: int,
) -> bool {
    exists|a: int| #[trigger] on_path(nodes, me, a) && shows_diluted(conf, nodes, me, a)
}

/// The newest block of a graph that is in order, whose first block weighs its
/// difficulty.
pub open spec fn is_newest(
    conf: ConsensusInnerConfig,
    nodes: Seq<ConsensusGraphNode>,
    me: int,
) -> bool {
    &&& links_ok(nodes)
    &&& limits_ok(conf, nodes)
    &&& past_weights_ok(conf, nodes, nodes.len())
    &&& 0 < me == nodes.len() - 1
    &&& weight_of(conf, nodes[0]) == nodes[0].difficulty.value()
}

/// The same in the first era.
pub open spec fn in_first_era(
    conf: ConsensusInnerConfig,
    nodes: Seq<ConsensusGraphNode>,
    me: int,
) -> bool {
    &&& is_newest(conf, nodes, me)
    &&& depth(parents_of(nodes), nodes[me].parent as int) < ERA_EPOCH_COUNT
}

/// Below the barrier of the newest block is what it does not see.
proof fn lemma_barrier_hides(nodes: Seq<ConsensusGraphNode>, me: int, y: int)
    requires
        links_ok(nodes),
        0 < me == nodes.len() - 1,
        0 <= y < me,
    ensures
        not_below(parents_of(nodes), barrier_of(dag_of(nodes), me), y) <==> dag_of(nodes).reaches(
            me,
            y,
        ),
    decreases y,
{
    let g = dag_of(nodes);
    let par = g.parent;
    let barrier = barrier_of(g, me);
    lemma_barrier_of(nodes, me);
    lemma_node(nodes, y);
    lemma_node(nodes, me);
    if !g.reaches(me, y) {
        assert(!g.reaches(y, me)) by {
            if g.reaches(y, me) {
                lemma_reaches_earlier(g, y, me);
            }
        }
        assert(anticone_of(g, me).contains(y));
        assert(y > 0) by {
            if y == 0 {
                crate::dag::lemma_all_reach_root(g, me);
            }
        }
        let p = par[y] as int;
        if anticone_of(g, me).contains(p) {
            lemma_barrier_hides(nodes, me, p);
            let b = choose|b: int| #[trigger] barrier.contains(b) && ancestor(par, b, p);
            assert(ancestor(par, b, y));
            assert(barrier.contains(b));
        } else {
            assert(barrier.contains(y));
            assert(ancestor(par, y, y));
        }
    }
}

/// The same with the block itself in the barrier.
proof fn lemma_wide_barrier_hides(nodes: Seq<ConsensusGraphNode>, me: int, y: int)
    requires
        links_ok(nodes),
        0 < me == nodes.len() - 1,
        0 <= y < me,
    ensures
        not_below(parents_of(nodes), barrier_of(dag_of(nodes), me).insert(me), y) <==> dag_of(
            nodes,
        ).reaches(me, y),
{
    let par = parents_of(nodes);
    let barrier = barrier_of(dag_of(nodes), me);
    let wide = barrier.insert(me);
    lemma_barrier_hides(nodes, me, y);
    if ancestor(par, me, y) {
        lemma_ancestor_earlier(par, me, y);
    }
    if not_below(par, wide, y) {
        assert forall|q: int| #[trigger] barrier.contains(q) implies !ancestor(par, q, y) by {
            assert(wide.contains(q));
        }
    }
}

/// What the newest block sees of a subtree is the subtree in its past.
pub proof fn lemma_seen_is_past(
    conf: ConsensusInnerConfig,
    nodes: Seq<ConsensusGraphNode>,
    me: int,
    x: int,
)
    requires
        links_ok(nodes),
        0 < me == nodes.len() - 1,
        0 <= x < me,
        x == 0 ==> weight_of(conf, nodes[0]) == nodes[0].difficulty.value(),
    ensures
        seen_weight(conf, nodes, barrier_of(dag_of(nodes), me), me as nat, x)
            == past_subtree_weight(conf, nodes, me, x),
        seen_stable_weight(conf, nodes, barrier_of(dag_of(nodes), me), me as nat, x)
            == past_stable_subtree_weight(conf, nodes, me, x),
{
    let par = parents_of(nodes);
    let barrier = barrier_of(dag_of(nodes), me);
    let seen = |y: int| ancestor(par, x, y) && not_below(par, barrier, y);
    let a = masked(seen, tree_weights(conf, nodes));
    let b = masked(in_past_subtree(nodes, me, x), weights(conf, nodes));
    assert forall|y: int| 0 <= y < me implies #[trigger] a(y) == b(y) by {
        lemma_barrier_hides(nodes, me, y);
        if x > 0 && y == 0 && ancestor(par, x, y) {
            lemma_ancestor_earlier(par, x, y);
        }
    }
    lemma_sum_congruent(a, b, me as nat);
    let c = masked(seen, stable_weights(conf, nodes));
    let d = masked(in_past_subtree(nodes, me, x), plain_stable_weights(conf, nodes));
    assert forall|y: int| 0 <= y < me implies #[trigger] c(y) == d(y) by {
        lemma_barrier_hides(nodes, me, y);
        if x > 0 && y == 0 && ancestor(par, x, y) {
            lemma_ancestor_earlier(par, x, y);
        }
    }
    lemma_sum_congruent(c, d, me as nat);
}

/// The same for the sums block by block.
pub proof fn lemma_table_is_past(
    conf: ConsensusInnerConfig,
    nodes: Seq<ConsensusGraphNode>,
    me: int,
    x: int,
)
    requires
        is_newest(conf, nodes, me),
        0 <= x < me,
    ensures
        seen_table(nodes, me, plain_weights(conf, nodes))[x] == past_subtree_weight(
            conf,
            nodes,
            me,
            x,
        ),
        seen_table(nodes, me, plain_stable_weights(conf, nodes))[x] == past_stable_subtree_weight(
            conf,
            nodes,
            me,
            x,
        ),
{
    let par = parents_of(nodes);
    let barrier = barrier_of(dag_of(nodes), me);
    let wide = barrier.insert(me);
    let seen = |y: int| ancestor(par, x, y) && not_below(par, wide, y);
    let past = in_past_subtree(nodes, me, x);
    let f = plain_weights(conf, nodes);
    let g = plain_stable_weights(conf, nodes);
    let a = masked(seen, f);
    let b = masked(past, weights(conf, nodes));
    let c = masked(seen, g);
    let d = masked(past, g);
    assert(!not_below(par, wide, me)) by {
        assert(wide.contains(me));
        assert(ancestor(par, me, me));
    }
    assert forall|y: int| 0 <= y < me implies #[trigger] a(y) == b(y) by {
        lemma_wide_barrier_hides(nodes, me, y);
    }
    assert forall|y: int| 0 <= y < me implies #[trigger] c(y) == d(y) by {
        lemma_wide_barrier_hides(nodes, me, y);
    }
    lemma_sum_congruent(a, b, me as nat);
    lemma_sum_congruent(c, d, me as nat);
    assert(sum_to(a, nodes.len()) == sum_to(a, me as nat) + a(me));
    assert(sum_to(c, nodes.len()) == sum_to(c, me as nat) + c(me));
    lemma_past_sums_bounded(conf, nodes, me, x);
}

/// Sums over a past are no larger than the weight of all blocks.
proof fn lemma_past_sums_bounded(
    conf: ConsensusInnerConfig,
    nodes: Seq<ConsensusGraphNode>,
    me: int,
    x: int,
)
    requires
        limits_ok(conf, nodes),
        0 < me == nodes.len() - 1,
    ensures
        0 <= past_subtree_weight(conf, nodes, me, x) <= i128::MAX,
        0 <= past_stable_subtree_weight(conf, nodes, me, x) <= i128::MAX,
{
    let f = weights(conf, nodes);
    let g = plain_stable_weights(conf, nodes);
    assert forall|i: int| 0 <= i < nodes.len() implies 0 <= #[trigger] f(i) <= weight_cap(conf)(
        nodes[i],
    ) by {
        lemma_weight_bounds(conf, nodes, i);
    }
    assert forall|i: int| 0 <= i < nodes.len() implies 0 <= #[trigger] g(i) <= weight_cap(conf)(
        nodes[i],
    ) by {
        lemma_weight_bounds(conf, nodes, i);
    }
    lemma_masked_weight_bounds(conf, nodes, in_past_subtree(nodes, me, x), f, me as nat);
    lemma_masked_weight_bounds(conf, nodes, in_past_subtree(nodes, me, x), g, me as nat);
}

/// The whole of the past is the subtree of the first block.
proof fn lemma_whole_past(conf: ConsensusInnerConfig, nodes: Seq<ConsensusGraphNode>, me: int)
    requires
        in_first_era(conf, nodes, me),
    ensures
        past_subtree_weight(conf, nodes, me, 0) == nodes[me].past_weight,
{
    let g = dag_of(nodes);
    lemma_node(nodes, me);
    let a = masked(in_past_subtree(nodes, me, 0), weights(conf, nodes));
    let b = masked(in_past(g, me), weights(conf, nodes));
    assert forall|y: int| 0 <= y < me implies #[trigger] a(y) == b(y) by {
        lemma_root_is_ancestor(g.parent, y);
    }
    lemma_sum_congruent(a, b, me as nat);
    reveal(past_weights_ok);
}

/// In the first era the past in the era is the whole past.
proof fn lemma_era_past_is_past(conf: ConsensusInnerConfig, nodes: Seq<ConsensusGraphNode>, x: int)
    requires
        links_ok(nodes),
        past_weights_ok(conf, nodes, nodes.len()),
        0 <= x < nodes.len(),
        depth(parents_of(nodes), x) < ERA_EPOCH_COUNT,
    ensures
        nodes[x].past_era_weight == nodes[x].past_weight,
{
    reveal(past_weights_ok);
    let g = dag_of(nodes);
    let par = g.parent;
    lemma_node(nodes, x);
    if x > 0 {
        let p = par[x] as int;
        lemma_node(nodes, p);
        assert(depth(par, p) + 1 == depth(par, x));
        lemma_ancestor_at_depth(par, p, 0);
        lemma_root_is_ancestor(par, p);
        lemma_ancestor_unique(par, 0, p);
        assert(era_genesis(par, p) == 0);
        let a = masked(in_era_past(g, x), weights(conf, nodes));
        let b = masked(in_past(g, x), weights(conf, nodes));
        assert forall|y: int| 0 <= y < x implies #[trigger] a(y) == b(y) by {
            lemma_root_is_ancestor(par, y);
        }
        lemma_sum_congruent(a, b, x as nat);
    } else {
        assert(sum_to(masked(in_past(g, 0), weights(conf, nodes)), 0) == 0);
    }
}

/// Facts of one block on the path, at its height.
proof fn lemma_at_height(conf: ConsensusInnerConfig, nodes: Seq<ConsensusGraphNode>, me: int, h: int)
    requires
        in_first_era(conf, nodes, me),
        1 <= h <= depth(parents_of(nodes), nodes[me].parent as int),
    ensures
        ({
            let par = parents_of(nodes);
            let parent = nodes[me].parent as int;
            let a = ancestor_at_depth(par, parent, h as nat);
            &&& on_path(nodes, me, a)
            &&& 0 < a < me
            &&& depth(par, a) == h
            &&& par[a] == nodes[a].parent
            &&& nodes[a].parent < a
            &&& depth(par, nodes[a].parent as int) == h - 1
            &&& came_since(conf, nodes, nodes[me].past_weight as int, a) == past_since(
                conf,
                nodes,
                me,
                a,
            )
        }),
{
    let par = parents_of(nodes);
    lemma_node(nodes, me);
    let parent = nodes[me].parent as int;
    lemma_ancestor_at_depth(par, parent, h as nat);
    let a = ancestor_at_depth(par, parent, h as nat);
    lemma_root_is_ancestor(par, a);
    lemma_node(nodes, a);
    lemma_node(nodes, nodes[a].parent as int);
    lemma_era_past_is_past(conf, nodes, nodes[a].parent as int);
}

/// A block on the path is the ancestor at its height.
proof fn lemma_on_path(conf: ConsensusInnerConfig, nodes: Seq<ConsensusGraphNode>, me: int, a: int)
    requires
        in_first_era(conf, nodes, me),
        on_path(nodes, me, a),
    ensures
        ({
            let par = parents_of(nodes);
            let parent = nodes[me].parent as int;
            &&& 1 <= depth(par, a) <= depth(par, parent)
            &&& ancestor_at_depth(par, parent, depth(par, a)) == a
        }),
{
    let par = parents_of(nodes);
    lemma_node(nodes, me);
    let parent = nodes[me].parent as int;
    lemma_ancestor_earlier(par, a, parent);
    lemma_ancestor_depth(par, a, parent);
    lemma_ancestor_unique(par, a, parent);
    lemma_root_is_ancestor(par, a);
}

/// The first block is the one at which the first era begins.
proof fn lemma_first_era(conf: ConsensusInnerConfig, nodes: Seq<ConsensusGraphNode>, me: int)
    requires
        in_first_era(conf, nodes, me),
    ensures
        ({
            let par = parents_of(nodes);
            let parent = nodes[me].parent as int;
            let height = depth(par, parent) as int;
            &&& 0 <= parent < me
            &&& crate::model::era_height(height, 0) == 0
            &&& crate::model::era_height(height, ERA_EPOCH_COUNT as int) == 0
            &&& ancestor_at_depth(par, parent, 0) == 0
            &&& depth(par, 0) == 0
            &&& (height == 0 <==> parent == 0)
        }),
{
    let par = parents_of(nodes);
    lemma_node(nodes, me);
    let parent = nodes[me].parent as int;
    lemma_root_is_ancestor(par, parent);
    lemma_ancestor_unique(par, 0, parent);
}

/// Block by block, the decision is that of the rule.
proof fn lemma_brutal_rule(conf: ConsensusInnerConfig, nodes: Seq<ConsensusGraphNode>, me: int)
    requires
        in_first_era(conf, nodes, me),
    ensures
        adaptivity_brutal(
            conf,
            nodes,
            seen_table(nodes, me, plain_weights(conf, nodes)),
            seen_table(nodes, me, plain_weights(conf, nodes)),
            seen_table(nodes, me, plain_stable_weights(conf, nodes)),
            nodes[me].parent as int,
            nodes[me].difficulty.value(),
        ) == (
            rule_stable(conf, nodes, me),
            rule_diluted(conf, nodes, me),
        ),
{
    let par = parents_of(nodes);
    let parent = nodes[me].parent as int;
    let height = depth(par, parent) as int;
    let beta = threshold(conf, nodes, me);
    let w = seen_table(nodes, me, plain_weights(conf, nodes));
    let iw = seen_table(nodes, me, plain_weights(conf, nodes));
    let sw = seen_table(nodes, me, plain_stable_weights(conf, nodes));
    lemma_first_era(conf, nodes, me);
    lemma_whole_past(conf, nodes, me);
    lemma_table_is_past(conf, nodes, me, 0);
    let total = table(w)(0);
    let unstable = |a: int| unstable_at(conf, nodes, table(w), total, beta, a);
    let diluted = |a: int| diluted_at(conf, nodes, table(sw), table(w), beta, a);
    assert forall|a: int| #[trigger] on_path(nodes, me, a) implies ancestor(par, a, parent)
        && depth(par, a) > 0 && (unstable(a) <==> shows_unstable(conf, nodes, me, a)) && (diluted(
        a,
    ) <==> shows_diluted(conf, nodes, me, a)) by {
        lemma_on_path(conf, nodes, me, a);
        lemma_at_height(conf, nodes, me, depth(par, a) as int);
        lemma_table_is_past(conf, nodes, me, a);
        lemma_table_is_past(conf, nodes, me, nodes[a].parent as int);
        lemma_era_past_is_past(conf, nodes, nodes[a].parent as int);
    }
    assert forall|a: int| #[trigger]
        ancestor(par, a, parent) && depth(par, a) > 0 implies on_path(nodes, me, a) by {
    }
    assert(some_on_path(par, parent, 0, unstable) == !rule_stable(conf, nodes, me)) by {
        if some_on_path(par, parent, 0, unstable) {
            let a = choose|a: int| #[trigger]
                ancestor(par, a, parent) && depth(par, a) > 0 && unstable(a);
            assert(on_path(nodes, me, a));
        }
        if !rule_stable(conf, nodes, me) {
            let a = choose|a: int| #[trigger]
                on_path(nodes, me, a) && shows_unstable(conf, nodes, me, a);
            assert(ancestor(par, a, parent) && depth(par, a) > 0 && unstable(a));
        }
    }
    assert(some_on_path(par, parent, 0, diluted) == rule_diluted(conf, nodes, me)) by {
        if some_on_path(par, parent, 0, diluted) {
            let a = choose|a: int| #[trigger]
                ancestor(par, a, parent) && depth(par, a) > 0 && diluted(a);
            assert(on_path(nodes, me, a));
        }
        if rule_diluted(conf, nodes, me) {
            let a = choose|a: int| #[trigger]
                on_path(nodes, me, a) && shows_diluted(conf, nodes, me, a);
            assert(ancestor(par, a, parent) && depth(par, a) > 0 && diluted(a));
        }
    }
    let before = |a: int| diluted_at(conf, nodes, table(iw), table(iw), beta, a);
    assert(!some_on_path(par, 0, 0, before)) by {
        if some_on_path(par, 0, 0, before) {
            let a = choose|a: int| #[trigger]
                ancestor(par, a, 0) && depth(par, a) > 0 && before(a);
            lemma_ancestor_earlier(par, a, 0);
        }
    }
}

/// The same weights at the ancestors of a block give the same answer for its
/// children, in any graph in which the block has the same ancestors with the
/// same records.
pub proof fn lemma_adaptivity_same(
    conf: ConsensusInnerConfig,
    nodes: Seq<ConsensusGraphNode>,
    others: Seq<ConsensusGraphNode>,
    v: (spec_fn(int) -> int, spec_fn(int) -> int, spec_fn(int) -> int),
    u: (spec_fn(int) -> int, spec_fn(int) -> int, spec_fn(int) -> int),
    parent: int,
    difficulty: int,
)
    requires
        links_ok(nodes),
        0 <= parent < nodes.len(),
        parent < others.len(),
        forall|i: int|
            0 <= i <= parent ==> (#[trigger] nodes[i]).parent == others[i].parent
                && nodes[i].past_era_weight == others[i].past_era_weight && weight_of(
                conf,
                nodes[i],
            ) == weight_of(conf, others[i]),
        forall|a: int| #[trigger]
            ancestor(parents_of(nodes), a, parent) ==> v.0(a) == u.0(a) && v.1(a) == u.1(a) && v.2(
                a,
            ) == u.2(a),
    ensures
        adaptivity_by(conf, nodes, v.0, v.1, v.2, parent, difficulty) == adaptivity_by(
            conf,
            others,
            u.0,
            u.1,
            u.2,
            parent,
            difficulty,
        ),
{
    let par = parents_of(nodes);
    let oar = parents_of(others);
    let height = depth(par, parent) as int;
    let era = era_height(height, 0);
    let two = era_height(height, ERA_EPOCH_COUNT as int);
    let beta = conf.adaptive_weight_beta * difficulty;
    lemma_node(nodes, parent);
    assert forall|i: int| 0 <= i <= parent implies par[i] == oar[i] by {
        assert(nodes[i].parent == others[i].parent);
    }
    lemma_ancestor_prefix(par, oar, parent, parent);
    lemma_ancestor_at_depth_prefix(par, oar, parent, era as nat);
    let genesis = ancestor_at_depth(par, parent, era as nat);
    lemma_ancestor_at_depth(par, parent, era as nat);
    let total = v.0(genesis);
    assert forall|a: int| #[trigger] ancestor(par, a, parent) && depth(par, a) > 0 implies {
        &&& unstable_at(conf, nodes, v.0, total, beta, a) == unstable_at(
            conf,
            others,
            u.0,
            total,
            beta,
            a,
        )
        &&& diluted_at(conf, nodes, v.2, v.0, beta, a) == diluted_at(
            conf,
            others,
            u.2,
            u.0,
            beta,
            a,
        )
        &&& diluted_at(conf, nodes, v.1, v.1, beta, a) == diluted_at(
            conf,
            others,
            u.1,
            u.1,
            beta,
            a,
        )
    } by {
        lemma_ancestor_earlier(par, a, parent);
        lemma_node(nodes, a);
        let q = nodes[a].parent as int;
        assert(nodes[a].parent == others[a].parent);
        assert(nodes[q].parent == others[q].parent);
        assert(ancestor(par, q, q));
        assert(ancestor(par, q, a));
        lemma_ancestor_transitive(par, q, a, parent);
    }
    lemma_path_prefix(
        par,
        oar,
        parent,
        parent,
        era,
        |a: int| unstable_at(conf, nodes, v.0, total, beta, a),
        |a: int| unstable_at(conf, others, u.0, total, beta, a),
    );
    lemma_path_prefix(
        par,
        oar,
        parent,
        parent,
        era,
        |a: int| diluted_at(conf, nodes, v.2, v.0, beta, a),
        |a: int| diluted_at(conf, others, u.2, u.0, beta, a),
    );
    lemma_path_prefix(
        par,
        oar,
        parent,
        genesis,
        two,
        |a: int| diluted_at(conf, nodes, v.1, v.1, beta, a),
        |a: int| diluted_at(conf, others, u.1, u.1, beta, a),
    );
}

/// Tests that agree at the ancestors of a block agree on the path to one of
/// them, in any tree with the same ancestors.
proof fn lemma_path_prefix(
    par: Seq<usize>,
    oar: Seq<usize>,
    parent: int,
    x: int,
    until: int,
    p: spec_fn(int) -> bool,
    q: spec_fn(int) -> bool,
)
    requires
        0 <= parent < par.len(),
        parent < oar.len(),
        forall|i: int| 0 <= i <= parent ==> par[i] == oar[i],
        0 <= until,
        0 <= x <= parent,
        ancestor(par, x, parent),
        forall|a: int| #[trigger]
            ancestor(par, a, parent) && depth(par, a) > 0 ==> p(a) == q(a),
    ensures
        some_on_path(par, x, until, p) == some_on_path(oar, x, until, q),
{
    assert forall|a: int| ancestor(par, a, x) || ancestor(oar, a, x) implies #[trigger] ancestor(
        par,
        a,
        x,
    ) && #[trigger] ancestor(oar, a, x) && depth(par, a) == depth(oar, a) && ancestor(
        par,
        a,
        parent,
    ) by {
        lemma_ancestor_prefix(par, oar, a, x);
        lemma_ancestor_transitive(par, a, x, parent);
        lemma_ancestor_earlier(par, a, x);
        lemma_ancestor_prefix(par, oar, a, a);
    }
    if some_on_path(par, x, until, p) {
        let a = choose|a: int| #[trigger] ancestor(par, a, x) && depth(par, a) > until && p(a);
        assert(ancestor(oar, a, x));
    }
    if some_on_path(oar, x, until, q) {
        let a = choose|a: int| #[trigger] ancestor(oar, a, x) && depth(oar, a) > until && q(a);
        assert(ancestor(par, a, x));
    }
}

/// It does not matter for a block, in any era, whether its view is taken out of
/// the trees or summed up block by block: it is stable by both ways or by none,
/// and adaptive by both ways or by none.
pub proof fn lemma_both_ways_agree(
    conf: ConsensusInnerConfig,
    nodes: Seq<ConsensusGraphNode>,
    me: int,
)
    requires
        is_newest(conf, nodes, me),
    ensures
        adaptivity(
            conf,
            nodes,
            barrier_of(dag_of(nodes), me),
            me as nat,
            nodes[me].parent as int,
            nodes[me].difficulty.value(),
        ) == adaptivity_brutal(
            conf,
            nodes,
            seen_table(nodes, me, plain_weights(conf, nodes)),
            seen_table(nodes, me, plain_weights(conf, nodes)),
            seen_table(nodes, me, plain_stable_weights(conf, nodes)),
            nodes[me].parent as int,
            nodes[me].difficulty.value(),
        ),
{
    let barrier = barrier_of(dag_of(nodes), me);
    let parent = nodes[me].parent as int;
    let w = weights_without(conf, nodes, barrier, me as nat);
    let sw = stable_weights_without(conf, nodes, barrier, me as nat);
    let tw = table(seen_table(nodes, me, plain_weights(conf, nodes)));
    let ts = table(seen_table(nodes, me, plain_stable_weights(conf, nodes)));
    lemma_node(nodes, me);
    assert forall|a: int| #[trigger] ancestor(parents_of(nodes), a, parent) implies w(a) == tw(a)
        && sw(a) == ts(a) by {
        lemma_ancestor_earlier(parents_of(nodes), a, parent);
        lemma_seen_is_past(conf, nodes, me, a);
        lemma_table_is_past(conf, nodes, me, a);
    }
    lemma_adaptivity_same(
        conf,
        nodes,
        nodes,
        (w, w, sw),
        (tw, tw, ts),
        parent,
        nodes[me].difficulty.value(),
    );
}

/// In the first era, a block is stable and adaptive as the rule says, whichever
/// way it is decided.
pub proof fn lemma_decided_by_rule(
    conf: ConsensusInnerConfig,
    nodes: Seq<ConsensusGraphNode>,
    me: int,
)
    requires
        in_first_era(conf, nodes, me),
    ensures
        block_adaptivity(conf, nodes, me) == (
            rule_stable(conf, nodes, me),
            rule_diluted(conf, nodes, me),
        ),
{
    lemma_brutal_rule(conf, nodes, me);
    lemma_both_ways_agree(conf, nodes, me);
}

} // verus!
