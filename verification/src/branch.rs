//! A fully valid block ends the heaviest branch that it sees.

use vstd::prelude::*;
use crate::anticone::is_last_pivot_below;
#[allow(unused_imports)]
use crate::anticone::lemma_pivot_below_sound;
use crate::arena::{dag_of, ConsensusGraphNode};
use crate::arrival::{parent_accepted, weights_seen};
use crate::config::ConsensusInnerConfig;
use crate::consensus::{settled, took_in, ConsensusGraph, PendingBlock};
use crate::dag::{ancestor, ancestor_at_depth, depth};
#[allow(unused_imports)]
use crate::dag::{lemma_ancestor_at_depth, lemma_ancestor_depth, lemma_ancestor_earlier,
    lemma_ancestor_is_reached, lemma_ancestor_transitive, lemma_ancestor_unique,
    lemma_ancestors_chain, lemma_reaches_antisymmetric, lemma_reaches_earlier,
    lemma_reaches_step, lemma_reaches_transitive, lemma_root_is_ancestor};
use crate::finish::{flagged, PivotUpdate};
#[allow(unused_imports)]
use crate::frames::{lemma_same_below, same_origins};
use crate::frames::{same_origin, same_weight};
use crate::model::{era_height, in_own_epoch, in_past, in_subtree, limits_ok, links_ok, parents_of,
    past_weights_ok, subtree_weight, tree_weights, weight_of, weights};
use crate::order::distinct_hashes;
use crate::path_tree::is_lowest_common_ancestor;
use crate::rule::{in_past_subtree, past_subtree_weight};
#[allow(unused_imports)]
use crate::rule::lemma_seen_is_past;
use crate::state::ConsensusGraphInner;
#[allow(unused_imports)]
use crate::state::{lemma_node, lemma_weight_bounds};
use crate::sums::{masked, sum_to};
#[allow(unused_imports)]
use crate::sums::{lemma_sum_added, lemma_sum_congruent, lemma_sum_ordered, lemma_sum_tail_zero};
use crate::types::BlockHeader;
use crate::validity::{fork_is_wrong, has_correct_parent, passes_first_look,
    passes_first_look_at, shows_wrong_parent};
#[allow(unused_imports)]
use crate::validity::lemma_heavier_total;

verus! {

/// The weights of the subtrees in the past of `me`.
pub open spec fn past_weights(
    conf: ConsensusInnerConfig,
    nodes: Seq<ConsensusGraphNode>,
    me: int,
) -> spec_fn(int) -> int {
    |x: int| past_subtree_weight(conf, nodes, me, x)
}

/// The block hangs under a fully valid block, which is the right parent for all
/// that it adds to the view of that block.
pub open spec fn well_hung(
    conf: ConsensusInnerConfig,
    nodes: Seq<ConsensusGraphNode>,
    me: int,
) -> bool {
    &&& !nodes[nodes[me].parent as int].data.partial_invalid
    &&& has_correct_parent(nodes, past_weights(conf, nodes, me), me)
}

/// Every fully valid block hangs well.
pub open spec fn all_well_hung(
    conf: ConsensusInnerConfig,
    nodes: Seq<ConsensusGraphNode>,
) -> bool {
    forall|x: int|
        0 < x < nodes.len() && !(#[trigger] nodes[x]).data.partial_invalid ==> well_hung(
            conf,
            nodes,
            x,
        )
}

/// Of all fully valid blocks that `me` sees beside the path to its parent, none
/// is below the parent, and none is in a heavier branch where the two part.
pub open spec fn ends_heaviest_branch(
    conf: ConsensusInnerConfig,
    nodes: Seq<ConsensusGraphNode>,
    me: int,
) -> bool {
    forall|y: int|
        #[trigger] in_past(dag_of(nodes), me)(y) && !ancestor(
            parents_of(nodes),
            y,
            nodes[me].parent as int,
        ) ==> !shows_wrong_parent(
            nodes,
            past_weights(conf, nodes, me),
            nodes[me].parent as int,
            y,
        )
}

/// What a block sees of a subtree is no less than what its parent sees, and no
/// more if it adds nothing of weight to it.
proof fn lemma_past_of_child(
    conf: ConsensusInnerConfig,
    nodes: Seq<ConsensusGraphNode>,
    me: int,
    x: int,
)
    requires
        links_ok(nodes),
        limits_ok(conf, nodes),
        0 < me < nodes.len(),
    ensures
        ({
            let p = nodes[me].parent as int;
            let par = parents_of(nodes);
            &&& past_subtree_weight(conf, nodes, me, x) >= past_subtree_weight(conf, nodes, p, x)
            &&& !ancestor(par, x, p) && (forall|z: int|
                #[trigger] in_own_epoch(dag_of(nodes), me, z) && ancestor(par, x, z)
                    ==> nodes[z].data.partial_invalid) ==> past_subtree_weight(conf, nodes, me, x)
                == past_subtree_weight(conf, nodes, p, x)
        }),
{
    let g = dag_of(nodes);
    let par = parents_of(nodes);
    lemma_node(nodes, me);
    let p = nodes[me].parent as int;
    let w = weights(conf, nodes);
    let f = masked(in_past_subtree(nodes, me, x), w);
    let h = masked(in_past_subtree(nodes, p, x), w);
    assert(g.edge(me, p));
    assert forall|y: int| p <= y < me implies #[trigger] h(y) == 0 by {
        if g.reaches(p, y) {
            lemma_reaches_earlier(g, p, y);
        }
    }
    lemma_sum_tail_zero(h, p as nat, me as nat);
    assert forall|y: int| 0 <= y < me implies #[trigger] h(y) <= f(y) by {
        lemma_weight_bounds(conf, nodes, y);
        if g.reaches(p, y) {
            lemma_reaches_step(g, me, p, y);
        }
    }
    lemma_sum_ordered(h, f, me as nat);
    if !ancestor(par, x, p) && (forall|z: int|
        #[trigger] in_own_epoch(g, me, z) && ancestor(par, x, z) ==> nodes[z].data.partial_invalid)
    {
        assert forall|y: int| 0 <= y < me implies #[trigger] f(y) == h(y) by {
            if g.reaches(p, y) {
                lemma_reaches_step(g, me, p, y);
            } else if g.reaches(me, y) && ancestor(par, x, y) {
                assert(in_own_epoch(g, me, y));
                assert(nodes[y].data.partial_invalid);
            }
        }
        lemma_sum_congruent(f, h, me as nat);
    }
}

/// Two blocks in different branches under `a` part at `a`.
proof fn lemma_part_at(par: Seq<usize>, a: int, fork: int, pivot: int, y: int, p: int)
    requires
        crate::dag::rooted(par),
        0 <= y < par.len(),
        0 <= p < par.len(),
        ancestor(par, a, fork),
        ancestor(par, a, pivot),
        ancestor(par, fork, y),
        ancestor(par, pivot, p),
        fork != pivot,
        depth(par, fork) == depth(par, a) + 1,
        depth(par, pivot) == depth(par, a) + 1,
    ensures
        is_lowest_common_ancestor(par, y, p, a),
        ancestor_at_depth(par, y, depth(par, a) + 1) == fork,
        ancestor_at_depth(par, p, depth(par, a) + 1) == pivot,
{
    lemma_ancestor_unique(par, fork, y);
    lemma_ancestor_unique(par, pivot, p);
    lemma_ancestor_transitive(par, a, fork, y);
    lemma_ancestor_transitive(par, a, pivot, p);
    assert forall|z: int| #[trigger] ancestor(par, z, y) && ancestor(par, z, p) implies ancestor(
        par,
        z,
        a,
    ) by {
        if depth(par, z) <= depth(par, a) {
            lemma_ancestors_chain(par, z, a, y);
        } else {
            lemma_ancestors_chain(par, fork, z, y);
            lemma_ancestors_chain(par, pivot, z, p);
            lemma_ancestor_earlier(par, z, y);
            lemma_ancestor_unique(par, fork, z);
            lemma_ancestor_unique(par, pivot, z);
        }
    }
}

/// A block that the parent saw shows no wrong parent, if it showed none to the
/// parent.
proof fn lemma_inherited(
    conf: ConsensusInnerConfig,
    nodes: Seq<ConsensusGraphNode>,
    me: int,
    y: int,
    a: int,
)
    requires
        links_ok(nodes),
        limits_ok(conf, nodes),
        distinct_hashes(nodes),
        0 < me < nodes.len(),
        well_hung(conf, nodes, me),
        nodes[me].parent > 0,
        in_past(dag_of(nodes), nodes[me].parent as int)(y),
        !ancestor(parents_of(nodes), y, nodes[me].parent as int),
        !nodes[y].data.partial_invalid,
        !shows_wrong_parent(
            nodes,
            past_weights(conf, nodes, nodes[me].parent as int),
            nodes[nodes[me].parent as int].parent as int,
            y,
        ),
        is_lowest_common_ancestor(parents_of(nodes), y, nodes[me].parent as int, a),
    ensures
        !fork_is_wrong(
            nodes,
            past_weights(conf, nodes, me),
            nodes[me].parent as int,
            y,
            a,
        ),
{
    let g = dag_of(nodes);
    let par = g.parent;
    lemma_node(nodes, me);
    let p = nodes[me].parent as int;
    lemma_node(nodes, p);
    let q = nodes[p].parent as int;
    let w = past_weights(conf, nodes, me);
    let v = past_weights(conf, nodes, p);
    lemma_reaches_earlier(g, p, y);
    lemma_ancestor_earlier(par, a, p);
    assert(a != p) by {
        if a == p {
            lemma_ancestor_is_reached(g, p, y);
            lemma_reaches_antisymmetric(g, p, y);
        }
    }
    assert(a != y);
    assert(ancestor(par, a, q));
    assert(ancestor(par, q, p)) by {
        assert(ancestor(par, q, q));
    }
    assert(is_lowest_common_ancestor(par, y, q, a)) by {
        assert forall|z: int|
            #[trigger] ancestor(par, z, y) && ancestor(par, z, q) implies ancestor(par, z, a) by {
            lemma_ancestor_transitive(par, z, q, p);
        }
    }
    if depth(par, a) >= era_height(depth(par, p) as int, 0) {
        assert(era_height(depth(par, q) as int, 0) <= era_height(depth(par, p) as int, 0));
        assert(!fork_is_wrong(nodes, v, q, y, a));
        assert(a != q);
        let h = depth(par, a) + 1;
        lemma_ancestor_depth(par, a, y);
        lemma_ancestor_depth(par, a, q);
        lemma_ancestor_depth(par, q, p);
        lemma_ancestor_at_depth(par, y, h);
        lemma_ancestor_at_depth(par, q, h);
        lemma_ancestor_at_depth(par, p, h);
        let fork = ancestor_at_depth(par, y, h);
        let pivot = ancestor_at_depth(par, q, h);
        lemma_ancestor_transitive(par, pivot, q, p);
        lemma_ancestor_unique(par, pivot, p);
        assert(ancestor_at_depth(par, p, h) == pivot);
        assert(fork != pivot) by {
            if fork == pivot {
                assert(ancestor(par, fork, a));
                lemma_ancestor_depth(par, fork, a);
            }
        }
        lemma_ancestors_chain(par, a, fork, y);
        lemma_ancestors_chain(par, a, pivot, q);
        assert(nodes[fork].hash != nodes[pivot].hash);
        lemma_heavier_total(v(fork), nodes[fork].hash, v(pivot), nodes[pivot].hash);
        lemma_past_of_child(conf, nodes, me, fork);
        lemma_past_of_child(conf, nodes, me, pivot);
        assert(!ancestor(par, fork, p)) by {
            if ancestor(par, fork, p) {
                lemma_ancestor_unique(par, fork, p);
            }
        }
        if exists|z: int|
            #[trigger] in_own_epoch(g, me, z) && ancestor(par, fork, z)
                && !nodes[z].data.partial_invalid {
            let z = choose|z: int|
                #[trigger] in_own_epoch(g, me, z) && ancestor(par, fork, z)
                    && !nodes[z].data.partial_invalid;
            lemma_reaches_earlier(g, me, z);
            lemma_part_at(par, a, fork, pivot, z, p);
            assert(!shows_wrong_parent(nodes, w, p, z));
            assert(!fork_is_wrong(nodes, w, p, z, a));
        }
    }
}

/// If every fully valid block hangs well, each of them ends the heaviest branch
/// that it sees.
pub proof fn lemma_valid_ends_heaviest(
    conf: ConsensusInnerConfig,
    nodes: Seq<ConsensusGraphNode>,
    me: int,
)
    requires
        links_ok(nodes),
        limits_ok(conf, nodes),
        distinct_hashes(nodes),
        all_well_hung(conf, nodes),
        0 < me < nodes.len(),
        !nodes[me].data.partial_invalid,
    ensures
        ends_heaviest_branch(conf, nodes, me),
    decreases me,
{
    let g = dag_of(nodes);
    let par = g.parent;
    lemma_node(nodes, me);
    let p = nodes[me].parent as int;
    assert(well_hung(conf, nodes, me));
    let w = past_weights(conf, nodes, me);
    if p > 0 {
        lemma_node(nodes, p);
        lemma_valid_ends_heaviest(conf, nodes, p);
    }
    assert forall|y: int|
        #[trigger] in_past(g, me)(y) && !ancestor(par, y, p) implies !shows_wrong_parent(
        nodes,
        w,
        p,
        y,
    ) by {
        if g.reaches(p, y) {
            lemma_reaches_earlier(g, p, y);
            assert(y != p) by {
                assert(ancestor(par, p, p));
            }
            if p == 0 {
                assert(false);
            }
            assert(in_past(g, p)(y));
            let q = nodes[p].parent as int;
            assert(!ancestor(par, y, q)) by {
                if ancestor(par, y, q) {
                    assert(ancestor(par, y, p));
                }
            }
            if !nodes[y].data.partial_invalid {
                assert forall|a: int| #[trigger]
                    is_lowest_common_ancestor(par, y, p, a) implies !fork_is_wrong(
                    nodes,
                    w,
                    p,
                    y,
                    a,
                ) by {
                    lemma_inherited(conf, nodes, me, y, a);
                }
            }
        } else {
            assert(in_own_epoch(g, me, y));
        }
    }
}

/// How a block hangs depends on it and the blocks before it alone.
proof fn lemma_hung_same(
    conf: ConsensusInnerConfig,
    a: Seq<ConsensusGraphNode>,
    c: Seq<ConsensusGraphNode>,
    x: int,
)
    requires
        links_ok(a),
        links_ok(c),
        0 < x < a.len(),
        x < c.len(),
        same_origins(a, c, x as nat + 1),
        forall|i: int|
            #![trigger a[i]]
            #![trigger c[i]]
            0 <= i < x ==> same_weight(a[i], c[i]) && a[i].hash == c[i].hash,
        well_hung(conf, a, x),
    ensures
        well_hung(conf, c, x),
{
    let g = dag_of(a);
    let h = dag_of(c);
    let u = past_weights(conf, a, x);
    let v = past_weights(conf, c, x);
    lemma_same_below(a, c, x as nat + 1);
    lemma_node(a, x);
    lemma_node(c, x);
    assert(same_origin(a[x], c[x]));
    let p = a[x].parent as int;
    assert forall|z: int| #[trigger] u(z) == v(z) by {
        let f = masked(in_past_subtree(a, x, z), weights(conf, a));
        let f2 = masked(in_past_subtree(c, x, z), weights(conf, c));
        assert forall|y: int| 0 <= y < x implies #[trigger] f(y) == f2(y) by {
            assert(same_weight(a[y], c[y]));
            assert(g.reaches(x, y) == h.reaches(x, y));
            assert(ancestor(g.parent, z, y) == ancestor(h.parent, z, y));
        }
        lemma_sum_congruent(f, f2, x as nat);
    }
    assert(same_weight(a[p], c[p]));
    assert forall|y: int| #[trigger] in_own_epoch(h, x, y) implies !shows_wrong_parent(
        c,
        v,
        p,
        y,
    ) by {
        assert(h.reaches(x, y) == g.reaches(x, y));
        lemma_reaches_earlier(h, x, y);
        assert(h.reaches(p, y) == g.reaches(p, y));
        assert(in_own_epoch(g, x, y));
        assert(!shows_wrong_parent(a, u, p, y));
        assert(same_weight(a[y], c[y]));
        if shows_wrong_parent(c, v, p, y) {
            let b = choose|b: int| #[trigger]
                is_lowest_common_ancestor(h.parent, y, p, b) && fork_is_wrong(c, v, p, y, b);
            lemma_ancestor_earlier(h.parent, b, p);
            assert(is_lowest_common_ancestor(g.parent, y, p, b)) by {
                assert(ancestor(h.parent, b, y) == ancestor(g.parent, b, y));
                assert(ancestor(h.parent, b, p) == ancestor(g.parent, b, p));
                assert forall|z: int|
                    #[trigger] ancestor(g.parent, z, y) && ancestor(
                        g.parent,
                        z,
                        p,
                    ) implies ancestor(g.parent, z, b) by {
                    assert(ancestor(h.parent, z, y));
                    assert(ancestor(h.parent, z, p));
                    assert(ancestor(h.parent, z, b) == ancestor(g.parent, z, b));
                }
            }
            if b != p {
                let d = depth(h.parent, b) + 1;
                lemma_ancestor_depth(h.parent, b, y);
                lemma_ancestor_depth(h.parent, b, p);
                if b == y {
                    lemma_ancestor_is_reached(h, y, p);
                }
                lemma_ancestor_at_depth(h.parent, y, d);
                lemma_ancestor_at_depth(h.parent, p, d);
                let fork = ancestor_at_depth(h.parent, y, d);
                let pivot = ancestor_at_depth(h.parent, p, d);
                assert(fork == ancestor_at_depth(g.parent, y, d));
                assert(pivot == ancestor_at_depth(g.parent, p, d));
                assert(a[fork].hash == c[fork].hash);
                assert(a[pivot].hash == c[pivot].hash);
                assert(u(fork) == v(fork) && u(pivot) == v(pivot));
            }
            assert(fork_is_wrong(a, u, p, y, b));
        }
    }
}

/// Fully valid blocks hang well: this stays so when a block is taken in and
/// settled.
pub proof fn lemma_well_hung_kept(
    before: ConsensusGraph,
    pending: ConsensusGraph,
    after: ConsensusGraph,
    block: BlockHeader,
    p: PendingBlock,
    fully_valid: bool,
    r: PivotUpdate,
)
    requires
        before.wf(),
        all_well_hung(before.inner.inner_conf, before.inner.nodes()),
        took_in(before, pending, block),
        pending.pending(p),
        fully_valid ==> p.parent_accepted,
        settled(pending, after, p, fully_valid, r),
        after.wf(),
    ensures
        all_well_hung(after.inner.inner_conf, after.inner.nodes()),
{
    let conf = before.inner.inner_conf;
    let a = before.inner.nodes();
    let b = pending.inner.nodes();
    let c = after.inner.nodes();
    let me = a.len() as int;
    assert(p.me == me);
    assert(before.inner.pivot_chain@[0] < a.len());
    let d = b.update(me, flagged(b[me], p.stable, p.adaptive, !fully_valid));
    assert forall|i: int|
        #![trigger a[i]]
        #![trigger c[i]]
        0 <= i < a.len() implies a[i].hash == c[i].hash && same_origin(a[i], c[i]) && same_weight(
        a[i],
        c[i],
    ) by {
        assert(b[i].hash == a[i].hash);
        assert(d[i] == b[i]);
        assert(c[i].hash == d[i].hash);
    }
    assert forall|i: int|
        #![trigger b[i]]
        #![trigger c[i]]
        0 <= i <= me implies same_origin(b[i], c[i]) && (i < me ==> same_weight(b[i], c[i])
        && b[i].hash == c[i].hash) by {
        assert(c[i].hash == d[i].hash);
        if i < me {
            assert(d[i] == b[i]);
        }
    }
    assert(c[me].data.partial_invalid == d[me].data.partial_invalid);
    if fully_valid {
        lemma_accepted_hangs_well(pending.inner, me);
    }
    lemma_all_well_hung(conf, a, b, c);
}

/// A block whose parent was accepted hangs well.
proof fn lemma_accepted_hangs_well(inner: ConsensusGraphInner, me: int)
    requires
        inner.linked(me),
        parent_accepted(inner.inner_conf, inner.nodes(), inner.pivot_chain@, me),
    ensures
        well_hung(inner.inner_conf, inner.nodes(), me),
{
    lemma_accepted_iff_hangs_well(inner, me);
}

/// The parent of a block is accepted if and only if the block hangs well, and the
/// first look does not refuse it.
pub proof fn lemma_accepted_iff_hangs_well(inner: ConsensusGraphInner, me: int)
    requires
        inner.linked(me),
    ensures
        parent_accepted(inner.inner_conf, inner.nodes(), inner.pivot_chain@, me) <==> well_hung(
            inner.inner_conf,
            inner.nodes(),
            me,
        ) && passes_first_look(inner.inner_conf, inner.nodes(), inner.pivot_chain@, me),
{
    let conf = inner.inner_conf;
    let b = inner.nodes();
    let g = dag_of(b);
    assert forall|z: int| #[trigger] g.reaches(me, z) && z != 0 implies weights_seen(conf, b, me)(
        z,
    ) == past_weights(conf, b, me)(z) by {
        lemma_reaches_earlier(g, me, z);
        if z < me {
            lemma_seen_is_past(conf, b, me, z);
        } else {
            lemma_own_subtree_unseen(conf, b, me);
        }
    }
    inner.lemma_correct_parent_same(
        me,
        weights_seen(conf, b, me),
        past_weights(conf, b, me),
    );
}

/// The blocks `c` hang well if the old ones in `a` did and the new one in `b`
/// does.
proof fn lemma_all_well_hung(
    conf: ConsensusInnerConfig,
    a: Seq<ConsensusGraphNode>,
    b: Seq<ConsensusGraphNode>,
    c: Seq<ConsensusGraphNode>,
)
    requires
        links_ok(a),
        links_ok(b),
        links_ok(c),
        a.len() > 0,
        b.len() == a.len() + 1,
        c.len() == a.len() + 1,
        all_well_hung(conf, a),
        !c[a.len() as int].data.partial_invalid ==> well_hung(conf, b, a.len() as int),
        forall|i: int|
            #![trigger a[i]]
            #![trigger c[i]]
            0 <= i < a.len() ==> a[i].hash == c[i].hash && same_origin(a[i], c[i]) && same_weight(
                a[i],
                c[i],
            ),
        forall|i: int|
            #![trigger b[i]]
            #![trigger c[i]]
            0 <= i <= a.len() ==> same_origin(b[i], c[i]) && (i < a.len() ==> same_weight(
                b[i],
                c[i],
            ) && b[i].hash == c[i].hash),
    ensures
        all_well_hung(conf, c),
{
    let me = a.len() as int;
    assert forall|x: int|
        0 < x < c.len() && !(#[trigger] c[x]).data.partial_invalid implies well_hung(
        conf,
        c,
        x,
    ) by {
        if x < me {
            assert(same_weight(a[x], c[x]));
            assert(well_hung(conf, a, x));
            lemma_hung_same(conf, a, c, x);
        } else {
            lemma_hung_same(conf, b, c, me);
        }
    }
}

/// A block sees nothing of its own subtree.
proof fn lemma_own_subtree_unseen(
    conf: ConsensusInnerConfig,
    nodes: Seq<ConsensusGraphNode>,
    me: int,
)
    requires
        0 < me == nodes.len() - 1,
    ensures
        weights_seen(conf, nodes, me)(me) == 0,
        past_weights(conf, nodes, me)(me) == 0,
{
    let par = parents_of(nodes);
    let barrier = crate::anticone::barrier_of(dag_of(nodes), me);
    let f = masked(
        |y: int| ancestor(par, me, y) && crate::removal::not_below(par, barrier, y),
        crate::model::tree_weights(conf, nodes),
    );
    let h = masked(in_past_subtree(nodes, me, me), weights(conf, nodes));
    assert forall|y: int| 0 <= y < me implies #[trigger] f(y) == 0 && h(y) == 0 by {
        if ancestor(par, me, y) {
            lemma_ancestor_earlier(par, me, y);
        }
    }
    assert forall|y: int| 0 <= y < me implies #[trigger] h(y) == 0 by {
        assert(f(y) == 0);
    }
    crate::sums::lemma_sum_zero(f, me as nat);
    crate::sums::lemma_sum_zero(h, me as nat);
}

/// In a graph of the genesis block alone, every fully valid block hangs well.
pub proof fn lemma_genesis_well_hung(graph: ConsensusGraph)
    requires
        graph.inner.size() == 1,
    ensures
        all_well_hung(graph.inner.inner_conf, graph.inner.nodes()),
{
}

/// At the fork between the chain and the new block, the branch of the chain
/// weighs more than that of the block, in the view of the block and even with
/// its own weight.
pub open spec fn outweighed_at(
    conf: ConsensusInnerConfig,
    nodes: Seq<ConsensusGraphNode>,
    chain: Seq<usize>,
    me: int,
    lca: int,
) -> bool {
    let par = parents_of(nodes);
    let at = depth(par, lca) + 1;
    &&& at < chain.len()
    &&& past_subtree_weight(conf, nodes, me, chain[at as int] as int) > past_subtree_weight(
        conf,
        nodes,
        me,
        ancestor_at_depth(par, me, at),
    ) + weight_of(conf, nodes[me])
}

/// A block sees no less than a block that it sees.
proof fn lemma_past_of_seen(
    conf: ConsensusInnerConfig,
    nodes: Seq<ConsensusGraphNode>,
    me: int,
    seen: int,
)
    requires
        limits_ok(conf, nodes),
        past_weights_ok(conf, nodes, nodes.len()),
        0 < me < nodes.len(),
        dag_of(nodes).reaches(me, seen),
    ensures
        0 <= seen <= me,
        nodes[seen].past_weight <= nodes[me].past_weight,
{
    let g = dag_of(nodes);
    let w = weights(conf, nodes);
    lemma_reaches_earlier(g, me, seen);
    let past = masked(in_past(g, me), w);
    let below = masked(in_past(g, seen), w);
    assert(nodes[me].past_weight == sum_to(past, me as nat) && nodes[seen].past_weight == sum_to(
        below,
        seen as nat,
    )) by {
        reveal(past_weights_ok);
    }
    assert forall|y: int| seen <= y < me implies #[trigger] below(y) == 0 by {
        if g.reaches(seen, y) {
            lemma_reaches_earlier(g, seen, y);
        }
    }
    lemma_sum_tail_zero(below, seen as nat, me as nat);
    assert forall|y: int| 0 <= y < me implies #[trigger] below(y) <= past(y) by {
        lemma_weight_bounds(conf, nodes, y);
        if g.reaches(seen, y) {
            lemma_reaches_transitive(g, me, seen, y);
        }
    }
    lemma_sum_ordered(below, past, me as nat);
}

/// What a block does not see of a branch is no more than what it does not see at
/// all, and what it sees of a branch is no more than the whole.
proof fn lemma_unseen_bounded(
    conf: ConsensusInnerConfig,
    nodes: Seq<ConsensusGraphNode>,
    me: int,
    s: int,
)
    requires
        links_ok(nodes),
        limits_ok(conf, nodes),
        past_weights_ok(conf, nodes, nodes.len()),
        0 < me < nodes.len(),
        weight_of(conf, nodes[0]) == nodes[0].difficulty.value(),
    ensures
        subtree_weight(conf, nodes, me as nat, s) + nodes[me].past_weight <= subtree_weight(
            conf,
            nodes,
            me as nat,
            0,
        ) + past_subtree_weight(conf, nodes, me, s),
        past_subtree_weight(conf, nodes, me, s) <= subtree_weight(conf, nodes, me as nat, s),
{
    let par = parents_of(nodes);
    let g = dag_of(nodes);
    let k = me as nat;
    let tw = tree_weights(conf, nodes);
    let w = weights(conf, nodes);
    lemma_node(nodes, me);
    let past = masked(in_past(g, me), w);
    let branch = masked(in_subtree(par, s), tw);
    let branch_seen = masked(in_past_subtree(nodes, me, s), w);
    let all = masked(in_subtree(par, 0), tw);
    let left = |y: int| branch(y) + past(y);
    let right = |y: int| all(y) + branch_seen(y);
    assert forall|y: int| 0 <= y < me implies #[trigger] left(y) <= right(y) by {
        lemma_weight_bounds(conf, nodes, y);
        lemma_root_is_ancestor(par, y);
    }
    lemma_sum_ordered(left, right, k);
    lemma_sum_added(branch, past, left, k);
    lemma_sum_added(all, branch_seen, right, k);
    assert(nodes[me].past_weight == sum_to(past, k)) by {
        reveal(past_weights_ok);
    }
    assert forall|y: int| 0 <= y < me implies #[trigger] branch_seen(y) <= branch(y) by {
        lemma_weight_bounds(conf, nodes, y);
    }
    lemma_sum_ordered(branch_seen, branch, k);
}

/// A block that fails the first look did choose the wrong branch: where it
/// leaves the pivot chain, the branch of the chain weighs more in its own view.
pub proof fn lemma_first_look_sound(inner: ConsensusGraphInner, me: int)
    requires
        inner.linked(me),
        weight_of(inner.inner_conf, inner.nodes()[0])
            == inner.nodes()[0].difficulty.value(),
        !passes_first_look(inner.inner_conf, inner.nodes(), inner.pivot_chain@, me),
    ensures
        exists|lca: int| #[trigger]
            is_lowest_common_ancestor(
                inner.parents(),
                inner.pivot_chain@.last() as int,
                me,
                lca,
            ) && outweighed_at(
                inner.inner_conf,
                inner.nodes(),
                inner.pivot_chain@,
                me,
                lca,
            ),
{
    let conf = inner.inner_conf;
    let nodes = inner.nodes();
    let chain = inner.pivot_chain@;
    let par = parents_of(nodes);
    lemma_node(nodes, me);
    let (lca, last_pivot) = choose|lca: int, last_pivot: usize|
        #[trigger] is_lowest_common_ancestor(par, chain.last() as int, me, lca)
            && #[trigger] is_last_pivot_below(nodes, me, last_pivot) && !passes_first_look_at(
            conf,
            nodes,
            chain,
            me,
            lca,
            last_pivot,
        );
    lemma_pivot_below_sound(nodes, chain, me, last_pivot);
    let at = depth(par, lca) + 1;
    lemma_past_of_seen(conf, nodes, me, chain[last_pivot as int] as int);
    lemma_unseen_bounded(conf, nodes, me, chain[at as int] as int);
    lemma_unseen_bounded(conf, nodes, me, ancestor_at_depth(par, me, at));
    assert(outweighed_at(conf, nodes, chain, me, lca));
}

} // verus!
