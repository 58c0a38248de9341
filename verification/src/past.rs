//! The weight of the past of a block, from that of its parent.

use vstd::prelude::*;
use crate::arena::{dag_of, ConsensusGraphNode};
use crate::config::{ConsensusInnerConfig, ERA_EPOCH_COUNT};
use crate::dag::{ancestor, ancestor_at_depth, depth, rooted};
#[allow(unused_imports)]
use crate::dag::{lemma_ancestor_at_depth, lemma_ancestor_earlier, lemma_reaches_earlier,
    lemma_reaches_step};
use crate::model::{era_genesis, era_height, in_era_past, in_own_epoch, in_past, limits_ok,
    links_ok, past_weights_ok, total_cap, tree_shape, weight_cap, weight_limit, weights};
#[allow(unused_imports)]
use crate::order::lemma_edges_listed;
use crate::state::ConsensusGraphInner;
#[allow(unused_imports)]
use crate::state::{lemma_masked_weight_bounds, lemma_node, lemma_weight_bounds};
use crate::sums::{masked, sum_to};
#[allow(unused_imports)]
use crate::sums::{lemma_sum_added, lemma_sum_single, lemma_sum_tail_zero};

verus! {

/// The block that opens the era of the children of `p` is an ancestor of `p`,
/// and unless it is `p` itself it opens the era of `p` too.
pub proof fn lemma_era_genesis_step(parent: Seq<usize>, p: int)
    requires
        rooted(parent),
        0 <= p < parent.len(),
    ensures
        ancestor(parent, era_genesis(parent, p), p),
        0 <= era_genesis(parent, p) <= p,
        0 <= era_height(depth(parent, p) as int, 0) <= depth(parent, p),
        depth(parent, era_genesis(parent, p)) == era_height(depth(parent, p) as int, 0),
        p != era_genesis(parent, p) ==> p > 0 && era_genesis(parent, parent[p] as int)
            == era_genesis(parent, p),
{
    let d = depth(parent, p);
    let h = era_height(d as int, 0) as nat;
    lemma_ancestor_at_depth(parent, p, h);
    if p != era_genesis(parent, p) {
        assert(d > h);
        assert(p > 0);
        assert(depth(parent, parent[p] as int) == d - 1);
        assert(era_height(d - 1, 0) == h);
    }
}

/// The past of a block is the past of its parent, the parent and the own
/// epoch of the block.
pub proof fn lemma_past_step(
    conf: ConsensusInnerConfig,
    nodes: Seq<ConsensusGraphNode>,
    me: int,
)
    requires
        links_ok(nodes),
        0 < me < nodes.len(),
        past_weights_ok(conf, nodes, me as nat),
    ensures
        ({
            let g = dag_of(nodes);
            let p = nodes[me].parent as int;
            sum_to(masked(in_past(g, me), weights(conf, nodes)), me as nat)
                == nodes[p].past_weight + weights(conf, nodes)(p) + sum_to(
                masked(|y: int| in_own_epoch(g, me, y), weights(conf, nodes)),
                me as nat,
            )
        }),
{
    let g = dag_of(nodes);
    let w = weights(conf, nodes);
    lemma_node(nodes, me);
    let p = nodes[me].parent as int;
    let own = |y: int| in_own_epoch(g, me, y);
    let f = masked(in_past(g, me), w);
    let f1 = masked(in_past(g, p), w);
    let at_p = |y: int| y == p;
    let f2 = masked(at_p, w);
    let f3 = masked(own, w);
    let f12 = |i: int| f1(i) + f2(i);
    lemma_edges_listed(nodes, me, p);
    assert forall|i: int| 0 <= i < me implies #[trigger] f(i) == f12(i) + f3(i) by {
        lemma_parent_view(nodes, me, i);
    }
    lemma_sum_added(f12, f3, f, me as nat);
    lemma_sum_added(f1, f2, f12, me as nat);
    assert forall|i: int| p <= i < me implies #[trigger] f1(i) == 0 by {
        if g.reaches(p, i) {
            lemma_reaches_earlier(g, p, i);
        }
    }
    lemma_sum_tail_zero(f1, p as nat, me as nat);
    lemma_sum_single(f2, me as nat, p);
    assert(nodes[p].past_weight == sum_to(f1, p as nat)) by {
        reveal(past_weights_ok);
    }
}

/// A block sees what its parent sees, and its own epoch.
proof fn lemma_parent_view(nodes: Seq<ConsensusGraphNode>, me: int, i: int)
    requires
        links_ok(nodes),
        0 < me < nodes.len(),
    ensures
        ({
            let g = dag_of(nodes);
            let p = nodes[me].parent as int;
            &&& g.reaches(p, i) ==> g.reaches(me, i)
            &&& g.reaches(me, p)
            &&& in_own_epoch(g, me, i) <==> i != me && g.reaches(me, i) && !g.reaches(p, i)
            &&& g.reaches(p, i) ==> i != me
        }),
{
    let g = dag_of(nodes);
    lemma_node(nodes, me);
    let p = nodes[me].parent as int;
    lemma_edges_listed(nodes, me, p);
    lemma_reaches_step(g, me, p, p);
    if g.reaches(p, i) {
        lemma_reaches_step(g, me, p, i);
        lemma_reaches_earlier(g, p, i);
    }
}

/// The same within the era of the block.
pub proof fn lemma_era_past_step(
    conf: ConsensusInnerConfig,
    nodes: Seq<ConsensusGraphNode>,
    me: int,
)
    requires
        links_ok(nodes),
        0 < me < nodes.len(),
        past_weights_ok(conf, nodes, me as nat),
    ensures
        ({
            let g = dag_of(nodes);
            let p = nodes[me].parent as int;
            let e = era_genesis(g.parent, p);
            sum_to(masked(in_era_past(g, me), weights(conf, nodes)), me as nat) == (if p != e {
                nodes[p].past_era_weight as int
            } else {
                0
            }) + weights(conf, nodes)(p) + sum_to(
                masked(
                    |y: int| in_own_epoch(g, me, y) && ancestor(g.parent, e, y),
                    weights(conf, nodes),
                ),
                me as nat,
            )
        }),
{
    let g = dag_of(nodes);
    let w = weights(conf, nodes);
    lemma_node(nodes, me);
    let p = nodes[me].parent as int;
    lemma_node(nodes, p);
    let e = era_genesis(g.parent, p);
    lemma_era_genesis_step(g.parent, p);
    let own = |y: int| in_own_epoch(g, me, y) && ancestor(g.parent, e, y);
    let f = masked(in_era_past(g, me), w);
    let before = |y: int| p != e && y != p && g.reaches(p, y) && ancestor(g.parent, e, y);
    let f1 = masked(before, w);
    let at_p = |y: int| y == p;
    let f2 = masked(at_p, w);
    let f3 = masked(own, w);
    let f12 = |i: int| f1(i) + f2(i);
    assert forall|i: int| 0 <= i < me implies #[trigger] f(i) == f12(i) + f3(i) by {
        lemma_parent_view(nodes, me, i);
        if p == e && g.reaches(p, i) && ancestor(g.parent, e, i) {
            lemma_reaches_earlier(g, p, i);
            lemma_ancestor_earlier(g.parent, e, i);
            assert(i == p);
        }
    }
    lemma_sum_added(f12, f3, f, me as nat);
    lemma_sum_added(f1, f2, f12, me as nat);
    assert forall|i: int| p <= i < me implies #[trigger] f1(i) == 0 by {
        if g.reaches(p, i) {
            lemma_reaches_earlier(g, p, i);
        }
    }
    lemma_sum_tail_zero(f1, p as nat, me as nat);
    lemma_sum_single(f2, me as nat, p);
    if p != e {
        let fp = masked(in_era_past(g, p), w);
        assert(nodes[p].past_era_weight == sum_to(fp, p as nat)) by {
            reveal(past_weights_ok);
        }
        assert forall|i: int| 0 <= i < p implies #[trigger] f1(i) == fp(i) by {}
        crate::sums::lemma_sum_congruent(f1, fp, p as nat);
    } else {
        assert forall|i: int| 0 <= i < p implies #[trigger] f1(i) == 0 by {}
        crate::sums::lemma_sum_zero(f1, p as nat);
    }
}

/// Recorded past weights lie between nothing and the cap of all blocks.
pub proof fn lemma_recorded_bounds(
    conf: ConsensusInnerConfig,
    nodes: Seq<ConsensusGraphNode>,
    k: nat,
    x: int,
)
    requires
        limits_ok(conf, nodes),
        past_weights_ok(conf, nodes, k),
        0 <= x < k <= nodes.len(),
    ensures
        0 <= nodes[x].past_weight <= total_cap(conf, nodes) <= weight_limit(),
        0 <= nodes[x].past_era_weight <= total_cap(conf, nodes),
{
    let g = dag_of(nodes);
    let w = weights(conf, nodes);
    reveal(past_weights_ok);
    assert forall|i: int| 0 <= i < nodes.len() implies 0 <= #[trigger] w(i) <= weight_cap(conf)(
        nodes[i],
    ) by {
        lemma_weight_bounds(conf, nodes, i);
    }
    lemma_masked_weight_bounds(conf, nodes, in_past(g, x), w, x as nat);
    lemma_masked_weight_bounds(conf, nodes, in_era_past(g, x), w, x as nat);
    assert(nodes[x].past_weight == sum_to(masked(in_past(g, x), w), x as nat));
    if x > 0 {
        assert(nodes[x].past_era_weight == sum_to(masked(in_era_past(g, x), w), x as nat));
    }
}

impl ConsensusGraphInner {
    /// The height at which the era begins that a child of a block at
    /// `parent_height` looks back to, `offset` epochs late.
    pub fn get_era_height(&self, parent_height: u64, offset: usize) -> (h: u64)
        ensures
            h == era_height(parent_height as int, offset as int),
            h <= parent_height,
    {
        if parent_height > offset as u64 {
            let eras: u64 = (parent_height - offset as u64) / (ERA_EPOCH_COUNT as u64);
            proof {
                let d = parent_height - offset;
                assert(eras == d / 10000);
                assert(eras * 10000 <= d);
            }
            eras * (ERA_EPOCH_COUNT as u64)
        } else {
            0
        }
    }

    /// The first block of that era on the path to `parent`.
    pub fn get_era_block_with_parent(&self, parent: usize, offset: usize) -> (block: usize)
        requires
            self.arena.wf(),
            links_ok(self.nodes()),
            tree_shape(self.trees.weight_tree, self.parents(), self.trees.weight_tree.len()),
            parent < self.trees.weight_tree.len(),
        ensures
            block == ancestor_at_depth(
                self.parents(),
                parent as int,
                era_height(self.nodes()[parent as int].height as int, offset as int) as nat,
            ),
            block <= parent,
    {
        proof {
            lemma_node(self.nodes(), parent as int);
        }
        let height: u64 = self.arena.get(parent).height;
        let era: u64 = self.get_era_height(height, offset);
        proof {
            self.lemma_tree_ancestor(parent as int, era as nat);
            lemma_ancestor_at_depth(self.parents(), parent as int, era as nat);
        }
        self.trees.weight_tree.ancestor_at(parent, era as usize)
    }
}

} // verus!
