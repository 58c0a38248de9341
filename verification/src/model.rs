//! What it means for the graph state to be right: the shape of the graph,
//! the views of the blocks, the weights, the epochs of the pivot chain and the
//! derived structures, each as a predicate on plain sequences.

use vstd::prelude::*;
use crate::arena::{dag_of, ConsensusGraphNode, ConsensusGraphPivotData};
use crate::bits::index_limit;
use crate::config::{ConsensusInnerConfig, ERA_EPOCH_COUNT};
use crate::dag::{ancestor, ancestor_at_depth, depth, Dag, NULL};
use crate::order::ordered_by_hash;
use crate::path_tree::PathTree;
use crate::sums::{masked, sum_to};
use crate::types::H256;

verus! {

/// The parents of the nodes.
pub open spec fn parents_of(nodes: Seq<ConsensusGraphNode>) -> Seq<usize> {
    dag_of(nodes).parent
}

/// Parents, referees, children, referrers, heights and sequence numbers agree
/// with each other.
#[verifier::opaque]
pub open spec fn links_ok(nodes: Seq<ConsensusGraphNode>) -> bool {
    &&& dag_of(nodes).well_formed()
    &&& nodes.len() <= index_limit()
    &&& forall|i: int|
        0 <= i < nodes.len() ==> (#[trigger] nodes[i]).height == depth(parents_of(nodes), i)
    &&& forall|p: int, j: int|
        0 <= p < nodes.len() && 0 <= j < nodes[p].children@.len() ==> {
            &&& (#[trigger] nodes[p].children@[j]) < nodes.len()
            &&& nodes[nodes[p].children@[j] as int].parent == p
        }
    &&& forall|c: int|
        0 < c < nodes.len() ==> nodes[(#[trigger] nodes[c]).parent as int].children@.contains(
            c as usize,
        )
    &&& forall|p: int| 0 <= p < nodes.len() ==> (#[trigger] nodes[p]).children@.no_duplicates()
    &&& forall|p: int, j: int|
        0 <= p < nodes.len() && 0 <= j < nodes[p].referrers@.len() ==> {
            &&& (#[trigger] nodes[p].referrers@[j]) < nodes.len()
            &&& nodes[nodes[p].referrers@[j] as int].referees@.contains(p as usize)
        }
    &&& forall|c: int, j: int|
        0 <= c < nodes.len() && 0 <= j < nodes[c].referees@.len()
            ==> nodes[(#[trigger] nodes[c].referees@[j]) as int].referrers@.contains(c as usize)
    &&& forall|i: int, j: int|
        0 <= i < j < nodes.len() ==> (#[trigger] nodes[i]).data.sequence_number < (
        #[trigger] nodes[j]).data.sequence_number
}

/// Hashes and indices determine each other.
pub open spec fn indices_ok(nodes: Seq<ConsensusGraphNode>, indices: Map<H256, usize>) -> bool {
    &&& forall|i: int|
        0 <= i < nodes.len() ==> indices.contains_key((#[trigger] nodes[i]).hash)
            && indices[nodes[i].hash] == i
    &&& forall|h: H256| #[trigger]
        indices.contains_key(h) ==> indices[h] < nodes.len() && nodes[indices[h] as int].hash == h
}

/// `y` belongs to the epoch that `x` would close as a pivot block, and is not
/// `x` itself: `x` sees it and the parent of `x` does not.
pub open spec fn in_own_epoch(g: Dag, x: int, y: int) -> bool {
    &&& y != x
    &&& g.reaches(x, y)
    &&& !(x > 0 && g.reaches(g.parent[x] as int, y))
}

/// In the list every block comes after the blocks of the list that it sees.
pub open spec fn respects_edges(g: Dag, list: Seq<usize>) -> bool {
    forall|i: int, j: int|
        0 <= i < list.len() && 0 <= j < list.len() && #[trigger] g.edge(
            list[i] as int,
            list[j] as int,
        ) ==> j < i
}

/// The first `k` blocks hold their epoch sets and the order of these, and the
/// range of epochs in which the first `k` blocks see them.
#[verifier::opaque]
pub open spec fn views_ok(nodes: Seq<ConsensusGraphNode>, k: nat) -> bool {
    &&& forall|x: int, y: usize|
        0 <= x < k ==> (#[trigger] nodes[x].data.blockset_in_own_view_of_epoch@.contains(y)
            <==> in_own_epoch(dag_of(nodes), x, y as int))
    &&& forall|x: int|
        0 <= x < k ==> epoch_list_ok(
            dag_of(nodes),
            x,
            (#[trigger] nodes[x]).data.ordered_epoch_blocks@,
        )
    &&& forall|x: int| 0 <= x < k ==> #[trigger] ordered_by_hash(nodes, x)
    &&& forall|x: int, y: int|
        0 <= x < k && 0 <= y < k && #[trigger] sees_as_own(dag_of(nodes), x, y)
            ==> nodes[y].data.min_epoch_in_other_views <= nodes[x].height
            <= nodes[y].data.max_epoch_in_other_views
    &&& forall|y: int| 0 <= y < k ==> #[trigger] min_epoch_attained(nodes, k, y)
    &&& forall|y: int| 0 <= y < k ==> #[trigger] max_epoch_attained(nodes, k, y)
}

/// One of the first `k` blocks sees `y` in the least epoch recorded for it.
pub open spec fn min_epoch_attained(nodes: Seq<ConsensusGraphNode>, k: nat, y: int) -> bool {
    exists|x: int|
        0 <= x < k && #[trigger] sees_as_own(dag_of(nodes), x, y)
            && nodes[y].data.min_epoch_in_other_views == nodes[x].height
}

/// One of the first `k` blocks sees `y` in the largest epoch recorded for it.
pub open spec fn max_epoch_attained(nodes: Seq<ConsensusGraphNode>, k: nat, y: int) -> bool {
    exists|x: int|
        0 <= x < k && #[trigger] sees_as_own(dag_of(nodes), x, y)
            && nodes[y].data.max_epoch_in_other_views == nodes[x].height
}

/// In the view of `x`, `y` belongs to the epoch of `x`.
pub open spec fn sees_as_own(g: Dag, x: int, y: int) -> bool {
    x == y || in_own_epoch(g, x, y)
}

/// The list holds `x` at the end, the blocks of its own epoch before it, each
/// once, and none before what it sees.
pub open spec fn epoch_list_ok(g: Dag, x: int, list: Seq<usize>) -> bool {
    &&& list.len() > 0
    &&& list.last() == x
    &&& list.no_duplicates()
    &&& forall|y: usize|
        #[trigger] list.contains(y) <==> (y == x || in_own_epoch(g, x, y as int))
    &&& respects_edges(g, list)
}

/// The weight of a block: always zero for a partially invalid block; the
/// difficulty for a block that is not adaptive; for an adaptive block the heavy
/// block ratio if it is heavy and zero otherwise.
pub open spec fn weight_of(conf: ConsensusInnerConfig, node: ConsensusGraphNode) -> int {
    if node.data.partial_invalid {
        0
    } else if !node.adaptive {
        node.difficulty.value()
    } else if node.is_heavy {
        conf.heavy_block_difficulty_ratio as int
    } else {
        0
    }
}

/// The weight of each block by index.
pub open spec fn weights(conf: ConsensusInnerConfig, nodes: Seq<ConsensusGraphNode>) -> spec_fn(
    int,
) -> int {
    |i: int| weight_of(conf, nodes[i])
}

/// The weight that each block contributes to the trees: the first block
/// always contributes its difficulty.
pub open spec fn tree_weights(
    conf: ConsensusInnerConfig,
    nodes: Seq<ConsensusGraphNode>,
) -> spec_fn(int) -> int {
    |i: int|
        if i == 0 {
            nodes[0].difficulty.value()
        } else {
            weight_of(conf, nodes[i])
        }
}

/// The first epoch of the era that a block at the given height and offset
/// belongs to.
pub open spec fn era_height(height: int, offset: int) -> int {
    if height > offset {
        (height - offset) / (ERA_EPOCH_COUNT as int) * ERA_EPOCH_COUNT
    } else {
        0
    }
}

/// The first block of the era of a child of `parent`.
pub open spec fn era_genesis(parent: Seq<usize>, p: int) -> int {
    ancestor_at_depth(parent, p, era_height(depth(parent, p) as int, 0) as nat)
}

/// `y` lies in the past of `x`.
pub open spec fn in_past(g: Dag, x: int) -> spec_fn(int) -> bool {
    |y: int| y != x && g.reaches(x, y)
}

/// `y` lies in the past of `x` and in the era of `x`.
pub open spec fn in_era_past(g: Dag, x: int) -> spec_fn(int) -> bool {
    |y: int|
        y != x && g.reaches(x, y) && ancestor(
            g.parent,
            era_genesis(g.parent, g.parent[x] as int),
            y,
        )
}

/// Each of the first `k` blocks records the weight of its past, and of its
/// past in its era.
/// The past of a block has smaller indices than the block.
#[verifier::opaque]
pub open spec fn past_weights_ok(
    conf: ConsensusInnerConfig,
    nodes: Seq<ConsensusGraphNode>,
    k: nat,
) -> bool {
    &&& forall|x: int|
        0 <= x < k ==> (#[trigger] nodes[x]).past_weight == sum_to(
            masked(in_past(dag_of(nodes), x), weights(conf, nodes)),
            x as nat,
        )
    &&& k > 0 ==> nodes[0].past_era_weight == 0
    &&& forall|x: int|
        0 < x < k ==> (#[trigger] nodes[x]).past_era_weight == sum_to(
            masked(in_era_past(dag_of(nodes), x), weights(conf, nodes)),
            x as nat,
        )
}

/// The most that a block can ever weigh.
pub open spec fn weight_cap(conf: ConsensusInnerConfig) -> spec_fn(ConsensusGraphNode) -> int {
    |n: ConsensusGraphNode| conf.heavy_block_difficulty_ratio + n.difficulty.value()
}

/// The most that all blocks together can weigh.
pub open spec fn total_cap(conf: ConsensusInnerConfig, nodes: Seq<ConsensusGraphNode>) -> int {
    sum_to(|i: int| weight_cap(conf)(nodes[i]), nodes.len())
}

/// The largest factor that a weight is multiplied with, plus one.
pub open spec fn scale(conf: ConsensusInnerConfig) -> int {
    1 + conf.adaptive_weight_alpha_num + conf.adaptive_weight_alpha_den + conf.adaptive_weight_beta
}

/// Two to the power of 120. Sums of a few amounts of this size fit the signed
/// arithmetic of 128 bits.
pub open spec fn weight_limit() -> int {
    0x100_0000_0000_0000_0000_0000_0000_0000
}

/// All weights that the graph computes fit its signed arithmetic.
#[verifier::opaque]
pub open spec fn limits_ok(conf: ConsensusInnerConfig, nodes: Seq<ConsensusGraphNode>) -> bool {
    &&& forall|i: int| 0 <= i < nodes.len() ==> (#[trigger] nodes[i]).difficulty.fits_weight()
    &&& total_cap(conf, nodes) * scale(conf) <= weight_limit()
}

/// `y` lies in the subtree of `x`.
pub open spec fn in_subtree(parent: Seq<usize>, x: int) -> spec_fn(int) -> bool {
    |y: int| ancestor(parent, x, y)
}

/// `y` is stable and lies in the subtree of `x`.
pub open spec fn in_stable_subtree(nodes: Seq<ConsensusGraphNode>, x: int) -> spec_fn(int) -> bool {
    |y: int| ancestor(parents_of(nodes), x, y) && nodes[y].stable
}

/// The weight of the first `k` blocks that lie in the subtree of `x`.
pub open spec fn subtree_weight(
    conf: ConsensusInnerConfig,
    nodes: Seq<ConsensusGraphNode>,
    k: nat,
    x: int,
) -> int {
    sum_to(masked(in_subtree(parents_of(nodes), x), tree_weights(conf, nodes)), k)
}

/// The same for the stable blocks alone.
pub open spec fn stable_subtree_weight(
    conf: ConsensusInnerConfig,
    nodes: Seq<ConsensusGraphNode>,
    k: nat,
    x: int,
) -> int {
    sum_to(masked(in_stable_subtree(nodes, x), tree_weights(conf, nodes)), k)
}

/// The tree has the shape of the first `n` blocks.
pub open spec fn tree_shape(tree: PathTree, parent: Seq<usize>, n: nat) -> bool {
    &&& tree.wf()
    &&& n <= parent.len()
    &&& tree.parents() == parent.take(n as int)
    &&& tree.values().len() == n
}

/// The value of `x` in the stable tree: `den * SubTW(x) + num * (weight of
/// the parent) + num * (past era weight of the parent)`.
pub open spec fn stable_value(
    conf: ConsensusInnerConfig,
    nodes: Seq<ConsensusGraphNode>,
    k: nat,
    x: int,
) -> int {
    let w = subtree_weight(conf, nodes, k, x);
    if x == 0 {
        conf.adaptive_weight_alpha_den * (w - tree_weights(conf, nodes)(0))
    } else {
        let p = nodes[x].parent as int;
        conf.adaptive_weight_alpha_den * w + conf.adaptive_weight_alpha_num * (weight_of(
            conf,
            nodes[p],
        ) + nodes[p].past_era_weight)
    }
}

/// The value of `x` in the adaptive tree: `den * SubStableTW(x) - num *
/// SubTW(parent of x)`.
pub open spec fn adaptive_value(
    conf: ConsensusInnerConfig,
    nodes: Seq<ConsensusGraphNode>,
    k: nat,
    x: int,
) -> int {
    let s = stable_subtree_weight(conf, nodes, k, x);
    if x == 0 {
        conf.adaptive_weight_alpha_den * (s - tree_weights(conf, nodes)(0))
    } else {
        conf.adaptive_weight_alpha_den * s - conf.adaptive_weight_alpha_num * subtree_weight(
            conf,
            nodes,
            k,
            nodes[x].parent as int,
        )
    }
}

/// The value of `x` in the inclusive adaptive tree: `den * SubInclusiveTW(x) -
/// num * SubInclusiveTW(parent of x)`.
pub open spec fn inclusive_adaptive_value(
    conf: ConsensusInnerConfig,
    nodes: Seq<ConsensusGraphNode>,
    k: nat,
    x: int,
) -> int {
    let w = subtree_weight(conf, nodes, k, x);
    if x == 0 {
        conf.adaptive_weight_alpha_den * (w - tree_weights(conf, nodes)(0))
    } else {
        conf.adaptive_weight_alpha_den * w - conf.adaptive_weight_alpha_num * subtree_weight(
            conf,
            nodes,
            k,
            nodes[x].parent as int,
        )
    }
}

/// The six trees over the blocks.
pub struct WeightTrees {
    /// The weight of each subtree.
    pub weight_tree: PathTree,
    pub inclusive_weight_tree: PathTree,
    /// The weight of the stable blocks of each subtree.
    pub stable_weight_tree: PathTree,
    pub stable_tree: PathTree,
    pub adaptive_tree: PathTree,
    pub inclusive_adaptive_tree: PathTree,
}

impl WeightTrees {
    /// All six trees have the shape of the first `n` blocks.
    pub open spec fn shaped(self, parent: Seq<usize>, n: nat) -> bool {
        &&& tree_shape(self.weight_tree, parent, n)
        &&& tree_shape(self.inclusive_weight_tree, parent, n)
        &&& tree_shape(self.stable_weight_tree, parent, n)
        &&& tree_shape(self.stable_tree, parent, n)
        &&& tree_shape(self.adaptive_tree, parent, n)
        &&& tree_shape(self.inclusive_adaptive_tree, parent, n)
    }
}

/// The trees hold the first `n` blocks and the weights of the first `k`.
#[verifier::opaque]
pub open spec fn trees_ok(
    conf: ConsensusInnerConfig,
    nodes: Seq<ConsensusGraphNode>,
    trees: WeightTrees,
    n: nat,
    k: nat,
) -> bool {
    &&& trees.shaped(parents_of(nodes), n)
    &&& forall|x: int|
        0 <= x < n ==> (#[trigger] trees.weight_tree.values()[x]) == subtree_weight(
            conf,
            nodes,
            k,
            x,
        )
    &&& forall|x: int|
        0 <= x < n ==> (#[trigger] trees.inclusive_weight_tree.values()[x]) == subtree_weight(
            conf,
            nodes,
            k,
            x,
        )
    &&& forall|x: int|
        0 <= x < n ==> (#[trigger] trees.stable_weight_tree.values()[x]) == stable_subtree_weight(
            conf,
            nodes,
            k,
            x,
        )
    &&& forall|x: int|
        0 <= x < n ==> (#[trigger] trees.stable_tree.values()[x]) == stable_value(
            conf,
            nodes,
            k,
            x,
        )
    &&& forall|x: int|
        0 <= x < n ==> (#[trigger] trees.adaptive_tree.values()[x]) == adaptive_value(
            conf,
            nodes,
            k,
            x,
        )
    &&& forall|x: int|
        0 <= x < n ==> (#[trigger] trees.inclusive_adaptive_tree.values()[x])
            == inclusive_adaptive_value(conf, nodes, k, x)
}

/// The chain leads from the first block along children, one height at a time.
pub open spec fn chain_ok(parent: Seq<usize>, chain: Seq<usize>) -> bool {
    &&& chain.len() > 0
    &&& chain[0] == 0
    &&& forall|i: int| 0 <= i < chain.len() ==> (#[trigger] chain[i]) < parent.len()
    &&& forall|i: int, j: int|
        #![trigger chain[i], chain[j]]
        0 <= i && j == i + 1 && j < chain.len() ==> parent[chain[j] as int] == chain[i]
}

/// `e` is the first epoch of the chain whose pivot block sees `x`.
pub open spec fn is_epoch_of(g: Dag, chain: Seq<usize>, x: int, e: int) -> bool {
    &&& 0 <= e < chain.len()
    &&& g.reaches(chain[e] as int, x)
    &&& e > 0 ==> !g.reaches(chain[e - 1] as int, x)
}

/// Every block that the tip of the chain sees carries the number of its
/// epoch, and no other block carries one.
#[verifier::opaque]
pub open spec fn epochs_ok(nodes: Seq<ConsensusGraphNode>, chain: Seq<usize>) -> bool {
    &&& chain.len() < NULL
    &&& forall|x: int|
        0 <= x < nodes.len() ==> epoch_ok(
            dag_of(nodes),
            chain,
            x,
            (#[trigger] nodes[x]).data.epoch_number,
        )
}

pub open spec fn epoch_ok(g: Dag, chain: Seq<usize>, x: int, e: usize) -> bool {
    if e == NULL {
        !g.reaches(chain.last() as int, x)
    } else {
        is_epoch_of(g, chain, x, e as int)
    }
}

/// The recorded last pivot block in the past of a block is in its past.
pub open spec fn last_pivots_ok(nodes: Seq<ConsensusGraphNode>, chain: Seq<usize>) -> bool {
    forall|x: int|
        0 <= x < nodes.len() ==> (#[trigger] nodes[x]).last_pivot_in_past < chain.len()
            && dag_of(nodes).reaches(x, chain[nodes[x].last_pivot_in_past as int] as int)
}

/// Of the first `k` blocks, those below the tip of the chain are partially
/// invalid.
pub open spec fn tip_ok(nodes: Seq<ConsensusGraphNode>, chain: Seq<usize>, k: nat) -> bool {
    forall|x: int|
        0 <= x < k && #[trigger] ancestor(parents_of(nodes), chain.last() as int, x) && x
            != chain.last() ==> nodes[x].data.partial_invalid
}

/// The tips of the graph are the blocks that no block refers to.
#[verifier::opaque]
pub open spec fn terminals_ok(nodes: Seq<ConsensusGraphNode>, terminals: Set<H256>) -> bool {
    &&& forall|i: int|
        0 <= i < nodes.len() ==> (terminals.contains((#[trigger] nodes[i]).hash) <==> is_terminal(
            dag_of(nodes),
            i,
        ))
    &&& forall|h: H256| #[trigger]
        terminals.contains(h) ==> exists|i: int|
            0 <= i < nodes.len() && (#[trigger] nodes[i]).hash == h
}

/// Every pivot block lists those of the first `k` blocks that record it as the
/// last pivot block in their past, and no others.
#[verifier::opaque]
pub open spec fn metadata_ok(
    nodes: Seq<ConsensusGraphNode>,
    metadata: Seq<ConsensusGraphPivotData>,
    chain: Seq<usize>,
    k: nat,
) -> bool {
    &&& metadata.len() == chain.len()
    &&& forall|x: int|
        0 <= x < k ==> metadata[(#[trigger] nodes[x]).last_pivot_in_past as int].last_pivot_in_past_blocks@.contains(
            x as usize,
        )
    &&& forall|i: int, x: usize|
        0 <= i < metadata.len() ==> (#[trigger] metadata[i].last_pivot_in_past_blocks@.contains(x)
            <==> x < k && nodes[x as int].last_pivot_in_past == i)
}

/// Each cached set is the anticone of its block among the first `k` blocks.
pub open spec fn cache_ok(g: Dag, cache: Map<usize, Set<usize>>, k: nat) -> bool {
    forall|x: usize| #[trigger]
        cache.contains_key(x) ==> {
            &&& x < k
            &&& forall|y: usize|
                #[trigger] cache[x].contains(y) <==> y < k && g.unrelated(x as int, y as int)
        }
}

/// No block names `i` as parent or referee.
pub open spec fn is_terminal(g: Dag, i: int) -> bool {
    forall|c: int| !#[trigger] g.edge(c, i)
}

} // verus!
