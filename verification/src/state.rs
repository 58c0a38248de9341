//! The state of the consensus graph and the stages that it passes through
//! while a block is taken in.

use vstd::prelude::*;
use std::collections::HashSet;
use crate::anticone_cache::AnticoneCache;
use crate::arena::{dag_of, set_to_vec, Arena, ConsensusGraphNode, ConsensusGraphPivotData};
use crate::bits::index_limit;
use crate::config::{ConsensusInnerConfig, ProofOfWorkConfig};
use crate::dag::{ancestor, ancestor_at_depth, depth, Dag, NULL};
#[allow(unused_imports)]
use crate::dag::{lemma_ancestor_at_depth, lemma_ancestor_depth, lemma_ancestor_unique,
    lemma_root_is_ancestor, lemma_ancestor_at_depth_prefix, lemma_ancestor_prefix};
use crate::hash_index::{HashIndex, HashSetList};
use crate::model::{cache_ok, chain_ok, epochs_ok, indices_ok, last_pivots_ok, limits_ok, links_ok,
    metadata_ok, parents_of, past_weights_ok, scale, terminals_ok, tip_ok, total_cap, tree_shape,
    trees_ok, views_ok, weight_cap, weight_limit, weight_of, WeightTrees};
#[allow(unused_imports)]
use crate::sums::{lemma_sum_along_is_masked, lemma_sum_congruent, lemma_sum_nonnegative,
    lemma_sum_ordered, lemma_term_within_sum};
use crate::sums::{masked, sum_along, sum_to};
use crate::types::{H256, U256};

verus! {

broadcast use vstd::std_specs::hash::group_hash_axioms;

/// The block graph with everything that is derived from it. Every block has
/// an internal index, given in the order of insertion.
pub struct ConsensusGraphInner {
    pub arena: Arena,
    /// Maps block hashes to indices.
    pub indices: HashIndex,
    /// The current pivot chain.
    pub pivot_chain: Vec<usize>,
    pub pivot_chain_metadata: Vec<ConsensusGraphPivotData>,
    /// The tips of the graph.
    pub terminal_hashes: HashSetList,
    pub genesis_block_index: usize,
    pub genesis_block_state_root: H256,
    pub genesis_block_receipts_root: H256,
    pub trees: WeightTrees,
    pub pow_config: ProofOfWorkConfig,
    /// The expected difficulty of the next locally mined block.
    pub current_difficulty: U256,
    /// The next epoch to execute ahead of the deferred boundary.
    pub optimistic_executed_height: Option<usize>,
    pub inner_conf: ConsensusInnerConfig,
    pub anticone_cache: AnticoneCache,
    pub sequence_number_of_block_entrance: u64,
}

impl ConsensusGraphInner {
    pub open spec fn nodes(&self) -> Seq<ConsensusGraphNode> {
        self.arena@
    }

    pub open spec fn dag(&self) -> Dag {
        dag_of(self.arena@)
    }

    pub open spec fn parents(&self) -> Seq<usize> {
        parents_of(self.arena@)
    }

    /// How many blocks there are.
    pub open spec fn size(&self) -> nat {
        self.arena@.len()
    }

    /// The graph and the numbers that blocks carry, without the structures
    /// that still have to learn of the newest block.
    pub open spec fn base_ok(&self) -> bool {
        &&& self.arena.wf()
        &&& self.genesis_block_index == 0
        &&& links_ok(self.nodes())
        &&& indices_ok(self.nodes(), self.indices@)
        &&& views_ok(self.nodes(), self.size())
        &&& limits_ok(self.inner_conf, self.nodes())
        &&& past_weights_ok(self.inner_conf, self.nodes(), self.size())
        &&& chain_ok(self.parents(), self.pivot_chain@)
        &&& epochs_ok(self.nodes(), self.pivot_chain@)
        &&& last_pivots_ok(self.nodes(), self.pivot_chain@)
        &&& self.terminal_hashes.wf()
        &&& terminals_ok(self.nodes(), self.terminal_hashes@)
        &&& sequence_ok(self.nodes(), self.sequence_number_of_block_entrance)
    }

    /// The trees hold the first `n` blocks with the weights of the first `k`.
    pub open spec fn trees_hold(&self, n: nat, k: nat) -> bool {
        trees_ok(self.inner_conf, self.nodes(), self.trees, n, k)
    }

    pub open spec fn cache_holds(&self, k: nat) -> bool {
        cache_ok(self.dag(), self.anticone_cache@, k)
    }

    /// Metadata and tip take the first `k` blocks into account.
    pub open spec fn tail_holds(&self, k: nat) -> bool {
        &&& metadata_ok(self.nodes(), self.pivot_chain_metadata@, self.pivot_chain@, k)
        &&& tip_ok(self.nodes(), self.pivot_chain@, k)
    }

    /// The graph and the anticone cache are in order: what a query needs, also
    /// while the newest block is being taken in.
    pub open spec fn readable(&self) -> bool {
        &&& self.base_ok()
        &&& self.cache_holds(self.size())
    }

    /// The graph, its trees and its cache are in order.
    pub open spec fn ready(&self) -> bool {
        &&& self.base_ok()
        &&& self.trees_hold(self.size(), self.size())
        &&& self.cache_holds(self.size())
    }

    /// Everything is in order.
    pub open spec fn wf(&self) -> bool {
        &&& self.ready()
        &&& self.tail_holds(self.size())
    }

    /// `me` is the newest block.
    pub open spec fn is_newest(&self, me: int) -> bool {
        &&& 0 < me
        &&& me == self.size() - 1
    }

    /// The newest block `me` has been linked into the graph and neither the
    /// trees nor the cache have learned of it.
    pub open spec fn inserted(&self, me: int) -> bool {
        &&& self.base_ok()
        &&& self.is_newest(me)
        &&& self.trees_hold(me as nat, me as nat)
        &&& self.cache_holds(me as nat)
        &&& fresh(self.nodes()[me])
    }

    /// The anticone of the newest block is known.
    pub open spec fn located(&self, me: int) -> bool {
        &&& self.base_ok()
        &&& self.is_newest(me)
        &&& self.trees_hold(me as nat, me as nat)
        &&& self.cache_holds(me as nat + 1)
        &&& fresh(self.nodes()[me])
    }

    /// The newest block hangs in the trees, its weight is not counted yet.
    pub open spec fn linked(&self, me: int) -> bool {
        &&& self.base_ok()
        &&& self.is_newest(me)
        &&& self.trees_hold(me as nat + 1, me as nat)
        &&& self.cache_holds(me as nat + 1)
        &&& fresh(self.nodes()[me])
    }
}

/// Nothing has been decided about the block.
pub open spec fn fresh(node: ConsensusGraphNode) -> bool {
    &&& node.data.epoch_number == NULL
    &&& !node.data.partial_invalid
    &&& node.stable
    &&& node.last_pivot_in_past == 0
}

/// All sequence numbers are below the next one.
pub open spec fn sequence_ok(nodes: Seq<ConsensusGraphNode>, next: u64) -> bool {
    forall|i: int| 0 <= i < nodes.len() ==> (#[trigger] nodes[i]).data.sequence_number < next
}

/// What the links say of one node.
pub proof fn lemma_node(nodes: Seq<ConsensusGraphNode>, i: int)
    requires
        links_ok(nodes),
        0 <= i < nodes.len(),
    ensures
        dag_of(nodes).well_formed(),
        nodes.len() <= index_limit(),
        parents_of(nodes).len() == nodes.len(),
        parents_of(nodes)[i] == nodes[i].parent,
        dag_of(nodes).referees[i] == nodes[i].referees@,
        i > 0 ==> nodes[i].parent < i,
        i == 0 ==> nodes[i].parent == NULL,
        nodes[i].height == depth(parents_of(nodes), i),
        forall|j: int| 0 <= j < nodes[i].referees@.len() ==> (#[trigger] nodes[i].referees@[j]) < i,
        forall|j: int|
            0 <= j < nodes[i].children@.len() ==> i < (#[trigger] nodes[i].children@[j])
                < nodes.len(),
        forall|j: int|
            0 <= j < nodes[i].referrers@.len() ==> i < (#[trigger] nodes[i].referrers@[j])
                < nodes.len(),
{
    reveal(links_ok);
    let g = dag_of(nodes);
    assert(g.parent[i] == nodes[i].parent);
    assert(g.referees[i] == nodes[i].referees@);
    assert forall|j: int| 0 <= j < nodes[i].referees@.len() implies (
    #[trigger] nodes[i].referees@[j]) < i by {
        assert(g.referees[i][j] < i);
    }
    assert forall|j: int| 0 <= j < nodes[i].children@.len() implies i < (
    #[trigger] nodes[i].children@[j]) < nodes.len() by {
        let c = nodes[i].children@[j] as int;
        assert(nodes[c].parent == i);
        assert(g.parent[c] == i);
    }
    assert forall|j: int| 0 <= j < nodes[i].referrers@.len() implies i < (
    #[trigger] nodes[i].referrers@[j]) < nodes.len() by {
        let c = nodes[i].referrers@[j] as int;
        assert(nodes[c].referees@.contains(i as usize));
        let k = nodes[c].referees@.index_of(i as usize);
        assert(g.referees[c][k] < c);
    }
}

/// Every block weighs between nothing and its cap, and all caps together stay
/// within the limit.
pub proof fn lemma_weight_bounds(conf: ConsensusInnerConfig, nodes: Seq<ConsensusGraphNode>, i: int)
    requires
        limits_ok(conf, nodes),
        0 <= i < nodes.len(),
    ensures
        nodes[i].difficulty.fits_weight(),
        0 <= nodes[i].difficulty.value(),
        0 <= weight_of(conf, nodes[i]) <= weight_cap(conf)(nodes[i]),
        nodes[i].difficulty.value() <= weight_cap(conf)(nodes[i]),
        weight_cap(conf)(nodes[i]) <= total_cap(conf, nodes),
        0 <= total_cap(conf, nodes) <= weight_limit(),
        total_cap(conf, nodes) * scale(conf) <= weight_limit(),
{
    reveal(limits_ok);
    let cap = |j: int| weight_cap(conf)(nodes[j]);
    assert forall|j: int| 0 <= j < nodes.len() implies 0 <= #[trigger] cap(j) by {
        nodes[j].difficulty.lemma_value_decides(nodes[j].difficulty);
    }
    lemma_term_within_sum(cap, nodes.len(), i);
    assert(sum_to(cap, nodes.len()) == total_cap(conf, nodes));
    nodes[i].difficulty.lemma_value_decides(nodes[i].difficulty);
    lemma_total_cap_bounds(conf, nodes);
}

pub proof fn lemma_total_cap_bounds(conf: ConsensusInnerConfig, nodes: Seq<ConsensusGraphNode>)
    requires
        limits_ok(conf, nodes),
    ensures
        0 <= total_cap(conf, nodes) <= weight_limit(),
        total_cap(conf, nodes) * scale(conf) <= weight_limit(),
        scale(conf) >= 1,
{
    reveal(limits_ok);
    let cap = |j: int| weight_cap(conf)(nodes[j]);
    assert forall|j: int| 0 <= j < nodes.len() implies 0 <= #[trigger] cap(j) by {
        nodes[j].difficulty.lemma_value_decides(nodes[j].difficulty);
    }
    lemma_sum_nonnegative(cap, nodes.len());
    let t = total_cap(conf, nodes);
    let s = scale(conf);
    assert(sum_to(cap, nodes.len()) == t);
    assert(t <= t * s) by (nonlinear_arith)
        requires
            0 <= t,
            1 <= s,
    ;
}

/// The weight of any set of blocks lies between nothing and the cap of all.
pub proof fn lemma_masked_weight_bounds(
    conf: ConsensusInnerConfig,
    nodes: Seq<ConsensusGraphNode>,
    p: spec_fn(int) -> bool,
    f: spec_fn(int) -> int,
    k: nat,
)
    requires
        limits_ok(conf, nodes),
        k <= nodes.len(),
        forall|i: int|
            0 <= i < nodes.len() ==> 0 <= #[trigger] f(i) <= weight_cap(conf)(nodes[i]),
    ensures
        0 <= sum_to(masked(p, f), k) <= total_cap(conf, nodes),
        total_cap(conf, nodes) <= weight_limit(),
{
    let cap = |j: int| weight_cap(conf)(nodes[j]);
    lemma_total_cap_bounds(conf, nodes);
    assert forall|i: int| 0 <= i < k implies 0 <= #[trigger] masked(p, f)(i) by {
        assert(0 <= f(i));
    }
    lemma_sum_nonnegative(masked(p, f), k);
    let q = |i: int| i < k && p(i);
    assert forall|i: int| 0 <= i < nodes.len() implies #[trigger] masked(q, f)(i) <= cap(i) by {
        assert(0 <= f(i) <= weight_cap(conf)(nodes[i]));
    }
    lemma_sum_ordered(masked(q, f), cap, nodes.len());
    lemma_sum_cut(p, f, k, nodes.len());
    assert(sum_to(cap, nodes.len()) == total_cap(conf, nodes));
}

/// Cutting a sum off at `k` is leaving out the members from `k` on.
pub proof fn lemma_sum_cut(p: spec_fn(int) -> bool, f: spec_fn(int) -> int, k: nat, n: nat)
    requires
        k <= n,
    ensures
        sum_to(masked(|i: int| i < k && p(i), f), n) == sum_to(masked(p, f), k),
    decreases n,
{
    let q = |i: int| i < k && p(i);
    if n == k {
        lemma_sum_congruent(masked(q, f), masked(p, f), k);
    } else {
        lemma_sum_cut(p, f, k, (n - 1) as nat);
    }
}

impl ConsensusGraphInner {
    /// The weight of block `me`; see `weight_of`. A partially invalid block weighs
    /// nothing, whether such blocks are included or not.
    pub fn block_weight(&self, me: usize, _inclusive: bool) -> (w: i128)
        requires
            self.arena.wf(),
            me < self.size(),
            limits_ok(self.inner_conf, self.nodes()),
        ensures
            w == weight_of(self.inner_conf, self.nodes()[me as int]),
            0 <= w <= weight_cap(self.inner_conf)(self.nodes()[me as int]) <= weight_limit(),
    {
        proof {
            lemma_weight_bounds(self.inner_conf, self.nodes(), me as int);
        }
        let node = self.arena.get(me);
        if node.data.partial_invalid {
            return 0;
        }
        if node.adaptive {
            if node.is_heavy {
                self.inner_conf.heavy_block_difficulty_ratio as i128
            } else {
                0
            }
        } else {
            node.difficulty.to_weight()
        }
    }

    /// The total weight of the blocks of an epoch set, of all of them or of
    /// those below the block `genesis_opt`.
    pub fn total_weight_in_own_epoch(
        &self,
        blockset_in_own_epoch: &HashSet<usize>,
        inclusive: bool,
        genesis_opt: Option<usize>,
    ) -> (total: i128)
        requires
            self.arena.wf(),
            self.genesis_block_index == 0,
            links_ok(self.nodes()),
            limits_ok(self.inner_conf, self.nodes()),
            tree_shape(self.trees.weight_tree, self.parents(), self.trees.weight_tree.len()),
            forall|y: usize| #[trigger]
                blockset_in_own_epoch@.contains(y) ==> y < self.trees.weight_tree.len(),
            genesis_opt matches Some(gen) ==> gen < self.size(),
        ensures
            total == sum_to(
                masked(
                    |y: int|
                        blockset_in_own_epoch@.contains(y as usize) && (genesis_opt matches Some(
                            gen,
                        ) ==> ancestor(self.parents(), gen as int, y)),
                    |y: int| weight_of(self.inner_conf, self.nodes()[y]),
                ),
                self.size(),
            ),
            0 <= total <= total_cap(self.inner_conf, self.nodes()),
    {
        let gen_index: usize = match genesis_opt {
            Some(x) => x,
            None => self.genesis_block_index,
        };
        proof {
            assert(self.nodes().len() > 0) by {
                reveal(links_ok);
            }
            lemma_node(self.nodes(), gen_index as int);
        }
        let gen_height: u64 = self.arena.get(gen_index).height;
        let items: Vec<usize> = set_to_vec(blockset_in_own_epoch);
        let ghost nodes = self.nodes();
        let ghost conf = self.inner_conf;
        let ghost n = nodes.len();
        let ghost in_era = |y: int|
            genesis_opt matches Some(gen) ==> ancestor(self.parents(), gen as int, y);
        let ghost full = |y: int| weight_of(conf, nodes[y]);
        let ghost f = masked(in_era, full);
        proof {
            lemma_total_cap_bounds(conf, nodes);
            assert forall|i: int| 0 <= i < n implies 0 <= #[trigger] f(i) <= weight_cap(conf)(
                nodes[i],
            ) by {
                lemma_weight_bounds(conf, nodes, i);
            }
            assert forall|j: int| 0 <= j < items@.len() implies (#[trigger] items@[j])
                < self.trees.weight_tree.len() by {
                assert(items@.contains(items@[j]));
            }
        }
        let mut total_weight: i128 = 0;
        let mut j: usize = 0;
        while j < items.len()
            invariant
                self.arena.wf(),
                self.genesis_block_index == 0,
                nodes == self.nodes(),
                conf == self.inner_conf,
                n == nodes.len(),
                links_ok(nodes),
                limits_ok(conf, nodes),
                tree_shape(self.trees.weight_tree, self.parents(), self.trees.weight_tree.len()),
                gen_index < n,
                gen_height == depth(self.parents(), gen_index as int),
                gen_index == (match genesis_opt {
                    Some(x) => x,
                    None => 0,
                }),
                j <= items@.len(),
                items@.no_duplicates(),
                forall|k: int|
                    0 <= k < items@.len() ==> (#[trigger] items@[k])
                        < self.trees.weight_tree.len(),
                in_era == (|y: int|
                    genesis_opt matches Some(gen) ==> ancestor(self.parents(), gen as int, y)),
                full == (|y: int| weight_of(conf, nodes[y])),
                f == masked(in_era, full),
                forall|i: int| 0 <= i < n ==> 0 <= #[trigger] f(i) <= weight_cap(conf)(nodes[i]),
                total_weight == sum_along(f, items@.take(j as int)),
                0 <= total_weight <= total_cap(conf, nodes),
            decreases items@.len() - j,
        {
            let index: usize = items[j];
            proof {
                lemma_node(nodes, index as int);
                let t = items@.take(j + 1);
                assert(t.drop_last() =~= items@.take(j as int));
                assert(t.last() == index);
                assert forall|k: int| 0 <= k < t.len() implies (#[trigger] t[k]) < n by {
                    assert(t[k] == items@[k]);
                }
                lemma_sum_along_is_masked(f, t, n);
                lemma_masked_weight_bounds(
                    conf,
                    nodes,
                    |i: int| t.contains(i as usize) && 0 <= i < n,
                    f,
                    n,
                );
            }
            let mut counted: bool = true;
            if gen_index != self.genesis_block_index {
                let height: u64 = self.arena.get(index).height;
                if height < gen_height {
                    counted = false;
                    proof {
                        if ancestor(self.parents(), gen_index as int, index as int) {
                            lemma_ancestor_depth(self.parents(), gen_index as int, index as int);
                        }
                    }
                } else {
                    proof {
                        self.lemma_tree_ancestor(index as int, gen_height as nat);
                    }
                    let era_index: usize = self.trees.weight_tree.ancestor_at(
                        index,
                        gen_height as usize,
                    );
                    proof {
                        lemma_ancestor_at_depth(self.parents(), index as int, gen_height as nat);
                        if ancestor(self.parents(), gen_index as int, index as int) {
                            lemma_ancestor_unique(self.parents(), gen_index as int, index as int);
                        }
                    }
                    if gen_index != era_index {
                        counted = false;
                    }
                }
            } else {
                proof {
                    lemma_root_is_ancestor(self.parents(), index as int);
                }
            }
            assert(counted == in_era(index as int));
            if counted {
                let w: i128 = self.block_weight(index, inclusive);
                assert(f(index as int) == w);
                total_weight = total_weight + w;
            } else {
                assert(f(index as int) == 0);
            }
            j = j + 1;
        }
        proof {
            assert(items@.take(items@.len() as int) =~= items@);
            assert forall|k: int| 0 <= k < items@.len() implies (#[trigger] items@[k]) < n by {
                assert(items@.contains(items@[k]));
            }
            lemma_sum_along_is_masked(f, items@, n);
            let stated = masked(
                |y: int|
                    blockset_in_own_epoch@.contains(y as usize) && (genesis_opt matches Some(gen)
                        ==> ancestor(self.parents(), gen as int, y)),
                |y: int| weight_of(self.inner_conf, self.nodes()[y]),
            );
            let summed = masked(|i: int| items@.contains(i as usize) && 0 <= i < n, f);
            assert forall|i: int| 0 <= i < n implies #[trigger] summed(i) == stated(i) by {
                assert(items@.contains(i as usize) <==> blockset_in_own_epoch@.contains(
                    i as usize,
                ));
            }
            lemma_sum_congruent(summed, stated, n);
        }
        total_weight
    }

    /// Ancestors in the weight tree are ancestors in the graph, and heights fit
    /// an index.
    pub proof fn lemma_tree_ancestor(&self, x: int, k: nat)
        requires
            links_ok(self.nodes()),
            tree_shape(self.trees.weight_tree, self.parents(), self.trees.weight_tree.len()),
            0 <= x < self.trees.weight_tree.len(),
            k <= depth(self.parents(), x),
        ensures
            k < usize::MAX,
            depth(self.trees.weight_tree.parents(), x) == depth(self.parents(), x),
            ancestor_at_depth(self.trees.weight_tree.parents(), x, k) == ancestor_at_depth(
                self.parents(),
                x,
                k,
            ),
    {
        let p = self.trees.weight_tree.parents();
        lemma_node(self.nodes(), x);
        lemma_ancestor_prefix(p, self.parents(), x, x);
        lemma_ancestor_at_depth_prefix(p, self.parents(), x, k);
        lemma_depth_bounded(self.parents(), x);
    }
}

/// A block is at most as deep as its index.
pub proof fn lemma_depth_bounded(parent: Seq<usize>, x: int)
    requires
        0 <= x,
    ensures
        depth(parent, x) <= x,
    decreases x,
{
    if 0 <= x < parent.len() && parent[x] < x {
        lemma_depth_bounded(parent, parent[x] as int);
    }
}

} // verus!
