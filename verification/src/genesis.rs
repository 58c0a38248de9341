//! The graph with its first block alone.

use vstd::prelude::*;
use std::collections::HashSet;
use crate::anticone_cache::AnticoneCache;
use crate::arena::{dag_of, Arena, ConsensusGraphNode, ConsensusGraphPivotData};
use crate::bits::BlockSet;
use crate::config::{ConsensusInnerConfig, ProofOfWorkConfig};
use crate::dag::{ancestor, depth, NULL};
#[allow(unused_imports)]
use crate::dag::lemma_reaches_earlier;
use crate::hash_index::{HashIndex, HashSetList};
use crate::insert::{node_of, room_for};
use crate::model::{cache_ok, epoch_list_ok, epochs_ok, in_own_epoch, is_epoch_of, is_terminal,
    limits_ok, links_ok, max_epoch_attained, metadata_ok, min_epoch_attained, parents_of,
    past_weights_ok, sees_as_own, stable_subtree_weight, subtree_weight, terminals_ok, total_cap,
    tree_weights, trees_ok, views_ok, weight_cap, WeightTrees};
#[allow(unused_imports)]
use crate::order::ordered_by_hash;
use crate::path_tree::PathTree;
use crate::state::ConsensusGraphInner;
use crate::sums::{masked, sum_to};
use crate::types::{BlockHeader, H256, U256};

verus! {

broadcast use vstd::std_specs::hash::group_hash_axioms;

/// The halves of the root over no receipts, which is the Keccak hash of the
/// encoding of an empty list.
pub const KECCAK_EMPTY_LIST_RLP_HIGH: u128 = 0x1dcc4de8dec75d7aab85b567b6ccd41a;

pub const KECCAK_EMPTY_LIST_RLP_LOW: u128 = 0xd312451b948a7413f0a142fd40d49347;

/// The root over no receipts.
pub open spec fn spec_empty_receipts_root() -> H256 {
    H256 { hi: KECCAK_EMPTY_LIST_RLP_HIGH, lo: KECCAK_EMPTY_LIST_RLP_LOW }
}

/// The root over no receipts.
pub fn empty_receipts_root() -> (root: H256)
    ensures
        root == spec_empty_receipts_root(),
{
    H256 { hi: KECCAK_EMPTY_LIST_RLP_HIGH, lo: KECCAK_EMPTY_LIST_RLP_LOW }
}

/// What the header of a first block has to satisfy.
pub open spec fn is_genesis(conf: ConsensusInnerConfig, header: BlockHeader) -> bool {
    &&& header.parent_hash == H256::spec_zero()
    &&& header.referee_hashes@.len() == 0
    &&& header.height == 0
    &&& header.deferred_receipts_root == spec_empty_receipts_root()
    &&& room_for(conf, Seq::<ConsensusGraphNode>::empty(), header.difficulty)
}

/// A node list with the first block alone is in order.
proof fn lemma_single_node(conf: ConsensusInnerConfig, nodes: Seq<ConsensusGraphNode>)
    requires
        nodes.len() == 1,
        nodes[0].parent == NULL,
        nodes[0].height == 0,
        nodes[0].referees@.len() == 0,
        nodes[0].children@.len() == 0,
        nodes[0].referrers@.len() == 0,
        nodes[0].past_weight == 0,
        nodes[0].past_era_weight == 0,
        nodes[0].data.min_epoch_in_other_views == 0,
        nodes[0].data.max_epoch_in_other_views == 0,
        nodes[0].data.blockset_in_own_view_of_epoch@ == Set::<usize>::empty(),
        nodes[0].data.ordered_epoch_blocks@ == seq![0usize],
        room_for(conf, Seq::<ConsensusGraphNode>::empty(), nodes[0].difficulty),
    ensures
        links_ok(nodes),
        views_ok(nodes, 1),
        past_weights_ok(conf, nodes, 1),
        limits_ok(conf, nodes),
{
    let g = dag_of(nodes);
    assert(g.parent[0] == NULL);
    assert(g.referees[0] == nodes[0].referees@);
    assert(links_ok(nodes)) by {
        reveal(links_ok);
        assert(depth(parents_of(nodes), 0) == 0);
    }
    assert forall|x: int, y: int| 0 <= x < 1 implies !#[trigger] in_own_epoch(g, x, y) by {
        if g.reaches(0, y) {
            lemma_reaches_earlier(g, 0, y);
        }
    }
    assert(views_ok(nodes, 1)) by {
        reveal(views_ok);
        let l = nodes[0].data.ordered_epoch_blocks@;
        assert(l.contains(0usize)) by {
            assert(l[0] == 0);
        }
        assert forall|y: usize| #[trigger] l.contains(y) <==> (y == 0 || in_own_epoch(
            g,
            0,
            y as int,
        )) by {}
        assert(epoch_list_ok(g, 0, l));
        assert forall|x: int| 0 <= x < 1 implies #[trigger] ordered_by_hash(nodes, x) by {
            assert(l.drop_last() =~= Seq::<usize>::empty());
            assert(l.drop_last().to_set() =~= Set::<usize>::empty());
        }
        assert forall|y: int| 0 <= y < 1 implies #[trigger] min_epoch_attained(nodes, 1, y) by {
            assert(sees_as_own(g, 0, y));
        }
        assert forall|y: int| 0 <= y < 1 implies #[trigger] max_epoch_attained(nodes, 1, y) by {
            assert(sees_as_own(g, 0, y));
        }
    }
    assert(past_weights_ok(conf, nodes, 1)) by {
        reveal(past_weights_ok);
    }
    assert(limits_ok(conf, nodes)) by {
        reveal(limits_ok);
        let cap = |i: int| weight_cap(conf)(nodes[i]);
        assert(sum_to(cap, 1) == sum_to(cap, 0) + cap(0));
        let none = Seq::<ConsensusGraphNode>::empty();
        assert(total_cap(conf, none) == 0);
        assert(total_cap(conf, nodes) == cap(0));
    }
}

/// A tree with one node of the given value.
fn single_tree(value: i128) -> (tree: PathTree)
    ensures
        tree.wf(),
        tree.parents() == seq![NULL],
        tree.values() == seq![value],
{
    let mut tree: PathTree = PathTree::new();
    tree.make_tree(0);
    proof {
        tree.lemma_shape();
        assert(tree.parents() =~= seq![NULL]);
        assert(tree.values() =~= seq![0i128]);
        assert(ancestor(tree.parents(), 0, 0));
    }
    tree.path_apply(0, value);
    proof {
        assert(tree.values() =~= seq![value]);
    }
    tree
}

/// The first block is valid and stable, it is its own last pivot block, and it
/// came in first.
pub open spec fn is_settled_genesis(inner: ConsensusGraphInner) -> bool {
    let node = inner.nodes()[0];
    &&& node.stable
    &&& !node.data.partial_invalid
    &&& node.data.sequence_number == 0
    &&& node.last_pivot_in_past == 0
    &&& inner.pivot_chain_metadata@.len() == 1
    &&& inner.pivot_chain_metadata@[0].last_pivot_in_past_blocks@ == set![0usize]
    &&& inner.terminal_hashes@ == set![node.hash]
}

impl ConsensusGraphInner {
    /// The graph that holds the first block: it is the pivot chain and the only
    /// tip, and its difficulty is its weight in the trees.
    pub fn with_genesis_block(
        pow_config: ProofOfWorkConfig,
        genesis: &BlockHeader,
        inner_conf: ConsensusInnerConfig,
    ) -> (inner: ConsensusGraphInner)
        requires
            is_genesis(inner_conf, *genesis),
        ensures
            inner.wf(),
            inner.size() == 1,
            node_of(inner_conf, *genesis, inner.indices@, inner.nodes()[0]),
            inner.pivot_chain@ == seq![0usize],
            inner.indices@ == Map::<H256, usize>::empty().insert(genesis.hash, 0),
            inner.genesis_block_state_root == genesis.deferred_state_root,
            inner.genesis_block_receipts_root == genesis.deferred_receipts_root,
            inner.pow_config == pow_config,
            inner.inner_conf == inner_conf,
            inner.current_difficulty.value() == pow_config.initial_difficulty,
            inner.optimistic_executed_height is None,
            inner.sequence_number_of_block_entrance == 1,
            is_settled_genesis(inner),
    {
        proof {
            genesis.difficulty.lemma_value_decides(genesis.difficulty);
        }
        let difficulty: i128 = genesis.difficulty.to_weight();
        let mut inner = ConsensusGraphInner {
            arena: Arena::new(),
            indices: HashIndex::new(),
            pivot_chain: Vec::new(),
            pivot_chain_metadata: Vec::new(),
            terminal_hashes: HashSetList::new(),
            genesis_block_index: 0,
            genesis_block_state_root: genesis.deferred_state_root,
            genesis_block_receipts_root: genesis.deferred_receipts_root,
            trees: WeightTrees {
                weight_tree: single_tree(difficulty),
                inclusive_weight_tree: single_tree(difficulty),
                stable_weight_tree: single_tree(difficulty),
                stable_tree: single_tree(0),
                adaptive_tree: single_tree(0),
                inclusive_adaptive_tree: single_tree(0),
            },
            pow_config,
            current_difficulty: U256::from_u64(pow_config.initial_difficulty),
            optimistic_executed_height: None,
            inner_conf,
            anticone_cache: AnticoneCache::new(),
            sequence_number_of_block_entrance: 0,
        };
        let sn: u64 = inner.get_next_sequence_number();
        let mut node: ConsensusGraphNode = inner.new_node(genesis, NULL, Vec::new(), sn);
        node.data.epoch_number = 0;
        node.data.blockset_in_own_view_of_epoch = HashSet::new();
        let mut ordered: Vec<usize> = Vec::new();
        ordered.push(0);
        node.data.ordered_epoch_blocks = ordered;
        let index: usize = inner.arena.insert(node);
        inner.indices.insert(genesis.hash, index);
        inner.terminal_hashes.insert(genesis.hash);
        inner.pivot_chain.push(index);
        let mut blocks: HashSet<usize> = HashSet::new();
        blocks.insert(index);
        inner.pivot_chain_metadata.push(
            ConsensusGraphPivotData { last_pivot_in_past_blocks: blocks },
        );
        inner.anticone_cache.update(index, &BlockSet::new());
        proof {
            let nodes = inner.nodes();
            let g = dag_of(nodes);
            let chain = inner.pivot_chain@;
            assert(nodes[0].data.ordered_epoch_blocks@ =~= seq![0usize]);
            lemma_single_node(inner_conf, nodes);
            assert(g.parent[0] == NULL);
            assert(g.reaches(0, 0));
            assert(epochs_ok(nodes, chain)) by {
                reveal(epochs_ok);
                assert(is_epoch_of(g, chain, 0, 0));
            }
            assert(terminals_ok(nodes, inner.terminal_hashes@)) by {
                reveal(terminals_ok);
                assert(is_terminal(g, 0));
                assert(nodes[0].hash == genesis.hash);
            }
            assert(inner.trees_hold(1, 1)) by {
                reveal(trees_ok);
                assert(parents_of(nodes).take(1) =~= seq![NULL]);
                let tw = tree_weights(inner_conf, nodes);
                assert(ancestor(parents_of(nodes), 0, 0));
                let f = masked(crate::model::in_subtree(parents_of(nodes), 0), tw);
                assert(sum_to(f, 1) == sum_to(f, 0) + f(0));
                assert(subtree_weight(inner_conf, nodes, 1, 0) == tw(0));
                let s = masked(crate::model::in_stable_subtree(nodes, 0), tw);
                assert(sum_to(s, 1) == sum_to(s, 0) + s(0));
                assert(stable_subtree_weight(inner_conf, nodes, 1, 0) == tw(0));
                assert(inner_conf.adaptive_weight_alpha_den * (tw(0) - tw(0)) == 0)
                    by (nonlinear_arith);
            }
            assert(cache_ok(g, inner.anticone_cache@, 1)) by {
                assert forall|x: usize| #[trigger]
                    inner.anticone_cache@.contains_key(x) implies x < 1 && forall|y: usize|
                    #[trigger] inner.anticone_cache@[x].contains(y) <==> y < 1 && g.unrelated(
                        x as int,
                        y as int,
                    ) by {
                    assert(x == 0);
                }
            }
            assert(metadata_ok(nodes, inner.pivot_chain_metadata@, chain, 1)) by {
                reveal(metadata_ok);
            }
            assert(node_of(inner_conf, *genesis, inner.indices@, nodes[0])) by {
                assert(nodes[0].referees@ =~= genesis.referee_hashes@.map_values(
                    |h: H256| inner.indices@[h],
                ));
            }
        }
        inner
    }
}

} // verus!
