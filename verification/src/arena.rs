//! The nodes of the block graph and the arena that holds them.

use vstd::prelude::*;
use std::collections::HashSet;
#[allow(unused_imports)]
use vstd::std_specs::iter::IteratorSpec;
use crate::bits::index_limit;
use crate::dag::Dag;
use crate::types::{H256, U256};

verus! {

broadcast use vstd::std_specs::hash::group_hash_axioms;

/// What the pivot chain and the views of later blocks say about a block.
pub struct ConsensusGraphNodeData {
    /// The epoch on the pivot chain that the block falls into, or `NULL`.
    pub epoch_number: usize,
    pub partial_invalid: bool,
    /// The blocks of the epoch that this block would close as a pivot block,
    /// without the block itself.
    pub blockset_in_own_view_of_epoch: HashSet<usize>,
    /// The same blocks in execution order, with the block itself at the end.
    pub ordered_epoch_blocks: Vec<usize>,
    /// The smallest and the largest epoch that the block falls into in the
    /// view of any block, itself included.
    pub min_epoch_in_other_views: u64,
    pub max_epoch_in_other_views: u64,
    pub sequence_number: u64,
}

impl ConsensusGraphNodeData {
    pub fn new(epoch_number: usize, height: u64, sequence_number: u64) -> (data: Self)
        ensures
            data.epoch_number == epoch_number,
            !data.partial_invalid,
            data.blockset_in_own_view_of_epoch@ == Set::<usize>::empty(),
            data.ordered_epoch_blocks@ == Seq::<usize>::empty(),
            data.min_epoch_in_other_views == height,
            data.max_epoch_in_other_views == height,
            data.sequence_number == sequence_number,
    {
        ConsensusGraphNodeData {
            epoch_number,
            partial_invalid: false,
            blockset_in_own_view_of_epoch: HashSet::new(),
            ordered_epoch_blocks: Vec::new(),
            min_epoch_in_other_views: height,
            max_epoch_in_other_views: height,
            sequence_number,
        }
    }
}

pub struct ConsensusGraphNode {
    pub hash: H256,
    pub height: u64,
    pub is_heavy: bool,
    pub difficulty: U256,
    /// The total weight of the past set, without the block itself.
    pub past_weight: i128,
    /// The total weight of the past set in the block's own era.
    pub past_era_weight: i128,
    pub pow_quality: U256,
    pub stable: bool,
    pub adaptive: bool,
    pub parent: usize,
    pub last_pivot_in_past: usize,
    pub children: Vec<usize>,
    pub referrers: Vec<usize>,
    pub referees: Vec<usize>,
    pub data: ConsensusGraphNodeData,
}

/// What the graph keeps with a block of the pivot chain.
pub struct ConsensusGraphPivotData {
    /// The blocks whose `last_pivot_in_past` points to this location.
    pub last_pivot_in_past_blocks: HashSet<usize>,
}

impl Default for ConsensusGraphPivotData {
    fn default() -> (data: Self)
        ensures
            data.last_pivot_in_past_blocks@ == Set::<usize>::empty(),
    {
        ConsensusGraphPivotData { last_pivot_in_past_blocks: HashSet::new() }
    }
}

/// The members of a set of indices, each once.
pub fn set_to_vec(set: &HashSet<usize>) -> (items: Vec<usize>)
    ensures
        items@.no_duplicates(),
        items@.to_set() == set@,
        forall|i: usize| #[trigger] items@.contains(i) <==> set@.contains(i),
{
    let mut items: Vec<usize> = Vec::new();
    for x in it: set.iter()
        invariant
            items@.len() == it.index(),
            forall|j: int| 0 <= j < items@.len() ==> items@[j] == *it.seq()[j],
    {
        items.push(*x);
    }
    proof {
        let all = set.iter().remaining();
        assert(items@ =~= all.unref());
    }
    items
}

/// Declares `slab::Slab`.
#[verifier::external_type_specification]
#[verifier::external_body]
#[verifier::reject_recursive_types(T)]
pub struct ExSlab<T>(slab::Slab<T>);

/// The slots of a slab by key, a vacant one as `None`.
pub uninterp spec fn slab_slots(slab: slab::Slab<ConsensusGraphNode>) -> Seq<
    Option<ConsensusGraphNode>,
>;

/// No slot of the slab is vacant.
pub open spec fn slab_full(slots: Seq<Option<ConsensusGraphNode>>) -> bool {
    forall|i: int| 0 <= i < slots.len() ==> (#[trigger] slots[i]) is Some
}

/// `slab::Slab::new`: a slab without slots.
#[verifier::external_body]
fn slab_new() -> (slab: slab::Slab<ConsensusGraphNode>)
    ensures
        slab_slots(slab) == Seq::<Option<ConsensusGraphNode>>::empty(),
{
    slab::Slab::new()
}

/// `slab::Slab::insert`: without a vacant slot the value gets the next key;
/// otherwise it fills a vacant slot. The value's key comes back.
#[verifier::external_body]
fn slab_insert(slab: &mut slab::Slab<ConsensusGraphNode>, node: ConsensusGraphNode) -> (key: usize)
    requires
        slab_slots(*old(slab)).len() < index_limit(),
    ensures
        slab_full(slab_slots(*old(slab))) ==> key == slab_slots(*old(slab)).len()
            && slab_slots(*final(slab)) == slab_slots(*old(slab)).push(Some(node)),
        !slab_full(slab_slots(*old(slab))) ==> key < slab_slots(*old(slab)).len()
            && slab_slots(*old(slab))[key as int] is None && slab_slots(*final(slab))
            == slab_slots(*old(slab)).update(key as int, Some(node)),
{
    slab.insert(node)
}

/// `<slab::Slab as Index>::index`: the value under a key that is taken.
#[verifier::external_body]
fn slab_index(slab: &slab::Slab<ConsensusGraphNode>, key: usize) -> (node: &ConsensusGraphNode)
    requires
        key < slab_slots(*slab).len(),
        slab_slots(*slab)[key as int] is Some,
    ensures
        slab_slots(*slab)[key as int] == Some(*node),
{
    &slab[key]
}

/// `<slab::Slab as IndexMut>::index_mut`: the value under a key that is taken,
/// for writing; the other slots stay as they are.
#[verifier::external_body]
fn slab_index_mut(slab: &mut slab::Slab<ConsensusGraphNode>, key: usize) -> (node:
    &mut ConsensusGraphNode)
    requires
        key < slab_slots(*old(slab)).len(),
        slab_slots(*old(slab))[key as int] is Some,
    ensures
        slab_slots(*old(slab))[key as int] == Some(*node),
        slab_slots(*final(slab)) == slab_slots(*old(slab)).update(key as int, Some(*final(node))),
{
    &mut slab[key]
}

/// `slab::Slab::len`: how many values the slab holds; stated for a slab
/// without a vacant slot.
#[verifier::external_body]
fn slab_len(slab: &slab::Slab<ConsensusGraphNode>) -> (n: usize)
    requires
        slab_full(slab_slots(*slab)),
    ensures
        n == slab_slots(*slab).len(),
{
    slab.len()
}

/// All nodes of the graph, numbered in the order of their insertion. Nothing
/// is ever taken out.
pub struct Arena {
    slab: slab::Slab<ConsensusGraphNode>,
}

impl View for Arena {
    type V = Seq<ConsensusGraphNode>;

    closed spec fn view(&self) -> Seq<ConsensusGraphNode> {
        Seq::new(
            slab_slots(self.slab).len(),
            |i: int| slab_slots(self.slab)[i]->Some_0,
        )
    }
}

impl Arena {
    pub closed spec fn wf(&self) -> bool {
        slab_full(slab_slots(self.slab))
    }

    pub fn new() -> (arena: Arena)
        ensures
            arena.wf(),
            arena@ == Seq::<ConsensusGraphNode>::empty(),
    {
        let arena = Arena { slab: slab_new() };
        assert(arena@ =~= Seq::<ConsensusGraphNode>::empty());
        arena
    }

    pub fn len(&self) -> (n: usize)
        requires
            self.wf(),
        ensures
            n == self@.len(),
    {
        slab_len(&self.slab)
    }

    pub fn insert(&mut self, node: ConsensusGraphNode) -> (index: usize)
        requires
            old(self).wf(),
            old(self)@.len() < index_limit(),
        ensures
            final(self).wf(),
            index == old(self)@.len(),
            final(self)@ == old(self)@.push(node),
    {
        let index: usize = slab_insert(&mut self.slab, node);
        assert(self@ =~= old(self)@.push(node));
        index
    }

    pub fn get(&self, i: usize) -> (node: &ConsensusGraphNode)
        requires
            self.wf(),
            i < self@.len(),
        ensures
            *node == self@[i as int],
    {
        slab_index(&self.slab, i)
    }

    pub fn get_mut(&mut self, i: usize) -> (node: &mut ConsensusGraphNode)
        requires
            old(self).wf(),
            i < old(self)@.len(),
        ensures
            *node == old(self)@[i as int],
            final(self).wf(),
            final(self)@ == old(self)@.update(i as int, *final(node)),
    {
        slab_index_mut(&mut self.slab, i)
    }
}

/// Parents and referees of the nodes.
pub open spec fn dag_of(nodes: Seq<ConsensusGraphNode>) -> Dag {
    Dag {
        parent: nodes.map_values(|n: ConsensusGraphNode| n.parent),
        referees: nodes.map_values(|n: ConsensusGraphNode| n.referees@),
    }
}

} // verus!
