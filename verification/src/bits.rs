//! Sets of block indices, kept as hierarchical bit sets.

use vstd::prelude::*;

verus! {

/// Declares `hibitset::BitSet`.
#[verifier::external_type_specification]
#[verifier::external_body]
pub struct ExBitSet(hibitset::BitSet);

/// The indices that a `hibitset::BitSet` holds.
pub uninterp spec fn bit_set_members(set: hibitset::BitSet) -> Set<u32>;

/// How many indices a bit set can tell apart: four layers of words of
/// `usize::BITS` bits each.
pub open spec fn index_limit() -> nat {
    if usize::BITS == 64 {
        0x100_0000
    } else {
        0x10_0000
    }
}

/// `hibitset::BitSet::new`: an empty set.
#[verifier::external_body]
fn bit_set_new() -> (set: hibitset::BitSet)
    ensures
        bit_set_members(set) == Set::<u32>::empty(),
{
    hibitset::BitSet::new()
}

/// `hibitset::BitSet::add`: adds an index below the limit and tells whether
/// it was there before.
#[verifier::external_body]
fn bit_set_add(set: &mut hibitset::BitSet, id: u32) -> (present: bool)
    requires
        id < index_limit(),
    ensures
        present == bit_set_members(*old(set)).contains(id),
        bit_set_members(*final(set)) == bit_set_members(*old(set)).insert(id),
{
    set.add(id)
}

/// `hibitset::BitSet::remove`: takes an index below the limit out and tells
/// whether it was there.
#[verifier::external_body]
fn bit_set_remove(set: &mut hibitset::BitSet, id: u32) -> (present: bool)
    requires
        id < index_limit(),
        forall|i: u32| #[trigger] bit_set_members(*old(set)).contains(i) ==> i < index_limit(),
    ensures
        present == bit_set_members(*old(set)).contains(id),
        bit_set_members(*final(set)) == bit_set_members(*old(set)).remove(id),
{
    set.remove(id)
}

/// `hibitset::BitSet::contains`: membership.
#[verifier::external_body]
fn bit_set_contains(set: &hibitset::BitSet, id: u32) -> (present: bool)
    ensures
        present == bit_set_members(*set).contains(id),
{
    set.contains(id)
}

/// `hibitset::BitSetLike::iter`: hands out the members, smallest first, each
/// once.
#[verifier::external_body]
fn bit_set_iter(set: &hibitset::BitSet) -> (items: Vec<u32>)
    requires
        forall|i: u32| #[trigger] bit_set_members(*set).contains(i) ==> i < index_limit(),
    ensures
        forall|i: u32| items@.contains(i) <==> #[trigger] bit_set_members(*set).contains(i),
        forall|j: int, k: int| 0 <= j < k < items@.len() ==> items@[j] < items@[k],
{
    hibitset::BitSetLike::iter(set).collect()
}

/// A set of block indices.
pub struct BlockSet {
    bits: hibitset::BitSet,
}

impl View for BlockSet {
    type V = Set<int>;

    closed spec fn view(&self) -> Set<int> {
        Set::new(
            |i: int| 0 <= i < index_limit() && bit_set_members(self.bits).contains(i as u32),
        )
    }
}

impl BlockSet {
    pub closed spec fn wf(&self) -> bool {
        forall|i: u32| #[trigger] bit_set_members(self.bits).contains(i) ==> i < index_limit()
    }

    pub proof fn lemma_members_bounded(&self)
        ensures
            forall|i: int| #[trigger] self@.contains(i) ==> 0 <= i < index_limit(),
    {
    }

    pub fn new() -> (set: BlockSet)
        ensures
            set.wf(),
            set@ == Set::<int>::empty(),
    {
        let set = BlockSet { bits: bit_set_new() };
        assert(set@ =~= Set::<int>::empty());
        set
    }

    pub fn add(&mut self, i: usize)
        requires
            old(self).wf(),
            i < index_limit(),
        ensures
            final(self).wf(),
            final(self)@ == old(self)@.insert(i as int),
    {
        let _ = bit_set_add(&mut self.bits, i as u32);
        assert(self@ =~= old(self)@.insert(i as int));
    }

    pub fn remove(&mut self, i: usize)
        requires
            old(self).wf(),
            i < index_limit(),
        ensures
            final(self).wf(),
            final(self)@ == old(self)@.remove(i as int),
    {
        let _ = bit_set_remove(&mut self.bits, i as u32);
        assert(self@ =~= old(self)@.remove(i as int));
    }

    pub fn contains(&self, i: usize) -> (present: bool)
        requires
            self.wf(),
        ensures
            present == self@.contains(i as int),
    {
        if i < 0x100_0000 {
            bit_set_contains(&self.bits, i as u32)
        } else {
            false
        }
    }

    /// The members, smallest first.
    pub fn to_vec(&self) -> (items: Vec<usize>)
        requires
            self.wf(),
        ensures
            forall|i: int|
                #[trigger] self@.contains(i) <==> 0 <= i < index_limit() && items@.contains(
                    i as usize,
                ),
            forall|j: int| 0 <= j < items@.len() ==> self@.contains(#[trigger] items@[j] as int),
            forall|j: int, k: int| 0 <= j < k < items@.len() ==> items@[j] < items@[k],
            items@.no_duplicates(),
    {
        let raw: Vec<u32> = bit_set_iter(&self.bits);
        let mut items: Vec<usize> = Vec::new();
        let mut j: usize = 0;
        while j < raw.len()
            invariant
                j <= raw.len(),
                items@.len() == j,
                forall|k: int| 0 <= k < j ==> #[trigger] items@[k] == raw@[k],
            decreases raw.len() - j,
        {
            items.push(raw[j] as usize);
            j = j + 1;
        }
        proof {
            assert forall|i: int| #[trigger] self@.contains(i) implies 0 <= i < index_limit()
                && items@.contains(i as usize) by {
                assert(raw@.contains(i as u32));
                let k = raw@.index_of(i as u32);
                assert(items@[k] == i as usize);
            }
            assert forall|k: int| 0 <= k < items@.len() implies self@.contains(
                #[trigger] items@[k] as int,
            ) by {
                assert(raw@.contains(raw@[k]));
                assert(bit_set_members(self.bits).contains(raw@[k]));
            }
            assert forall|i: int| 0 <= i < index_limit() && items@.contains(i as usize) implies
                #[trigger] self@.contains(i) by {
                let k = items@.index_of(i as usize);
                assert(items@[k] == i as usize);
            }
        }
        items
    }

    /// How many blocks the set holds.
    pub fn len(&self) -> (n: usize)
        requires
            self.wf(),
        ensures
            n == self@.len(),
            self@.finite(),
    {
        let items: Vec<usize> = self.to_vec();
        proof {
            let ints = items@.map_values(|i: usize| i as int);
            assert(ints.no_duplicates());
            assert forall|i: int| #[trigger] ints.contains(i) <==> self@.contains(i) by {
                if self@.contains(i) {
                    let j = choose|j: int| 0 <= j < items@.len() && items@[j] == i as usize;
                    assert(ints[j] == i);
                }
            }
            assert(ints.to_set() =~= self@);
            ints.unique_seq_to_set();
            vstd::seq_lib::seq_to_set_is_finite(ints);
        }
        items.len()
    }
}

} // verus!
