//! Lookup by hash: a map from hashes to indices and a set of hashes.

use vstd::prelude::*;
use std::collections::HashMap;
use crate::types::H256;

verus! {

broadcast use vstd::std_specs::hash::group_hash_axioms;

/// A map from hashes to block indices, split by the two halves of the hash.
pub struct HashIndex {
    halves: HashMap<u128, HashMap<u128, usize>>,
}

impl View for HashIndex {
    type V = Map<H256, usize>;

    closed spec fn view(&self) -> Map<H256, usize> {
        Map::new(
            |h: H256| self.halves@.contains_key(h.hi) && self.halves@[h.hi]@.contains_key(h.lo),
            |h: H256| self.halves@[h.hi]@[h.lo],
        )
    }
}

impl HashIndex {
    pub fn new() -> (index: HashIndex)
        ensures
            index@ == Map::<H256, usize>::empty(),
    {
        let index = HashIndex { halves: HashMap::new() };
        assert(index@ =~= Map::<H256, usize>::empty());
        index
    }

    pub fn get(&self, hash: &H256) -> (found: Option<usize>)
        ensures
            found == (if self@.contains_key(*hash) {
                Some(self@[*hash])
            } else {
                None
            }),
    {
        match self.halves.get(&hash.hi) {
            Some(low) => match low.get(&hash.lo) {
                Some(i) => Some(*i),
                None => None,
            },
            None => None,
        }
    }

    pub fn contains(&self, hash: &H256) -> (present: bool)
        ensures
            present == self@.contains_key(*hash),
    {
        match self.get(hash) {
            Some(_) => true,
            None => false,
        }
    }

    pub fn insert(&mut self, hash: H256, i: usize)
        ensures
            final(self)@ == old(self)@.insert(hash, i),
    {
        let mut low: HashMap<u128, usize> = match self.halves.remove(&hash.hi) {
            Some(found) => found,
            None => HashMap::new(),
        };
        low.insert(hash.lo, i);
        self.halves.insert(hash.hi, low);
        assert(self@ =~= old(self)@.insert(hash, i));
    }
}

/// A small set of hashes, kept as a list without repetitions.
pub struct HashSetList {
    items: Vec<H256>,
}

impl View for HashSetList {
    type V = Set<H256>;

    closed spec fn view(&self) -> Set<H256> {
        self.items@.to_set()
    }
}

impl HashSetList {
    pub closed spec fn wf(&self) -> bool {
        self.items@.no_duplicates()
    }

    pub fn new() -> (set: HashSetList)
        ensures
            set.wf(),
            set@ == Set::<H256>::empty(),
    {
        let set = HashSetList { items: Vec::new() };
        assert(set@ =~= Set::<H256>::empty());
        set
    }

    fn position(&self, hash: &H256) -> (at: usize)
        ensures
            at <= self.items@.len(),
            at < self.items@.len() ==> self.items@[at as int] == *hash,
            at == self.items@.len() ==> !self.items@.contains(*hash),
    {
        let mut j: usize = 0;
        while j < self.items.len()
            invariant
                j <= self.items@.len(),
                forall|k: int| 0 <= k < j ==> self.items@[k] != *hash,
            decreases self.items.len() - j,
        {
            if self.items[j] == *hash {
                return j;
            }
            j = j + 1;
        }
        j
    }

    pub fn contains(&self, hash: &H256) -> (present: bool)
        ensures
            present == self@.contains(*hash),
    {
        let at: usize = self.position(hash);
        if at < self.items.len() {
            assert(self.items@.contains(*hash));
            true
        } else {
            false
        }
    }

    pub fn insert(&mut self, hash: H256)
        requires
            old(self).wf(),
        ensures
            final(self).wf(),
            final(self)@ == old(self)@.insert(hash),
    {
        let at: usize = self.position(&hash);
        if at < self.items.len() {
            assert(self.items@.contains(hash));
            assert(self@ =~= old(self)@.insert(hash));
        } else {
            self.items.push(hash);
            let ghost before = old(self).items@;
            assert forall|h: H256| self@.contains(h) <==> #[trigger] old(self)@.insert(hash).contains(h) by {
                if before.contains(h) {
                    let j = before.index_of(h);
                    assert(self.items@[j] == h);
                }
                if h == hash {
                    assert(self.items@[before.len() as int] == h);
                } else if self.items@.contains(h) {
                    let j = self.items@.index_of(h);
                    assert(before[j] == h);
                }
            }
            assert(self@ =~= old(self)@.insert(hash));
        }
    }

    pub fn remove(&mut self, hash: &H256)
        requires
            old(self).wf(),
        ensures
            final(self).wf(),
            final(self)@ == old(self)@.remove(*hash),
    {
        let at: usize = self.position(hash);
        if at < self.items.len() {
            let ghost before = self.items@;
            let _ = self.items.remove(at);
            assert forall|h: H256| self@.contains(h) <==> #[trigger] old(self)@.remove(*hash).contains(h) by {
                if before.contains(h) && h != *hash {
                    let j = before.index_of(h);
                    if j < at {
                        assert(self.items@[j] == h);
                    } else {
                        assert(self.items@[j - 1] == h);
                    }
                }
                if self.items@.contains(h) {
                    let j = self.items@.index_of(h);
                    if j < at {
                        assert(before[j] == h);
                    } else {
                        assert(before[j + 1] == h);
                    }
                }
            }
            assert(self@ =~= old(self)@.remove(*hash));
        } else {
            assert(self@ =~= old(self)@.remove(*hash));
        }
    }

    /// The members in some order, each once.
    pub fn to_vec(&self) -> (list: Vec<H256>)
        requires
            self.wf(),
        ensures
            list@.no_duplicates(),
            list@.to_set() == self@,
    {
        let mut list: Vec<H256> = Vec::new();
        let mut j: usize = 0;
        while j < self.items.len()
            invariant
                j <= self.items@.len(),
                list@ == self.items@.take(j as int),
            decreases self.items.len() - j,
        {
            list.push(self.items[j]);
            j = j + 1;
            assert(list@ =~= self.items@.take(j as int));
        }
        assert(list@ =~= self.items@);
        list
    }
}

} // verus!
