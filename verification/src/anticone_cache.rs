//! A bounded cache of anticones.

use vstd::prelude::*;
use std::collections::{HashMap, HashSet, VecDeque};
use crate::bits::BlockSet;

verus! {

broadcast use vstd::std_specs::hash::group_hash_axioms;

/// How many anticones are kept.
pub const ANTICONE_CACHE_SIZE: usize = 10000;

/// The anticones of recent blocks, the oldest in front of the queue.
pub struct AnticoneCache {
    data: HashMap<usize, HashSet<usize>>,
    order: VecDeque<usize>,
}

impl View for AnticoneCache {
    type V = Map<usize, Set<usize>>;

    closed spec fn view(&self) -> Map<usize, Set<usize>> {
        self.data@.map_values(|s: HashSet<usize>| s@)
    }
}

impl AnticoneCache {
    pub fn new() -> (cache: AnticoneCache)
        ensures
            cache@ == Map::<usize, Set<usize>>::empty(),
    {
        let cache = AnticoneCache { data: HashMap::new(), order: VecDeque::new() };
        assert(cache@ =~= Map::<usize, Set<usize>>::empty());
        cache
    }

    /// The anticone of `me`, if it is still kept.
    pub fn get(&self, me: usize) -> (found: Option<&HashSet<usize>>)
        ensures
            found matches Some(s) ==> self@.contains_key(me) && s@ == self@[me],
            found is None ==> !self@.contains_key(me),
    {
        self.data.get(&me)
    }

    /// Records the anticone of the new block `me`, and `me` in the anticones of
    /// its members. Older entries may be dropped; the entry of `me` is kept.
    pub fn update(&mut self, me: usize, anticone: &BlockSet)
        requires
            anticone.wf(),
            !old(self)@.contains_key(me),
        ensures
            final(self)@.contains_key(me),
            final(self)@[me] == Set::new(|y: usize| anticone@.contains(y as int)),
            forall|x: usize| #[trigger]
                final(self)@.contains_key(x) && x != me ==> old(self)@.contains_key(x)
                    && final(self)@[x] == (if anticone@.contains(x as int) {
                    old(self)@[x].insert(me)
                } else {
                    old(self)@[x]
                }),
    {
        let items: Vec<usize> = anticone.to_vec();
        let mut own: HashSet<usize> = HashSet::new();
        let ghost before = self@;
        let mut j: usize = 0;
        while j < items.len()
            invariant
                j <= items@.len(),
                items@.no_duplicates(),
                !before.contains_key(me),
                self@.dom() == before.dom(),
                forall|y: usize| #[trigger] own@.contains(y) <==> items@.take(j as int).contains(y),
                forall|x: usize| #[trigger]
                    before.contains_key(x) ==> self@[x] == (if items@.take(j as int).contains(x) {
                        before[x].insert(me)
                    } else {
                        before[x]
                    }),
            decreases items@.len() - j,
        {
            let i: usize = items[j];
            let ghost here = self@;
            own.insert(i);
            match self.data.remove(&i) {
                Some(mut set) => {
                    set.insert(me);
                    self.data.insert(i, set);
                },
                None => {},
            }
            proof {
                let t = items@.take(j as int);
                let u = items@.take(j + 1);
                assert(u =~= t.push(i));
                assert(!t.contains(i)) by {
                    if t.contains(i) {
                        let k = t.index_of(i);
                        assert(items@[k] == items@[j as int]);
                    }
                }
                assert forall|y: usize| u.contains(y) <==> (y == i || #[trigger] t.contains(y)) by {
                    if t.contains(y) {
                        let k = t.index_of(y);
                        assert(u[k] == y);
                    }
                    if y == i {
                        assert(u[j as int] == y);
                    }
                    if u.contains(y) && y != i {
                        let k = u.index_of(y);
                        assert(t[k] == y);
                    }
                }
                assert(self@.dom() =~= before.dom());
                assert forall|x: usize| #[trigger] before.contains_key(x) implies self@[x] == (
                if u.contains(x) {
                    before[x].insert(me)
                } else {
                    before[x]
                }) by {
                    assert(t.contains(x) || !t.contains(x));
                    assert(here.contains_key(x));
                    if x == i {
                        assert(here[x] == before[x]);
                    } else {
                        assert(self@[x] == here[x]);
                    }
                }
            }
            j = j + 1;
        }
        assert(items@.take(items@.len() as int) =~= items@);
        let ghost marked = self@;
        let ghost members = own@;
        if self.data.len() >= ANTICONE_CACHE_SIZE {
            match self.order.pop_front() {
                Some(oldest) => {
                    let _ = self.data.remove(&oldest);
                },
                None => {},
            }
        }
        self.order.push_back(me);
        self.data.insert(me, own);
        proof {
            anticone.lemma_members_bounded();
            assert forall|y: usize| members.contains(y) <==> #[trigger] anticone@.contains(y as int) by {
                if members.contains(y) {
                    let k = items@.index_of(y);
                    assert(items@[k] == y);
                }
            }
            assert(self@[me] =~= Set::new(|y: usize| anticone@.contains(y as int)));
            assert forall|x: usize| #[trigger] self@.contains_key(x) && x != me implies
                before.contains_key(x) && self@[x] == (if anticone@.contains(x as int) {
                before[x].insert(me)
            } else {
                before[x]
            }) by {
                assert(marked.contains_key(x));
                assert(self@[x] == marked[x]);
                assert(before.contains_key(x));
                assert(items@.contains(x) <==> members.contains(x));
            }
        }
    }
}

} // verus!
