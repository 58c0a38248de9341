//! The epochs that the pivot chain cuts out of the graph.

use vstd::prelude::*;
use crate::anticone::Region;
#[allow(unused_imports)]
use crate::anticone::{lemma_chain_sees, lemma_epoch_monotone, lemma_epoch_up_to};
use crate::arena::{dag_of, ConsensusGraphNode, ConsensusGraphNodeData};
use crate::bits::BlockSet;
#[allow(unused_imports)]
use crate::bits::index_limit;
use crate::dag::NULL;
#[allow(unused_imports)]
use crate::dag::{lemma_reaches_earlier, lemma_reaches_step, lemma_reaches_transitive};
use crate::model::{chain_ok, epoch_ok, epochs_ok, is_epoch_of, links_ok};
#[allow(unused_imports)]
use crate::order::lemma_push_contains;
use crate::state::ConsensusGraphInner;
#[allow(unused_imports)]
use crate::state::lemma_node;
#[allow(unused_imports)]
use crate::views::{lemma_same_links, same_links};

verus! {

/// The nodes differ in their epoch numbers alone.
pub open spec fn same_but_epochs(a: Seq<ConsensusGraphNode>, b: Seq<ConsensusGraphNode>) -> bool {
    &&& a.len() == b.len()
    &&& forall|i: int|
        0 <= i < a.len() ==> #[trigger] b[i] == (ConsensusGraphNode {
            data: ConsensusGraphNodeData {
                epoch_number: b[i].data.epoch_number,
                ..a[i].data
            },
            ..a[i]
        })
}

pub proof fn lemma_same_but_epochs_transitive(
    a: Seq<ConsensusGraphNode>,
    b: Seq<ConsensusGraphNode>,
    c: Seq<ConsensusGraphNode>,
)
    requires
        same_but_epochs(a, b),
        same_but_epochs(b, c),
    ensures
        same_but_epochs(a, c),
{
    assert forall|i: int| 0 <= i < a.len() implies #[trigger] c[i] == (ConsensusGraphNode {
        data: ConsensusGraphNodeData { epoch_number: c[i].data.epoch_number, ..a[i].data },
        ..a[i]
    }) by {
        assert(b[i] == (ConsensusGraphNode {
            data: ConsensusGraphNodeData { epoch_number: b[i].data.epoch_number, ..a[i].data },
            ..a[i]
        }));
    }
}

/// A longer chain is right if its beginning is.
pub proof fn lemma_chain_take(par: Seq<usize>, chain: Seq<usize>, m: int)
    requires
        chain_ok(par, chain),
        0 < m <= chain.len(),
    ensures
        chain_ok(par, chain.take(m)),
{
    let t = chain.take(m);
    assert forall|i: int, j: int|
        #![trigger t[i], t[j]]
        0 <= i && j == i + 1 && j < t.len() implies par[t[j] as int] == t[i] by {
        assert(t[i] == chain[i] && t[j] == chain[j]);
    }
}

impl ConsensusGraphInner {
    /// Writes the epoch number into every block of the set.
    fn set_epochs(&mut self, set: &BlockSet, epoch: usize)
        requires
            old(self).arena.wf(),
            links_ok(old(self).nodes()),
            set.wf(),
            forall|x: int| #[trigger] set@.contains(x) ==> 0 <= x < old(self).size(),
        ensures
            final(self).arena.wf(),
            *final(self) == (ConsensusGraphInner { arena: final(self).arena, ..*old(self) }),
            same_but_epochs(old(self).nodes(), final(self).nodes()),
            forall|x: int|
                0 <= x < old(self).size() ==> (#[trigger] final(self).nodes()[x]).data.epoch_number
                    == (if set@.contains(x) {
                    epoch
                } else {
                    old(self).nodes()[x].data.epoch_number
                }),
    {
        let ghost start = *self;
        let ghost a = self.nodes();
        let items: Vec<usize> = set.to_vec();
        let mut j: usize = 0;
        proof {
            assert(a.len() <= index_limit()) by {
                reveal(links_ok);
            }
        }
        while j < items.len()
            invariant
                self.arena.wf(),
                *self == (ConsensusGraphInner { arena: self.arena, ..start }),
                a == start.nodes(),
                a.len() <= index_limit(),
                set.wf(),
                j <= items@.len(),
                forall|i: int| 0 <= i < items@.len() ==> (#[trigger] items@[i]) < a.len(),
                same_but_epochs(a, self.nodes()),
                forall|x: int|
                    0 <= x < a.len() ==> (#[trigger] self.nodes()[x]).data.epoch_number == (
                    if items@.take(j as int).contains(x as usize) {
                        epoch
                    } else {
                        a[x].data.epoch_number
                    }),
            decreases items@.len() - j,
        {
            let index: usize = items[j];
            assert(items@[j as int] < a.len());
            let ghost before = self.nodes();
            let node = self.arena.get_mut(index);
            node.data.epoch_number = epoch;
            j = j + 1;
            proof {
                let now = self.nodes();
                assert(items@.take(j as int) =~= items@.take(j - 1).push(index));
                assert forall|x: int| 0 <= x < a.len() implies (
                #[trigger] now[x]).data.epoch_number == (if items@.take(j as int).contains(
                    x as usize,
                ) {
                    epoch
                } else {
                    a[x].data.epoch_number
                }) by {
                    lemma_push_contains(items@.take(j - 1), index, x as usize);
                    assert(x != index ==> now[x] == before[x]);
                }
                assert forall|i: int| 0 <= i < a.len() implies #[trigger] now[i] == (
                ConsensusGraphNode {
                    data: ConsensusGraphNodeData {
                        epoch_number: now[i].data.epoch_number,
                        ..a[i].data
                    },
                    ..a[i]
                }) by {
                    assert(before[i] == (ConsensusGraphNode {
                        data: ConsensusGraphNodeData {
                            epoch_number: before[i].data.epoch_number,
                            ..a[i].data
                        },
                        ..a[i]
                    }));
                }
            }
        }
        proof {
            assert(items@.take(items@.len() as int) =~= items@);
            set.lemma_members_bounded();
            assert forall|x: int| 0 <= x < a.len() implies (
            #[trigger] self.nodes()[x]).data.epoch_number == (if set@.contains(x) {
                epoch
            } else {
                a[x].data.epoch_number
            }) by {
                if set@.contains(x) {
                    assert(items@.contains(x as usize));
                } else if items@.contains(x as usize) {
                    let i = items@.index_of(x as usize);
                    assert(set@.contains(items@[i] as int));
                }
            }
        }
    }

    /// Takes the blocks of the epochs from `fork_at` on out of their epochs.
    pub fn clear_epochs(&mut self, fork_at: usize)
        requires
            old(self).arena.wf(),
            links_ok(old(self).nodes()),
            chain_ok(old(self).parents(), old(self).pivot_chain@),
            epochs_ok(old(self).nodes(), old(self).pivot_chain@),
            0 < fork_at < old(self).pivot_chain@.len(),
        ensures
            final(self).arena.wf(),
            *final(self) == (ConsensusGraphInner { arena: final(self).arena, ..*old(self) }),
            same_but_epochs(old(self).nodes(), final(self).nodes()),
            epochs_ok(final(self).nodes(), old(self).pivot_chain@.take(fork_at as int)),
    {
        let ghost g = self.dag();
        let ghost a = self.nodes();
        let ghost chain = self.pivot_chain@;
        let last: usize = self.pivot_chain[self.pivot_chain.len() - 1];
        assert(chain[chain.len() - 1] < g.parent.len());
        let region = Region::AfterEpoch(fork_at - 1);
        proof {
            lemma_node(a, last as int);
            assert forall|x: int, y: int|
                #[trigger] g.edge(x, y) && !region.holds(a, x) implies !region.holds(a, y) by {
                lemma_reaches_step(g, x, y, y);
                lemma_epoch_monotone(a, chain, x, y);
                lemma_node(a, x);
            }
        }
        let obsolete: BlockSet = self.past_within(last, &region);
        proof {
            assert forall|x: int| #[trigger] obsolete@.contains(x) implies 0 <= x < a.len() by {
                lemma_reaches_earlier(g, last as int, x);
            }
        }
        self.set_epochs(&obsolete, NULL);
        proof {
            let b = self.nodes();
            let t = chain.take(fork_at as int);
            assert(same_links(a, b));
            lemma_same_links(a, b);
            reveal(epochs_ok);
            assert forall|x: int| 0 <= x < b.len() implies epoch_ok(
                g,
                t,
                x,
                (#[trigger] b[x]).data.epoch_number,
            ) by {
                let e = a[x].data.epoch_number;
                assert(epoch_ok(g, chain, x, e));
                lemma_epoch_up_to(a, chain, x, fork_at - 1);
                assert(t.last() == chain[fork_at - 1]);
                assert(obsolete@.contains(x) <==> x == last || (g.reaches(last as int, x)
                    && region.holds(a, x)));
                if x == last {
                    lemma_last_epoch(a, chain);
                }
                if !obsolete@.contains(x) {
                    if e != NULL && e < fork_at {
                        assert(t[e as int] == chain[e as int]);
                        if e > 0 {
                            assert(t[e - 1] == chain[e - 1]);
                        }
                    }
                    if e != NULL && e >= fork_at {
                        lemma_chain_sees(g, chain, e as int, chain.len() - 1);
                        lemma_reaches_transitive(g, last as int, chain[e as int] as int, x);
                    }
                    if e == NULL && g.reaches(chain[fork_at - 1] as int, x) {
                        lemma_chain_sees(g, chain, fork_at - 1, chain.len() - 1);
                        lemma_reaches_transitive(g, last as int, chain[fork_at - 1] as int, x);
                    }
                }
            }
        }
    }

    /// Gives the epochs of the chain from `fork_at` on to the blocks that are
    /// in no epoch.
    pub fn assign_epochs(&mut self, fork_at: usize)
        requires
            old(self).arena.wf(),
            links_ok(old(self).nodes()),
            chain_ok(old(self).parents(), old(self).pivot_chain@),
            0 < fork_at <= old(self).pivot_chain@.len() < NULL,
            epochs_ok(old(self).nodes(), old(self).pivot_chain@.take(fork_at as int)),
        ensures
            final(self).arena.wf(),
            *final(self) == (ConsensusGraphInner { arena: final(self).arena, ..*old(self) }),
            same_but_epochs(old(self).nodes(), final(self).nodes()),
            epochs_ok(final(self).nodes(), old(self).pivot_chain@),
    {
        let ghost start = *self;
        let ghost a = self.nodes();
        let ghost g = self.dag();
        let ghost chain = self.pivot_chain@;
        let mut at: usize = fork_at;
        while at < self.pivot_chain.len()
            invariant
                self.arena.wf(),
                *self == (ConsensusGraphInner { arena: self.arena, ..start }),
                a == start.nodes(),
                g == dag_of(a),
                chain == start.pivot_chain@,
                links_ok(a),
                chain_ok(g.parent, chain),
                0 < fork_at <= at <= chain.len() < NULL,
                same_but_epochs(a, self.nodes()),
                epochs_ok(self.nodes(), chain.take(at as int)),
            decreases chain.len() - at,
        {
            let ghost b = self.nodes();
            let ghost t = chain.take(at as int);
            proof {
                assert(same_links(a, b));
                lemma_same_links(a, b);
                lemma_chain_take(g.parent, chain, at as int);
                lemma_node(a, 0);
            }
            let pivot: usize = self.pivot_chain[at];
            assert(chain[at as int] < g.parent.len());
            let region = Region::AfterEpoch(at - 1);
            proof {
                assert forall|x: int, y: int|
                    #[trigger] g.edge(x, y) && !region.holds(b, x) implies !region.holds(b, y) by {
                    lemma_reaches_step(g, x, y, y);
                    lemma_epoch_monotone(b, t, x, y);
                    lemma_node(b, x);
                }
            }
            let members: BlockSet = self.past_within(pivot, &region);
            proof {
                assert forall|x: int| #[trigger] members@.contains(x) implies 0 <= x < b.len() by {
                    lemma_reaches_earlier(g, pivot as int, x);
                }
            }
            self.set_epochs(&members, at);
            proof {
                let c = self.nodes();
                let u = chain.take(at + 1);
                lemma_same_but_epochs_transitive(a, b, c);
                assert(same_links(b, c));
                lemma_same_links(b, c);
                assert(u.last() == pivot);
                assert(t.last() == chain[at - 1]);
                assert(chain[at - 1] < g.parent.len());
                lemma_chain_step_unseen(g, chain, at as int);
                reveal(epochs_ok);
                assert forall|x: int| 0 <= x < c.len() implies epoch_ok(
                    g,
                    u,
                    x,
                    (#[trigger] c[x]).data.epoch_number,
                ) by {
                    let e = b[x].data.epoch_number;
                    assert(epoch_ok(g, t, x, e));
                    lemma_epoch_up_to(b, t, x, at - 1);
                    assert(members@.contains(x) <==> x == pivot || (g.reaches(pivot as int, x)
                        && region.holds(b, x)));
                    if members@.contains(x) {
                        assert(u[at as int] == pivot && u[at - 1] == chain[at - 1]);
                        assert(!g.reaches(chain[at - 1] as int, x));
                        assert(is_epoch_of(g, u, x, at as int));
                    } else {
                        assert(c[x].data.epoch_number == e);
                        if e != NULL {
                            assert(t[e as int] == u[e as int]);
                            if e > 0 {
                                assert(t[e - 1] == u[e - 1]);
                            }
                        }
                    }
                }
            }
            at = at + 1;
        }
        proof {
            assert(chain.take(chain.len() as int) =~= chain);
        }
    }
}

/// The tip of the chain is in the last epoch.
proof fn lemma_last_epoch(nodes: Seq<ConsensusGraphNode>, chain: Seq<usize>)
    requires
        links_ok(nodes),
        chain_ok(dag_of(nodes).parent, chain),
        epochs_ok(nodes, chain),
    ensures
        nodes[chain.last() as int].data.epoch_number == chain.len() - 1,
{
    let g = dag_of(nodes);
    let last = chain.last() as int;
    assert(chain[chain.len() - 1] < g.parent.len());
    lemma_epoch_up_to(nodes, chain, last, chain.len() - 1);
    lemma_node(nodes, last);
    if chain.len() > 1 {
        lemma_epoch_up_to(nodes, chain, last, chain.len() - 2);
        lemma_chain_step_unseen(g, chain, chain.len() - 1);
    }
}

/// A block of the chain does not see the next one.
pub proof fn lemma_chain_step_unseen(g: crate::dag::Dag, chain: Seq<usize>, i: int)
    requires
        g.well_formed(),
        chain_ok(g.parent, chain),
        0 < i < chain.len(),
    ensures
        !g.reaches(chain[i - 1] as int, chain[i] as int),
{
    let c = chain[i] as int;
    assert(g.parent[c] == chain[i - 1]);
    assert(chain[i - 1] < g.parent.len());
    assert(c > 0);
    if g.reaches(chain[i - 1] as int, c) {
        lemma_reaches_earlier(g, chain[i - 1] as int, c);
    }
}

} // verus!
