//! Building the pivot chain of a whole graph at once.

use vstd::prelude::*;
use crate::anticone::records_past_pivot;
#[allow(unused_imports)]
use crate::anticone::lemma_chain_sees;
use crate::arena::{dag_of, ConsensusGraphNode, ConsensusGraphPivotData};
use crate::bits::BlockSet;
use crate::config::DEFERRED_STATE_EPOCH_COUNT;
use crate::dag::NULL;
#[allow(unused_imports)]
use crate::dag::lemma_reaches_antisymmetric;
use crate::finish::same_but_places;
#[allow(unused_imports)]
use crate::finish::{lemma_heaviest_path_kept, lemma_settled};
#[allow(unused_imports)]
use crate::frames::{lemma_frame_subtree, same_origins, same_weights};
use crate::metadata::{is_late_pivot, is_recomputed, records_moved};
#[allow(unused_imports)]
use crate::metadata::lemma_records_moved;
use crate::model::{chain_ok, links_ok, metadata_ok, parents_of, tip_ok};
#[allow(unused_imports)]
use crate::order::lemma_indices_distinct;
use crate::pivot::{is_heaviest_path, subtree_weights};
#[allow(unused_imports)]
use crate::pivot::{lemma_chain_length, lemma_childless, lemma_heaviest_path_links,
    lemma_heaviest_path_same, lemma_heaviest_path_unique};
use crate::rewards::{is_task_for, payable_at, reward_index, EpochExecutionTask};
use crate::state::ConsensusGraphInner;
#[allow(unused_imports)]
use crate::state::lemma_node;
use crate::types::H256;
#[allow(unused_imports)]
use crate::validity::lemma_chain_index;
#[allow(unused_imports)]
use crate::views::{lemma_same_links, same_links};

verus! {

/// An epoch of the pivot chain and the block of the chain whose header records
/// the receipts root of that epoch.
pub struct ReceiptsRecord {
    pub epoch_hash: H256,
    pub recorded_in: H256,
}

/// The epochs whose receipts roots are recorded in headers of the chain, from
/// the first after genesis up to the last whose recording block is on it.
pub open spec fn receipts_recorded(
    inner: ConsensusGraphInner,
    chain: Seq<usize>,
    records: Seq<ReceiptsRecord>,
) -> bool {
    &&& records.len() == (if chain.len() > DEFERRED_STATE_EPOCH_COUNT {
        chain.len() - DEFERRED_STATE_EPOCH_COUNT - 1
    } else {
        0
    })
    &&& forall|i: int|
        0 <= i < records.len() ==> (#[trigger] records[i]) == (ReceiptsRecord {
            epoch_hash: inner.nodes()[chain[i + 1] as int].hash,
            recorded_in: inner.nodes()[chain[i + 1 + DEFERRED_STATE_EPOCH_COUNT] as int].hash,
        })
}

/// The task for the epoch whose state the next block refers to, unless it is that of
/// the first block.
pub open spec fn is_deferred_task(
    inner: ConsensusGraphInner,
    task: Option<EpochExecutionTask>,
) -> bool {
    let chain = inner.pivot_chain@;
    &&& task is Some <==> chain.len() > DEFERRED_STATE_EPOCH_COUNT
    &&& task matches Some(t) ==> is_task_for(
        inner,
        chain[chain.len() - DEFERRED_STATE_EPOCH_COUNT] as int,
        reward_index(chain, chain.len() - DEFERRED_STATE_EPOCH_COUNT),
        true,
        false,
        t,
    )
}

/// All of the first `n` blocks but the very first.
pub open spec fn all_but_first(n: nat) -> Set<int> {
    Set::new(|x: int| 1 <= x < n)
}

/// On a chain that was built at once, a block sees no pivot block beyond the one
/// that it records.
proof fn lemma_nothing_later(
    a: Seq<ConsensusGraphNode>,
    b: Seq<ConsensusGraphNode>,
    m: Seq<ConsensusGraphPivotData>,
    n: Seq<ConsensusGraphPivotData>,
    chain: Seq<usize>,
    x: int,
    i: int,
)
    requires
        links_ok(b),
        chain_ok(parents_of(b), chain),
        a.len() == b.len(),
        records_moved(a, b, m, n, chain, 0, all_but_first(b.len())),
        0 <= x < b.len(),
        0 <= i < chain.len(),
        dag_of(b).reaches(x, chain[i] as int),
    ensures
        i <= b[x].last_pivot_in_past,
    decreases x,
{
    let g = dag_of(b);
    lemma_node(b, x);
    if is_late_pivot(chain, 0, x) {
        let at = choose|at: int| 0 <= at < chain.len() && 0 <= at && #[trigger] chain[at] == x;
        assert(b[chain[at] as int].last_pivot_in_past == at);
        if i > at {
            lemma_chain_sees(g, chain, at, i);
            lemma_reaches_antisymmetric(g, x, chain[i] as int);
            lemma_chain_index(parents_of(b), chain, at);
            lemma_chain_index(parents_of(b), chain, i);
        }
    } else {
        assert(chain[0] == 0);
        assert(all_but_first(b.len()).contains(x));
        assert(is_recomputed(chain, 0, all_but_first(b.len()), x));
        assert(x != chain[i]);
        let y = choose|y: int|
            #[trigger] g.edge(x, y) && 0 <= y < x && g.reaches(y, chain[i] as int);
        lemma_nothing_later(a, b, m, n, chain, y, i);
        if b[x].parent != y {
            let j = choose|j: int|
                0 <= j < b[x].referees@.len() && b[x].referees@[j] == y as usize;
            assert(b[b[x].referees@[j] as int].last_pivot_in_past
                <= b[x].last_pivot_in_past);
        }
    }
}

/// After the chain was built for a whole graph at once, every block records the
/// last block of the chain that it sees.
pub proof fn lemma_built_records_last(before: ConsensusGraphInner, after: ConsensusGraphInner)
    requires
        after.wf(),
        before.size() == after.size(),
        records_moved(
            before.nodes(),
            after.nodes(),
            before.pivot_chain_metadata@,
            after.pivot_chain_metadata@,
            after.pivot_chain@,
            0,
            all_but_first(before.size()),
        ),
    ensures
        forall|x: int|
            0 <= x < after.size() ==> #[trigger] records_past_pivot(
                after.nodes(),
                after.pivot_chain@,
                x,
            ),
        forall|x: int, i: int|
            0 <= x < after.size() && 0 <= i < after.pivot_chain@.len()
                && #[trigger] after.dag().reaches(x, after.pivot_chain@[i] as int) ==> i
                <= after.nodes()[x].last_pivot_in_past,
{
    let b = after.nodes();
    let chain = after.pivot_chain@;
    assert forall|x: int| 0 <= x < after.size() implies #[trigger] records_past_pivot(
        b,
        chain,
        x,
    ) by {
        assert(b[x].last_pivot_in_past < chain.len());
    }
    assert forall|x: int, i: int|
        0 <= x < after.size() && 0 <= i < chain.len() && #[trigger] after.dag().reaches(
            x,
            chain[i] as int,
        ) implies i <= b[x].last_pivot_in_past by {
        lemma_nothing_later(
            before.nodes(),
            b,
            before.pivot_chain_metadata@,
            after.pivot_chain_metadata@,
            chain,
            x,
            i,
        );
    }
}

impl ConsensusGraphInner {
    /// The heaviest path from the first block, by the subtree weights.
    pub open spec fn is_pivot_to_be(&self, path: Seq<usize>) -> bool {
        &&& is_heaviest_path(
            self.nodes(),
            subtree_weights(self.inner_conf, self.nodes(), self.size()),
            path,
        )
        &&& path[0] == 0
    }

    /// The chain that the heaviest subtrees make, from the first block on.
    pub fn pivot_to_be(&self) -> (path: Vec<usize>)
        requires
            self.ready(),
        ensures
            self.is_pivot_to_be(path@),
            forall|other: Seq<usize>| #[trigger] self.is_pivot_to_be(other) ==> other == path@,
            chain_ok(self.parents(), path@),
            tip_ok(self.nodes(), path@, self.size()),
            path@.len() < NULL,
    {
        let ghost nodes = self.nodes();
        let ghost n = self.size();
        let ghost w = subtree_weights(self.inner_conf, nodes, n);
        let ghost par = self.parents();
        proof {
            assert(self.pivot_chain@[0] < n);
            lemma_node(nodes, 0);
            lemma_indices_distinct(nodes, self.indices@);
            self.lemma_tree_weight_at(n, 0);
        }
        let path: Vec<usize> = self.heaviest_path(0);
        proof {
            let u = |x: int| self.trees.weight_tree.values()[x] as int;
            assert forall|x: int| 0 <= x < n implies #[trigger] u(x) == w(x) by {
                self.lemma_tree_weight_at(n, x);
            }
            lemma_heaviest_path_same(nodes, u, w, path@);
            assert forall|other: Seq<usize>| #[trigger] self.is_pivot_to_be(other) implies other
                == path@ by {
                lemma_heaviest_path_unique(nodes, w, other, path@);
            }
            assert forall|i: int| 0 <= i < path@.len() implies (#[trigger] path@[i])
                < par.len() by {
                lemma_heaviest_path_links(nodes, w, path@, i);
            }
            assert forall|i: int, j: int|
                #![trigger path@[i], path@[j]]
                0 <= i && j == i + 1 && j < path@.len() implies par[path@[j] as int]
                == path@[i] by {
                lemma_heaviest_path_links(nodes, w, path@, j);
                lemma_node(nodes, path@[j] as int);
            }
            assert(chain_ok(par, path@));
            lemma_chain_length(par, path@);
            assert(path@[path@.len() - 1] < par.len());
            assert forall|x: int|
                0 <= x < n && #[trigger] crate::dag::ancestor(par, path@.last() as int, x) && x
                    != path@.last() implies nodes[x].data.partial_invalid by {
                lemma_childless(nodes, path@.last() as int, x);
            }
        }
        path
    }

    /// Replaces the pivot chain of one block by the chain of the whole graph,
    /// and gives every block its epoch and its last pivot block.
    pub fn construct_pivot(&mut self)
        requires
            old(self).ready(),
            old(self).pivot_chain@ == seq![0usize],
        ensures
            final(self).wf(),
            *final(self) == (ConsensusGraphInner {
                arena: final(self).arena,
                pivot_chain: final(self).pivot_chain,
                pivot_chain_metadata: final(self).pivot_chain_metadata,
                ..*old(self)
            }),
            same_but_places(old(self).nodes(), final(self).nodes()),
            final(self).is_pivot_to_be(final(self).pivot_chain@),
            old(self).is_pivot_to_be(final(self).pivot_chain@),
            records_moved(
                old(self).nodes(),
                final(self).nodes(),
                old(self).pivot_chain_metadata@,
                final(self).pivot_chain_metadata@,
                final(self).pivot_chain@,
                0,
                all_but_first(old(self).size()),
            ),
    {
        let ghost start = *self;
        let ghost a = self.nodes();
        let ghost n = self.size();
        let path: Vec<usize> = self.pivot_to_be();
        let ghost chain = path@;
        let ghost old_chain = self.pivot_chain@;
        self.pivot_chain = path;
        proof {
            assert(chain.take(1) =~= old_chain);
        }
        self.assign_epochs(1);
        let ghost c = self.nodes();
        proof {
            assert(same_links(a, c));
            lemma_same_links(a, c);
            lemma_node(c, 0);
        }
        let mut to_update = BlockSet::new();
        let count: usize = self.arena.len();
        let mut i: usize = 1;
        while i < count
            invariant
                count == n,
                n <= crate::bits::index_limit(),
                1 <= i,
                to_update.wf(),
                forall|x: int| #[trigger] to_update@.contains(x) <==> 1 <= x < i && x < n,
            decreases count - i,
        {
            to_update.add(i);
            i += 1;
        }
        let ghost set = to_update@;
        assert(set =~= all_but_first(n));
        proof {
            assert forall|x: int|
                0 <= x < n && !is_recomputed(chain, 0, set, x) && !is_late_pivot(
                    chain,
                    0,
                    x,
                ) implies #[trigger] records_past_pivot(c, chain, x) by {
                assert(chain[0] == 0);
            }
        }
        self.recompute_metadata(0, to_update);
        proof {
            let d = self.nodes();
            let lists = self.pivot_chain_metadata@;
            assert(metadata_ok(d, lists, chain, n)) by {
                reveal(metadata_ok);
                assert forall|x: int| 0 <= x < n implies lists[(
                #[trigger] d[x]).last_pivot_in_past as int].last_pivot_in_past_blocks@.contains(
                    x as usize,
                ) by {
                    assert(d[x].last_pivot_in_past < chain.len());
                    if is_late_pivot(chain, 0, x) {
                        let at = choose|at: int|
                            0 <= at < chain.len() && 0 <= at && #[trigger] chain[at] == x;
                        assert(d[chain[at] as int].last_pivot_in_past == at);
                    } else {
                        assert(chain[0] == 0);
                        assert(is_recomputed(chain, 0, set, x));
                    }
                }
                assert forall|j: int, x: usize|
                    0 <= j < lists.len() implies (
                #[trigger] lists[j].last_pivot_in_past_blocks@.contains(x) <==> x < n && d[x as int]
                    .last_pivot_in_past == j) by {
                    assert(chain[j] < n);
                    assert(d[chain[j] as int].last_pivot_in_past == j);
                    if is_recomputed(chain, 0, set, x as int) {
                        assert(set.contains(x as int));
                    }
                }
            }
            lemma_records_moved(a, c, d, start.pivot_chain_metadata@, lists, chain, 0, set);
            lemma_settled(start, *self, c);
            assert(same_links(a, d));
            lemma_same_links(a, d);
            let w = subtree_weights(self.inner_conf, a, n);
            let v = subtree_weights(self.inner_conf, d, n);
            assert(same_origins(a, d, n));
            assert(same_weights(a, d, n));
            assert forall|x: int| #[trigger] w(x) == v(x) by {
                lemma_frame_subtree(self.inner_conf, a, d, n, x);
            }
            assert(w =~= v);
            lemma_heaviest_path_kept(a, d, w, chain);
        }
    }

    /// Where the receipts roots of the epochs of the chain are recorded.
    pub fn receipts_records(&self) -> (records: Vec<ReceiptsRecord>)
        requires
            self.readable(),
        ensures
            receipts_recorded(*self, self.pivot_chain@, records@),
    {
        let delay: usize = DEFERRED_STATE_EPOCH_COUNT as usize;
        let len: usize = self.pivot_chain.len();
        let mut records: Vec<ReceiptsRecord> = Vec::new();
        if len <= delay {
            return records;
        }
        let mut height: usize = 1;
        while height < len - delay
            invariant
                self.readable(),
                len == self.pivot_chain@.len(),
                delay == DEFERRED_STATE_EPOCH_COUNT,
                delay < len,
                1 <= height <= len - delay,
                records@.len() == height - 1,
                forall|i: int|
                    0 <= i < records@.len() ==> (#[trigger] records@[i]) == (ReceiptsRecord {
                        epoch_hash: self.nodes()[self.pivot_chain@[i + 1] as int].hash,
                        recorded_in: self.nodes()[self.pivot_chain@[i + 1
                            + DEFERRED_STATE_EPOCH_COUNT] as int].hash,
                    }),
            decreases len - height,
        {
            let epoch_hash: H256 = self.arena.get(self.pivot_chain[height]).hash;
            let recorded_in: H256 = self.arena.get(self.pivot_chain[height + delay]).hash;
            records.push(ReceiptsRecord { epoch_hash, recorded_in });
            height += 1;
        }
        records
    }

    /// The epoch whose state the next block to be mined refers to. Its receipts
    /// are in no header yet: they are read back, or the task is run.
    pub fn deferred_epoch_task(&self) -> (task: Option<EpochExecutionTask>)
        requires
            self.readable(),
            self.pivot_chain@.len() > DEFERRED_STATE_EPOCH_COUNT ==> payable_at(
                *self,
                self.pivot_chain@,
                self.pivot_chain@.len() - DEFERRED_STATE_EPOCH_COUNT,
            ),
        ensures
            task is Some <==> self.pivot_chain@.len() > DEFERRED_STATE_EPOCH_COUNT,
            task matches Some(t) ==> is_task_for(
                *self,
                self.pivot_chain@[self.pivot_chain@.len() - DEFERRED_STATE_EPOCH_COUNT] as int,
                reward_index(
                    self.pivot_chain@,
                    self.pivot_chain@.len() - DEFERRED_STATE_EPOCH_COUNT,
                ),
                true,
                false,
                t,
            ),
            is_deferred_task(*self, task),
    {
        let delay: usize = DEFERRED_STATE_EPOCH_COUNT as usize;
        let len: usize = self.pivot_chain.len();
        if len > delay {
            Some(self.epoch_task(&self.pivot_chain, len - delay, true))
        } else {
            None
        }
    }
}

} // verus!
