//! Questions about the graph and its pivot chain.

use vstd::prelude::*;
use crate::arena::{dag_of, ConsensusGraphNode};
use crate::config::DEFERRED_STATE_EPOCH_COUNT;
#[allow(unused_imports)]
use crate::dag::{lemma_reaches_earlier, lemma_reaches_step, lemma_reaches_transitive};
use crate::model::{chain_ok, in_own_epoch, links_ok, parents_of, respects_edges, views_ok};
use crate::rewards::epoch_hashes;
use crate::state::ConsensusGraphInner;
#[allow(unused_imports)]
use crate::state::lemma_node;
use crate::text::{decimal, write_decimal};
use crate::types::{EpochNumber, H256, U256};

verus! {

/// A difficulty that is either known from the graph or has to be worked out
/// from the timestamps of the period that ends with the named block.
#[derive(Clone, Copy)]
pub enum Difficulty {
    Known(U256),
    PeriodEndingAt(H256),
}

/// The height of the newest epoch whose state is final enough to be read, on a
/// chain of `len` epochs.
pub open spec fn state_height(len: int) -> int {
    if len < DEFERRED_STATE_EPOCH_COUNT {
        0
    } else {
        len - DEFERRED_STATE_EPOCH_COUNT
    }
}

/// The difficulty expected of the children of a block.
pub open spec fn difficulty_after(inner: ConsensusGraphInner, parent: int) -> Difficulty {
    let height = inner.nodes()[parent].height;
    let period = inner.pow_config.difficulty_adjustment_epoch_period;
    if height < period {
        Difficulty::Known(U256 { hi: 0, lo: inner.pow_config.initial_difficulty as u128 })
    } else if height % period != 0 {
        Difficulty::Known(inner.nodes()[parent].difficulty)
    } else {
        Difficulty::PeriodEndingAt(inner.nodes()[parent].hash)
    }
}

/// The height that a query means, if the chain has it.
pub open spec fn height_meant(len: int, epoch_number: EpochNumber) -> Option<int> {
    match epoch_number {
        EpochNumber::Earliest => Some(0),
        EpochNumber::LatestMined => Some(len - 1),
        EpochNumber::LatestState => Some(state_height(len)),
        EpochNumber::Number(n) => if n < len {
            Some(n as int)
        } else {
            None
        },
    }
}

/// What a query for an epoch beyond the chain is told.
pub open spec fn no_such_epoch() -> Seq<char> {
    "Invalid params: expected a numbers with less than largest epoch number."@
}

/// What a query for the state of an epoch is told when that state has not been
/// computed yet.
pub open spec fn not_executed(n: nat, latest: nat) -> Seq<char> {
    "Specified epoch "@ + decimal(n) + " is not executed, the latest state epoch is "@ + decimal(
        latest,
    )
}

/// The height of the state that a query for state means, or what the query is
/// told if that state is not there yet.
pub open spec fn stated_height(len: int, epoch_number: EpochNumber) -> Result<int, Seq<char>> {
    let latest = state_height(len);
    match epoch_number {
        EpochNumber::Earliest => Ok(0),
        EpochNumber::LatestMined => Err("Latest mined epoch is not executed"@),
        EpochNumber::LatestState => Ok(latest),
        EpochNumber::Number(n) => if n > latest {
            Err(not_executed(n as nat, latest as nat))
        } else {
            Ok(n as int)
        },
    }
}

/// The hash of the pivot block whose epoch holds a block, if one does.
pub open spec fn is_epoch_hash_of(
    inner: ConsensusGraphInner,
    hash: H256,
    epoch: Option<H256>,
) -> bool {
    &&& epoch is Some <==> inner.indices@.contains_key(hash) && inner.dag().reaches(
        inner.pivot_chain@.last() as int,
        inner.indices@[hash] as int,
    )
    &&& epoch matches Some(h) ==> exists|e: int| #[trigger]
        crate::model::is_epoch_of(
            inner.dag(),
            inner.pivot_chain@,
            inner.indices@[hash] as int,
            e,
        ) && h == inner.nodes()[inner.pivot_chain@[e] as int].hash
}

/// Why a block is not the pivot block of an epoch, if it is not.
pub open spec fn refuted_assumption(
    inner: ConsensusGraphInner,
    pivot_hash: H256,
    epoch: int,
) -> Option<Seq<char>> {
    let chain = inner.pivot_chain@;
    if epoch >= chain.len() {
        Some(no_such_epoch())
    } else if inner.nodes()[chain[epoch] as int].hash != pivot_hash {
        Some("Error: pivot chain assumption failed"@)
    } else {
        None
    }
}

/// The blocks of the epochs of a chain, epoch after epoch.
pub open spec fn epochs_in_order(nodes: Seq<ConsensusGraphNode>, chain: Seq<usize>) -> Seq<usize>
    decreases chain.len(),
{
    if chain.len() == 0 {
        Seq::empty()
    } else {
        epochs_in_order(nodes, chain.drop_last())
            + nodes[chain.last() as int].data.ordered_epoch_blocks@
    }
}

/// The epochs of a chain list, once each, exactly the blocks that its last block
/// sees, every block after all that it refers to.
pub proof fn lemma_epochs_cover_past(nodes: Seq<ConsensusGraphNode>, chain: Seq<usize>)
    requires
        links_ok(nodes),
        views_ok(nodes, nodes.len()),
        chain_ok(parents_of(nodes), chain),
    ensures
        epochs_in_order(nodes, chain).no_duplicates(),
        forall|y: usize| #[trigger]
            epochs_in_order(nodes, chain).contains(y) <==> dag_of(nodes).reaches(
                chain.last() as int,
                y as int,
            ),
        respects_edges(dag_of(nodes), epochs_in_order(nodes, chain)),
    decreases chain.len(),
{
    let g = dag_of(nodes);
    let tip = chain.last() as int;
    let list = nodes[tip].data.ordered_epoch_blocks@;
    let all = epochs_in_order(nodes, chain);
    lemma_node(nodes, tip);
    assert(crate::model::epoch_list_ok(g, tip, list)) by {
        reveal(crate::model::views_ok);
    }
    if chain.len() == 1 {
        assert(chain.drop_last().len() == 0);
        assert(epochs_in_order(nodes, chain.drop_last()) =~= Seq::<usize>::empty());
        assert(all =~= list);
        assert(tip == 0);
        assert forall|y: usize| #[trigger] all.contains(y) implies g.reaches(tip, y as int) by {
        }
        assert forall|y: usize| g.reaches(tip, y as int) implies #[trigger] all.contains(y) by {
            if y != 0 {
                assert(in_own_epoch(g, 0, y as int));
            }
        }
    } else {
        let front = chain.drop_last();
        let before = epochs_in_order(nodes, front);
        let prev = front.last() as int;
        assert(chain_ok(parents_of(nodes), front));
        lemma_epochs_cover_past(nodes, front);
        assert(chain[chain.len() - 2] == prev);
        assert(chain[chain.len() - 1] == tip);
        assert(g.parent[tip] == prev);
        assert(tip > 0);
        lemma_node(nodes, prev);
        assert(g.edge(tip, prev));
        assert forall|y: usize| #[trigger] all.contains(y) <==> before.contains(y) || list.contains(
            y,
        ) by {
            lemma_concat_contains(before, list, y);
        }
        assert forall|y: usize| #[trigger] all.contains(y) implies g.reaches(tip, y as int) by {
            if before.contains(y) {
                lemma_reaches_step(g, tip, prev, y as int);
            }
        }
        assert forall|y: usize| g.reaches(tip, y as int) implies #[trigger] all.contains(y) by {
            if !g.reaches(prev, y as int) && y != tip {
                assert(in_own_epoch(g, tip, y as int));
            }
        }
        assert forall|y: usize| !(#[trigger] before.contains(y) && list.contains(y)) by {
            if before.contains(y) && list.contains(y) {
                assert(g.reaches(prev, y as int));
                lemma_reaches_earlier(g, prev, y as int);
            }
        }
        assert(all.no_duplicates()) by {
            assert forall|i: int, j: int| 0 <= i < all.len() && 0 <= j < all.len() && i != j
                implies all[i] != all[j] by {
                if i < before.len() {
                    assert(before.contains(before[i]));
                }
                if j < before.len() {
                    assert(before.contains(before[j]));
                }
                if i >= before.len() {
                    assert(list.contains(list[i - before.len()]));
                }
                if j >= before.len() {
                    assert(list.contains(list[j - before.len()]));
                }
            }
        }
        assert forall|i: int, j: int|
            0 <= i < all.len() && 0 <= j < all.len() && #[trigger] g.edge(
                all[i] as int,
                all[j] as int,
            ) implies j < i by {
            if i < before.len() {
                assert(before.contains(before[i]));
                assert(g.reaches(all[j] as int, all[j] as int));
                lemma_reaches_step(g, all[i] as int, all[j] as int, all[j] as int);
                lemma_reaches_transitive(g, prev, all[i] as int, all[j] as int);
                assert(before.contains(all[j]));
                if j >= before.len() {
                    assert(list.contains(list[j - before.len()]));
                } else {
                    assert(g.edge(before[i] as int, before[j] as int));
                }
            } else if j >= before.len() {
                assert(g.edge(
                    list[i - before.len()] as int,
                    list[j - before.len()] as int,
                ));
            }
        }
    }
}

/// The epoch number of a block and the lists of the epochs agree: the list of
/// an epoch of the pivot chain holds exactly the blocks with its number.
pub proof fn lemma_epoch_lists_agree(inner: ConsensusGraphInner, e: int, x: int)
    requires
        inner.base_ok(),
        0 <= e < inner.pivot_chain@.len(),
        0 <= x < inner.size(),
    ensures
        inner.nodes()[inner.pivot_chain@[e] as int].data.ordered_epoch_blocks@.contains(x as usize)
            <==> inner.nodes()[x].data.epoch_number == e,
{
    let nodes = inner.nodes();
    let g = inner.dag();
    let chain = inner.pivot_chain@;
    let pivot = chain[e] as int;
    let list = nodes[pivot].data.ordered_epoch_blocks@;
    assert(chain[e] < inner.parents().len());
    lemma_node(nodes, pivot);
    lemma_node(nodes, x);
    assert(crate::model::epoch_list_ok(g, pivot, list)) by {
        reveal(crate::model::views_ok);
    }
    let n = nodes[x].data.epoch_number;
    assert(crate::model::epoch_ok(g, chain, x, n) && chain.len() < crate::dag::NULL) by {
        reveal(crate::model::epochs_ok);
    }
    if e > 0 {
        assert(g.parent[pivot] == chain[e - 1]);
        assert(chain[e - 1] < inner.parents().len());
        crate::validity::lemma_chain_index(inner.parents(), chain, e);
        assert(pivot > 0);
        if g.reaches(chain[e - 1] as int, pivot) {
            lemma_reaches_earlier(g, chain[e - 1] as int, pivot);
        }
    } else {
        assert(pivot == 0);
    }
    assert(list.contains(x as usize) <==> crate::model::is_epoch_of(g, chain, x, e));
    if crate::model::is_epoch_of(g, chain, x, e) {
        crate::anticone::lemma_chain_sees(g, chain, e, chain.len() - 1);
        lemma_reaches_transitive(g, chain.last() as int, pivot, x);
        assert(n != crate::dag::NULL);
        if n < e {
            crate::anticone::lemma_chain_sees(g, chain, n as int, e - 1);
            lemma_reaches_transitive(g, chain[e - 1] as int, chain[n as int] as int, x);
        }
        if n > e {
            crate::anticone::lemma_chain_sees(g, chain, e, n - 1);
            lemma_reaches_transitive(g, chain[n - 1] as int, pivot, x);
        }
    }
}

proof fn lemma_concat_contains(a: Seq<usize>, b: Seq<usize>, y: usize)
    ensures
        (a + b).contains(y) <==> a.contains(y) || b.contains(y),
{
    if a.contains(y) {
        let i = choose|i: int| 0 <= i < a.len() && a[i] == y;
        assert((a + b)[i] == y);
    }
    if b.contains(y) {
        let i = choose|i: int| 0 <= i < b.len() && b[i] == y;
        assert((a + b)[a.len() + i] == y);
    }
}

proof fn lemma_indexed(inner: ConsensusGraphInner, hash: H256)
    requires
        inner.base_ok(),
    ensures
        inner.indices@.contains_key(hash) ==> inner.indices@[hash] < inner.size()
            && inner.nodes()[inner.indices@[hash] as int].hash == hash,
{
}

impl ConsensusGraphInner {
    /// The difficulty that the children of a block must have.
    pub fn expected_difficulty(&self, parent_hash: &H256) -> (difficulty: Difficulty)
        requires
            self.readable(),
            self.indices@.contains_key(*parent_hash),
            self.pow_config.difficulty_adjustment_epoch_period > 0,
        ensures
            difficulty == difficulty_after(*self, self.indices@[*parent_hash] as int),
    {
        proof {
            lemma_indexed(*self, *parent_hash);
        }
        let parent_index: usize = self.indices.get(parent_hash).unwrap();
        let parent_epoch: u64 = self.arena.get(parent_index).height;
        let period: u64 = self.pow_config.difficulty_adjustment_epoch_period;
        if parent_epoch < period {
            // Early epochs have the initial difficulty.
            Difficulty::Known(U256::from_u64(self.pow_config.initial_difficulty))
        } else if parent_epoch % period != 0 {
            Difficulty::Known(self.arena.get(parent_index).difficulty)
        } else {
            Difficulty::PeriodEndingAt(self.arena.get(parent_index).hash)
        }
    }

    /// How many blocks the view of a block adds to its epoch besides itself.
    pub fn blocks_in_own_view_of_epoch(&self, hash: &H256) -> (count: Option<usize>)
        requires
            self.base_ok(),
        ensures
            count is Some <==> self.indices@.contains_key(*hash),
            count matches Some(n) ==> n == self.nodes()[self.indices@[*hash] as int].data
                .blockset_in_own_view_of_epoch@.len(),
    {
        proof {
            lemma_indexed(*self, *hash);
        }
        match self.indices.get(hash) {
            Some(index) => Some(self.arena.get(index).data.blockset_in_own_view_of_epoch.len()),
            None => None,
        }
    }

    /// Sets the difficulty for blocks to come when a new block has become the tip
    /// of the pivot chain. At the end of a period the difficulty is left as it
    /// is, and the result names the block from whose period it is to be worked
    /// out.
    pub fn adjust_difficulty(&mut self, new_best_index: usize) -> (period_end: Option<H256>)
        requires
            old(self).arena.wf(),
            new_best_index < old(self).size(),
            old(self).pivot_chain@.len() > 0,
            old(self).pivot_chain@.last() == old(self).nodes()[new_best_index as int].parent
                ==> old(self).current_difficulty == old(self).nodes()[new_best_index as int]
                .difficulty,
            old(self).nodes()[new_best_index as int].height == 0
                || old(self).pow_config.difficulty_adjustment_epoch_period > 0,
        ensures
            ({
                let best = old(self).nodes()[new_best_index as int];
                let period = old(self).pow_config.difficulty_adjustment_epoch_period;
                if best.height == 0 {
                    &&& period_end is None
                    &&& *final(self) == (ConsensusGraphInner {
                        current_difficulty: U256 {
                            hi: 0,
                            lo: old(self).pow_config.initial_difficulty as u128,
                        },
                        ..*old(self)
                    })
                } else if best.height % period == 0 {
                    &&& period_end == Some(best.hash)
                    &&& *final(self) == *old(self)
                } else {
                    &&& period_end is None
                    &&& *final(self) == (ConsensusGraphInner {
                        current_difficulty: best.difficulty,
                        ..*old(self)
                    })
                }
            }),
    {
        let epoch: u64 = self.arena.get(new_best_index).height;
        if epoch == 0 {
            // The block at height 1 may have a wrong state root and leave the
            // chain as it is.
            self.current_difficulty = U256::from_u64(self.pow_config.initial_difficulty);
            None
        } else if epoch % self.pow_config.difficulty_adjustment_epoch_period == 0 {
            Some(self.arena.get(new_best_index).hash)
        } else {
            self.current_difficulty = self.arena.get(new_best_index).difficulty;
            None
        }
    }

    pub fn best_block_hash(&self) -> (hash: H256)
        requires
            self.readable(),
        ensures
            hash == self.nodes()[self.pivot_chain@.last() as int].hash,
    {
        self.arena.get(self.pivot_chain[self.pivot_chain.len() - 1]).hash
    }

    pub fn best_state_epoch_number(&self) -> (epoch: usize)
        requires
            self.pivot_chain@.len() > 0,
        ensures
            epoch == state_height(self.pivot_chain@.len() as int),
            epoch < self.pivot_chain@.len(),
    {
        let pivot_len: usize = self.pivot_chain.len();
        if pivot_len < DEFERRED_STATE_EPOCH_COUNT as usize {
            0
        } else {
            pivot_len - DEFERRED_STATE_EPOCH_COUNT as usize
        }
    }

    pub fn best_state_index(&self) -> (index: usize)
        requires
            self.pivot_chain@.len() > 0,
        ensures
            index == self.pivot_chain@[state_height(self.pivot_chain@.len() as int)],
    {
        self.pivot_chain[self.best_state_epoch_number()]
    }

    pub fn best_state_block_hash(&self) -> (hash: H256)
        requires
            self.readable(),
        ensures
            hash == self.nodes()[self.pivot_chain@[state_height(
                self.pivot_chain@.len() as int,
            )] as int].hash,
    {
        self.arena.get(self.best_state_index()).hash
    }

    pub fn best_epoch_number(&self) -> (epoch: usize)
        requires
            self.pivot_chain@.len() > 0,
        ensures
            epoch == self.pivot_chain@.len() - 1,
    {
        self.pivot_chain.len() - 1
    }

    pub fn get_height_from_epoch_number(&self, epoch_number: EpochNumber) -> (height: Result<
        usize,
        String,
    >)
        requires
            self.pivot_chain@.len() > 0,
        ensures
            match height_meant(self.pivot_chain@.len() as int, epoch_number) {
                Some(h) => height matches Ok(found) && found == h && 0 <= h
                    < self.pivot_chain@.len(),
                None => height matches Err(e) && e@ == no_such_epoch(),
            },
    {
        match epoch_number {
            EpochNumber::Earliest => Ok(0),
            EpochNumber::LatestMined => Ok(self.best_epoch_number()),
            EpochNumber::LatestState => Ok(self.best_state_epoch_number()),
            EpochNumber::Number(epoch_num) => {
                if epoch_num > self.best_epoch_number() {
                    Err(
                        "Invalid params: expected a numbers with less than largest epoch number."
                            .to_owned(),
                    )
                } else {
                    Ok(epoch_num)
                }
            },
        }
    }

    pub fn get_index_from_epoch_number(&self, epoch_number: EpochNumber) -> (index: Result<
        usize,
        String,
    >)
        requires
            self.pivot_chain@.len() > 0,
        ensures
            match height_meant(self.pivot_chain@.len() as int, epoch_number) {
                Some(h) => index matches Ok(found) && found == self.pivot_chain@[h],
                None => index matches Err(e) && e@ == no_such_epoch(),
            },
    {
        match self.get_height_from_epoch_number(epoch_number) {
            Ok(height) => Ok(self.pivot_chain[height]),
            Err(e) => Err(e),
        }
    }

    pub fn get_hash_from_epoch_number(&self, epoch_number: EpochNumber) -> (hash: Result<
        H256,
        String,
    >)
        requires
            self.readable(),
        ensures
            match height_meant(self.pivot_chain@.len() as int, epoch_number) {
                Some(h) => hash matches Ok(found) && found
                    == self.nodes()[self.pivot_chain@[h] as int].hash,
                None => hash matches Err(e) && e@ == no_such_epoch(),
            },
    {
        match self.get_index_from_epoch_number(epoch_number) {
            Ok(index) => Ok(self.arena.get(index).hash),
            Err(e) => Err(e),
        }
    }

    /// The blocks of an epoch of the pivot chain, in the order in which they are
    /// executed.
    pub fn block_hashes_by_epoch(&self, epoch_number: EpochNumber) -> (hashes: Result<
        Vec<H256>,
        String,
    >)
        requires
            self.readable(),
        ensures
            match height_meant(self.pivot_chain@.len() as int, epoch_number) {
                Some(h) => hashes matches Ok(found) && found@ == epoch_hashes(
                    self.nodes(),
                    self.pivot_chain@[h] as int,
                ),
                None => hashes matches Err(e) && e@ == no_such_epoch(),
            },
    {
        match self.get_index_from_epoch_number(epoch_number) {
            Ok(index) => Ok(self.get_epoch_block_hashes(index)),
            Err(e) => Err(e),
        }
    }

    /// The hash of the pivot block at a height.
    pub fn epoch_hash(&self, epoch_number: usize) -> (hash: Option<H256>)
        requires
            self.readable(),
        ensures
            hash == (if epoch_number < self.pivot_chain@.len() {
                Some(self.nodes()[self.pivot_chain@[epoch_number as int] as int].hash)
            } else {
                None
            }),
    {
        if epoch_number < self.pivot_chain.len() {
            Some(self.arena.get(self.pivot_chain[epoch_number]).hash)
        } else {
            None
        }
    }

    /// The pivot block whose epoch holds a block. It is the first block of the
    /// pivot chain that sees it.
    pub fn get_epoch_hash_for_block(&self, hash: &H256) -> (epoch: Option<H256>)
        requires
            self.readable(),
        ensures
            epoch is Some <==> self.indices@.contains_key(*hash) && self.dag().reaches(
                self.pivot_chain@.last() as int,
                self.indices@[*hash] as int,
            ),
            epoch matches Some(h) ==> exists|e: int| #[trigger]
                crate::model::is_epoch_of(
                    self.dag(),
                    self.pivot_chain@,
                    self.indices@[*hash] as int,
                    e,
                ) && h == self.nodes()[self.pivot_chain@[e] as int].hash,
            is_epoch_hash_of(*self, *hash, epoch),
    {
        proof {
            lemma_indexed(*self, *hash);
            reveal(crate::model::epochs_ok);
        }
        match self.indices.get(hash) {
            Some(block_index) => {
                let epoch_number: usize = self.arena.get(block_index).data.epoch_number;
                proof {
                    let g = self.dag();
                    let x = block_index as int;
                    let chain = self.pivot_chain@;
                    lemma_node(self.nodes(), x);
                    assert(crate::model::epoch_ok(g, chain, x, epoch_number));
                    if epoch_number != crate::dag::NULL {
                        assert(crate::model::is_epoch_of(g, chain, x, epoch_number as int));
                        crate::anticone::lemma_chain_sees(
                            g,
                            chain,
                            epoch_number as int,
                            chain.len() - 1,
                        );
                        lemma_reaches_transitive(
                            g,
                            chain.last() as int,
                            chain[epoch_number as int] as int,
                            x,
                        );
                    }
                }
                self.epoch_hash(epoch_number)
            },
            None => None,
        }
    }

    /// The blocks that no block refers to.
    pub fn terminal_hashes(&self) -> (hashes: Vec<H256>)
        requires
            self.readable(),
        ensures
            hashes@.no_duplicates(),
            hashes@.to_set() == self.terminal_hashes@,
    {
        self.terminal_hashes.to_vec()
    }

    /// The height of the epoch that holds a block; the largest number there is,
    /// for a block in no epoch.
    pub fn get_block_epoch_number(&self, hash: &H256) -> (epoch: Option<usize>)
        requires
            self.base_ok(),
        ensures
            epoch == (if self.indices@.contains_key(*hash) {
                Some(self.nodes()[self.indices@[*hash] as int].data.epoch_number)
            } else {
                None
            }),
    {
        proof {
            lemma_indexed(*self, *hash);
        }
        match self.indices.get(hash) {
            Some(idx) => Some(self.arena.get(idx).data.epoch_number),
            None => None,
        }
    }

    /// All blocks in the epochs of the pivot chain, in the order in which they
    /// are executed.
    pub fn all_blocks_with_topo_order(&self) -> (hashes: Vec<H256>)
        requires
            self.readable(),
        ensures
            hashes@ == epochs_in_order(self.nodes(), self.pivot_chain@).map_values(
                |i: usize| self.nodes()[i as int].hash,
            ),
    {
        let ghost nodes = self.nodes();
        let ghost chain = self.pivot_chain@;
        let ghost named = |i: usize| self.nodes()[i as int].hash;
        let mut hashes: Vec<H256> = Vec::new();
        let mut current_number: usize = 0;
        proof {
            assert(chain.take(0) =~= Seq::<usize>::empty());
            assert(epochs_in_order(nodes, chain.take(0)) =~= Seq::<usize>::empty());
        }
        while current_number < self.pivot_chain.len()
            invariant
                self.readable(),
                nodes == self.nodes(),
                chain == self.pivot_chain@,
                named == (|i: usize| self.nodes()[i as int].hash),
                current_number <= chain.len(),
                hashes@ =~= epochs_in_order(nodes, chain.take(current_number as int)).map_values(
                    named,
                ),
            decreases chain.len() - current_number,
        {
            let mut epoch_hashes_found: Vec<H256> = self.get_epoch_block_hashes(
                self.pivot_chain[current_number],
            );
            proof {
                let upto = chain.take(current_number + 1);
                assert(upto.drop_last() =~= chain.take(current_number as int));
                assert(upto.last() == chain[current_number as int]);
            }
            hashes.append(&mut epoch_hashes_found);
            current_number += 1;
        }
        proof {
            assert(chain.take(chain.len() as int) =~= chain);
        }
        hashes
    }

    /// Whether the state of an epoch can be read.
    pub fn validate_stated_epoch(&self, epoch_number: &EpochNumber) -> (valid: Result<(), String>)
        requires
            self.pivot_chain@.len() > 0,
        ensures
            ({
                let latest = state_height(self.pivot_chain@.len() as int);
                match *epoch_number {
                    EpochNumber::LatestMined => valid matches Err(e) && e@
                        == "Latest mined epoch is not executed"@,
                    EpochNumber::Number(n) => if n > latest {
                        valid matches Err(e) && e@ == not_executed(n as nat, latest as nat)
                    } else {
                        valid is Ok
                    },
                    _ => valid is Ok,
                }
            }),
            match stated_height(self.pivot_chain@.len() as int, *epoch_number) {
                Ok(_) => valid is Ok,
                Err(e) => valid matches Err(text) && text@ == e,
            },
    {
        match epoch_number {
            EpochNumber::LatestMined => Err("Latest mined epoch is not executed".to_owned()),
            EpochNumber::Number(num) => {
                let latest_state_epoch: usize = self.best_state_epoch_number();
                if *num > latest_state_epoch {
                    let message = "Specified epoch ".to_owned().concat(
                        write_decimal(*num).as_str(),
                    ).concat(" is not executed, the latest state epoch is ").concat(
                        write_decimal(latest_state_epoch).as_str(),
                    );
                    Err(message)
                } else {
                    Ok(())
                }
            },
            _ => Ok(()),
        }
    }

    /// The pivot block after which the state of an epoch stands, if that state can
    /// be read.
    pub fn stated_epoch_hash(&self, epoch_number: EpochNumber) -> (hash: Result<H256, String>)
        requires
            self.readable(),
        ensures
            ({
                let len = self.pivot_chain@.len() as int;
                let latest = state_height(len);
                match epoch_number {
                    EpochNumber::LatestMined => hash matches Err(e) && e@
                        == "Latest mined epoch is not executed"@,
                    EpochNumber::Earliest => hash == Ok::<H256, String>(
                        self.nodes()[self.pivot_chain@[0] as int].hash,
                    ),
                    EpochNumber::LatestState => hash == Ok::<H256, String>(
                        self.nodes()[self.pivot_chain@[latest] as int].hash,
                    ),
                    EpochNumber::Number(n) => if n > latest {
                        hash matches Err(e) && e@ == not_executed(n as nat, latest as nat)
                    } else {
                        hash == Ok::<H256, String>(
                            self.nodes()[self.pivot_chain@[n as int] as int].hash,
                        )
                    },
                }
            }),
            match stated_height(self.pivot_chain@.len() as int, epoch_number) {
                Ok(h) => hash == Ok::<H256, String>(
                    self.nodes()[self.pivot_chain@[h] as int].hash,
                ),
                Err(e) => hash matches Err(text) && text@ == e,
            },
    {
        match self.validate_stated_epoch(&epoch_number) {
            Ok(_) => self.get_hash_from_epoch_number(epoch_number),
            Err(e) => Err(e),
        }
    }

    pub fn is_stable(&self, block_hash: &H256) -> (stable: Option<bool>)
        requires
            self.base_ok(),
        ensures
            stable == (if self.indices@.contains_key(*block_hash) {
                Some(self.nodes()[self.indices@[*block_hash] as int].stable)
            } else {
                None
            }),
    {
        proof {
            lemma_indexed(*self, *block_hash);
        }
        match self.indices.get(block_hash) {
            Some(block_index) => Some(self.arena.get(block_index).stable),
            None => None,
        }
    }

    pub fn is_adaptive(&self, block_hash: &H256) -> (adaptive: Option<bool>)
        requires
            self.base_ok(),
        ensures
            adaptive == (if self.indices@.contains_key(*block_hash) {
                Some(self.nodes()[self.indices@[*block_hash] as int].adaptive)
            } else {
                None
            }),
    {
        proof {
            lemma_indexed(*self, *block_hash);
        }
        match self.indices.get(block_hash) {
            Some(block_index) => Some(self.arena.get(block_index).adaptive),
            None => None,
        }
    }

    pub fn is_partial_invalid(&self, block_hash: &H256) -> (partial_invalid: Option<bool>)
        requires
            self.base_ok(),
        ensures
            partial_invalid == (if self.indices@.contains_key(*block_hash) {
                Some(self.nodes()[self.indices@[*block_hash] as int].data.partial_invalid)
            } else {
                None
            }),
    {
        proof {
            lemma_indexed(*self, *block_hash);
        }
        match self.indices.get(block_hash) {
            Some(block_index) => Some(self.arena.get(block_index).data.partial_invalid),
            None => None,
        }
    }

    /// Whether a block is the pivot block of an epoch.
    pub fn check_block_pivot_assumption(&self, pivot_hash: &H256, epoch: usize) -> (checked: Result<
        (),
        String,
    >)
        requires
            self.readable(),
        ensures
            ({
                let chain = self.pivot_chain@;
                if epoch >= chain.len() {
                    checked matches Err(e) && e@ == no_such_epoch()
                } else if self.nodes()[chain[epoch as int] as int].hash != *pivot_hash {
                    checked matches Err(e) && e@ == "Error: pivot chain assumption failed"@
                } else {
                    checked is Ok
                }
            }),
            match refuted_assumption(*self, *pivot_hash, epoch as int) {
                Some(e) => checked matches Err(text) && text@ == e,
                None => checked is Ok,
            },
    {
        match self.get_hash_from_epoch_number(EpochNumber::Number(epoch)) {
            Ok(hash) => {
                if hash != *pivot_hash {
                    Err("Error: pivot chain assumption failed".to_owned())
                } else {
                    Ok(())
                }
            },
            Err(e) => Err(e),
        }
    }
}

} // verus!
