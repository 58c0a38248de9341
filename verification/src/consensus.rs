//! The consensus graph: blocks come in, the pivot chain follows the heaviest
//! branch, and epochs are handed out for execution.
//!
//! A new block is taken in by `on_new_block`. Whether it is fully valid is then
//! asked of `check_block_full_validity`, which names what has to be looked up
//! elsewhere until it can tell. `settle_block` carries the answer into the
//! graph. For a fully valid block, `execution_tasks` lists the epochs to execute,
//! `adjust_difficulty` sets the difficulty, and `conclude_block` brings the risks
//! up to date.

use vstd::prelude::*;
use crate::arrival::{block_adaptivity, parent_accepted, WeighedBlock};
use crate::config::{ConsensusConfig, ConsensusGraphStatistics, ProofOfWorkConfig,
    DEFERRED_STATE_EPOCH_COUNT};
use crate::confirmation::{is_finality, FinalityManager};
use crate::dag::{ancestor_at_depth, depth};
use crate::finish::{flagged, records_settled, same_but_places, PivotUpdate};
use crate::genesis::{is_genesis, is_settled_genesis};
use crate::hash_index::HashSetList;
use crate::insert::{grown, insertable, node_of, terminals_after};
use crate::model::{weight_limit, weight_of};
use crate::pivot::{pivot_step, subtree_weights};
use crate::plans::are_tasks_for;
use crate::queries::{difficulty_after, Difficulty};
use crate::rewards::{payable_at, EpochExecutionTask};
use crate::state::ConsensusGraphInner;
#[allow(unused_imports)]
use crate::state::lemma_node;
use crate::terminals::stored_hashes;
use crate::types::{two_128, BlockHeader, H256, U256};

verus! {

/// The weight of the blocks that came in: until now, until the last time it was
/// looked at, and between the last two times.
pub struct TotalWeightInPast {
    pub old: U256,
    pub cur: U256,
    pub delta: U256,
}

impl TotalWeightInPast {
    /// The weight never shrinks.
    pub open spec fn wf(&self) -> bool {
        &&& self.old.value() <= self.cur.value()
        &&& self.delta.value() <= self.cur.value()
    }
}

/// The weight was looked at.
pub open spec fn weight_looked_at(before: TotalWeightInPast, after: TotalWeightInPast) -> bool {
    &&& after.cur == before.cur
    &&& after.old == before.cur
    &&& after.delta.value() == before.cur.value() - before.old.value()
}

/// The weight of a block was counted.
pub open spec fn weight_counted(
    before: TotalWeightInPast,
    after: TotalWeightInPast,
    weight: int,
) -> bool {
    &&& after == (TotalWeightInPast { cur: after.cur, ..before })
    &&& after.cur.value() == before.cur.value() + weight
}

pub struct ConsensusGraph {
    pub conf: ConsensusConfig,
    pub inner: ConsensusGraphInner,
    pub invalid_blocks: HashSetList,
    pub statistics: ConsensusGraphStatistics,
    pub finality_manager: FinalityManager,
    pub total_weight_in_past_2d: TotalWeightInPast,
}

/// A block that is in the graph and whose validity is open.
#[derive(Clone, Copy)]
pub struct PendingBlock {
    pub me: usize,
    pub stable: bool,
    pub adaptive: bool,
    /// Whether the block may hang where it hangs.
    pub parent_accepted: bool,
    pub deferred_state_root: H256,
    pub deferred_receipts_root: H256,
}

/// Whether a block is fully valid, or what has to be known to tell.
#[derive(Clone, Copy)]
pub enum Validity {
    Settled(bool),
    /// The difficulty that follows the period which ends with the block.
    NeedsTargetDifficulty(H256),
    /// The roots of the state and of the receipts after the block.
    NeedsRoots(H256),
}

/// The last step of the decision: the roots.
pub open spec fn validity_of_roots(
    graph: ConsensusGraph,
    p: PendingBlock,
    roots: Option<(H256, H256)>,
) -> Validity {
    let par = graph.inner.parents();
    let height = depth(par, p.me as int);
    if height < DEFERRED_STATE_EPOCH_COUNT {
        Validity::Settled(
            p.deferred_state_root == graph.inner.genesis_block_state_root
                && p.deferred_receipts_root == graph.inner.genesis_block_receipts_root,
        )
    } else {
        match roots {
            Some(r) => Validity::Settled(
                p.deferred_state_root == r.0 && p.deferred_receipts_root == r.1,
            ),
            None => Validity::NeedsRoots(
                graph.inner.nodes()[ancestor_at_depth(
                    par,
                    p.me as int,
                    (height - DEFERRED_STATE_EPOCH_COUNT) as nat,
                )].hash,
            ),
        }
    }
}

/// The decision once the expected difficulty is known.
pub open spec fn validity_from_difficulty(
    graph: ConsensusGraph,
    p: PendingBlock,
    expected: U256,
    roots: Option<(H256, H256)>,
) -> Validity {
    let node = graph.inner.nodes()[p.me as int];
    if node.difficulty != expected {
        Validity::Settled(false)
    } else if !graph.conf.bench_mode && node.adaptive != p.adaptive {
        Validity::Settled(false)
    } else {
        validity_of_roots(graph, p, roots)
    }
}

/// The decision on a block, as far as the given target difficulty and roots
/// carry it.
pub open spec fn validity(
    graph: ConsensusGraph,
    p: PendingBlock,
    target: Option<U256>,
    roots: Option<(H256, H256)>,
) -> Validity {
    let parent = graph.inner.nodes()[p.me as int].parent as int;
    if !p.parent_accepted {
        Validity::Settled(false)
    } else {
        match difficulty_after(graph.inner, parent) {
            Difficulty::Known(expected) => validity_from_difficulty(graph, p, expected, roots),
            Difficulty::PeriodEndingAt(hash) => match target {
                Some(expected) => validity_from_difficulty(graph, p, expected, roots),
                None => Validity::NeedsTargetDifficulty(hash),
            },
        }
    }
}

/// No more than two questions are asked: with a target difficulty and roots in
/// hand the decision is made.
pub proof fn lemma_two_questions(
    graph: ConsensusGraph,
    p: PendingBlock,
    target: U256,
    roots: (H256, H256),
)
    ensures
        validity(graph, p, Some(target), Some(roots)) is Settled,
        validity(graph, p, Some(target), None) !is NeedsTargetDifficulty,
        validity(graph, p, None, Some(roots)) !is NeedsRoots,
{
}

/// An answer that was not asked for changes nothing.
pub proof fn lemma_answers_on_demand(
    graph: ConsensusGraph,
    p: PendingBlock,
    target: Option<U256>,
    roots: Option<(H256, H256)>,
    given_target: U256,
    given_roots: (H256, H256),
)
    ensures
        validity(graph, p, target, roots) is Settled ==> validity(
            graph,
            p,
            Some(
                match target {
                    Some(t) => t,
                    None => given_target,
                },
            ),
            Some(
                match roots {
                    Some(r) => r,
                    None => given_roots,
                },
            ),
        ) == validity(graph, p, target, roots),
{
}

/// The place up to which epochs are executed on a chain of `len` blocks.
pub open spec fn state_end(len: int) -> int {
    if len < DEFERRED_STATE_EPOCH_COUNT {
        0
    } else {
        len - DEFERRED_STATE_EPOCH_COUNT + 1
    }
}

/// The first epoch to execute after the chain changed from `fork_at` on: where
/// the chain changed, or, if that had not been executed yet, where execution
/// had stopped.
pub open spec fn state_start(fork_at: int, old_len: int) -> int {
    if fork_at + DEFERRED_STATE_EPOCH_COUNT <= old_len {
        fork_at
    } else if old_len > DEFERRED_STATE_EPOCH_COUNT {
        old_len - DEFERRED_STATE_EPOCH_COUNT + 1
    } else {
        1
    }
}

/// Execution picks up where it stopped: an epoch before the start lies before
/// the change and had been executed on the old chain.
pub proof fn lemma_execution_resumes(fork_at: int, old_len: int, e: int)
    requires
        0 < fork_at <= old_len,
        1 <= e < state_start(fork_at, old_len),
    ensures
        e < fork_at,
        e < state_end(old_len),
{
}

impl ConsensusGraph {
    /// Everything around the graph proper is in order.
    pub open spec fn surroundings_ok(&self) -> bool {
        &&& self.invalid_blocks.wf()
        &&& self.finality_manager.wf()
        &&& self.total_weight_in_past_2d.wf()
        &&& self.inner.optimistic_executed_height matches Some(h) ==> h
            < self.inner.pivot_chain@.len()
    }

    /// Everything is in order.
    pub open spec fn wf(&self) -> bool {
        &&& self.inner.wf()
        &&& self.surroundings_ok()
    }

    /// The newest block is taken in and its validity is open.
    pub open spec fn pending(&self, p: PendingBlock) -> bool {
        &&& self.inner.linked(p.me as int)
        &&& self.inner.tail_holds(p.me as nat)
        &&& self.surroundings_ok()
        &&& (p.stable, p.adaptive) == block_adaptivity(
            self.inner.inner_conf,
            self.inner.nodes(),
            p.me as int,
        )
        &&& p.parent_accepted == parent_accepted(
            self.inner.inner_conf,
            self.inner.nodes(),
            self.inner.pivot_chain@,
            p.me as int,
        )
    }

    /// A graph of the genesis block alone.
    pub fn with_genesis_block(
        conf: ConsensusConfig,
        pow_config: ProofOfWorkConfig,
        genesis: &BlockHeader,
    ) -> (graph: ConsensusGraph)
        requires
            is_genesis(conf.inner_conf, *genesis),
        ensures
            graph.wf(),
            graph.conf == conf,
            graph.inner.inner_conf == conf.inner_conf,
            graph.inner.pow_config == pow_config,
            graph.inner.size() == 1,
            node_of(conf.inner_conf, *genesis, graph.inner.indices@, graph.inner.nodes()[0]),
            graph.inner.pivot_chain@ == seq![0usize],
            graph.inner.indices@ == Map::<H256, usize>::empty().insert(genesis.hash, 0),
            graph.inner.genesis_block_state_root == genesis.deferred_state_root,
            graph.inner.genesis_block_receipts_root == genesis.deferred_receipts_root,
            graph.inner.current_difficulty.value() == pow_config.initial_difficulty,
            graph.inner.optimistic_executed_height is None,
            graph.inner.sequence_number_of_block_entrance == 1,
            is_settled_genesis(graph.inner),
            crate::history::is_new_graph(graph, conf, pow_config, *genesis),
            graph.invalid_blocks@ == Set::<H256>::empty(),
            graph.statistics.inserted_block_count == 0,
            graph.finality_manager.lowest_epoch_num == 0,
            graph.finality_manager.risks_less_than@.len() == 0,
            graph.total_weight_in_past_2d.old.value() == 0,
            graph.total_weight_in_past_2d.cur.value() == 0,
            graph.total_weight_in_past_2d.delta.value() == 0,
    {
        let inner = ConsensusGraphInner::with_genesis_block(
            pow_config,
            genesis,
            conf.inner_conf,
        );
        ConsensusGraph {
            conf,
            inner,
            invalid_blocks: HashSetList::new(),
            statistics: ConsensusGraphStatistics::new(),
            finality_manager: FinalityManager::new(),
            total_weight_in_past_2d: TotalWeightInPast {
                old: U256::zero(),
                cur: U256::zero(),
                delta: U256::zero(),
            },
        }
    }

    /// Notes the weight that came in since the last time.
    pub fn update_total_weight_in_past(&mut self)
        requires
            old(self).total_weight_in_past_2d.wf(),
        ensures
            final(self).total_weight_in_past_2d.wf(),
            *final(self) == (ConsensusGraph {
                total_weight_in_past_2d: final(self).total_weight_in_past_2d,
                ..*old(self)
            }),
            final(self).total_weight_in_past_2d.cur == old(self).total_weight_in_past_2d.cur,
            final(self).total_weight_in_past_2d.old == old(self).total_weight_in_past_2d.cur,
            final(self).total_weight_in_past_2d.delta.value() == old(self)
                .total_weight_in_past_2d.cur.value() - old(self).total_weight_in_past_2d.old.value(),
            weight_looked_at(
                old(self).total_weight_in_past_2d,
                final(self).total_weight_in_past_2d,
            ),
    {
        proof {
            self.total_weight_in_past_2d.old.lemma_value_decides(self.total_weight_in_past_2d.cur);
        }
        let total_weight = &mut self.total_weight_in_past_2d;
        total_weight.delta = total_weight.cur.minus(&total_weight.old);
        total_weight.old = total_weight.cur;
    }

    /// Counts the weight of a block.
    pub fn aggregate_total_weight_in_past(&mut self, weight: i128)
        requires
            old(self).total_weight_in_past_2d.wf(),
            0 <= weight,
            old(self).total_weight_in_past_2d.cur.value() + weight < two_128() * two_128(),
        ensures
            final(self).total_weight_in_past_2d.wf(),
            *final(self) == (ConsensusGraph {
                total_weight_in_past_2d: TotalWeightInPast {
                    cur: final(self).total_weight_in_past_2d.cur,
                    ..old(self).total_weight_in_past_2d
                },
                ..*old(self)
            }),
            final(self).total_weight_in_past_2d.cur.value() == old(self)
                .total_weight_in_past_2d.cur.value() + weight,
            weight_counted(
                old(self).total_weight_in_past_2d,
                final(self).total_weight_in_past_2d,
                weight as int,
            ),
    {
        let w: U256 = U256::from_weight(weight);
        self.total_weight_in_past_2d.cur = self.total_weight_in_past_2d.cur.plus(&w);
    }

    /// The weight that came in between the last two times it was looked at.
    pub fn get_total_weight_in_past(&self) -> (weight: i128)
        requires
            self.total_weight_in_past_2d.delta.fits_weight(),
        ensures
            weight == self.total_weight_in_past_2d.delta.value(),
            0 <= weight,
    {
        self.total_weight_in_past_2d.delta.to_weight()
    }

    /// Inserts a block into the graph and counts it.
    pub fn insert_block_initial(&mut self, block: &BlockHeader) -> (me: usize)
        requires
            old(self).inner.ready(),
            insertable(old(self).inner, *block),
        ensures
            me == old(self).inner.size(),
            final(self).inner.inserted(me as int),
            old(self).inner.tail_holds(old(self).inner.size()) ==> final(self).inner.tail_holds(
                me as nat,
            ),
            took_in(*old(self), *final(self), *block),
            final(self).inner == (ConsensusGraphInner {
                arena: final(self).inner.arena,
                indices: final(self).inner.indices,
                terminal_hashes: final(self).inner.terminal_hashes,
                sequence_number_of_block_entrance: (old(self)
                    .inner.sequence_number_of_block_entrance + 1) as u64,
                ..old(self).inner
            }),
    {
        let (me, count) = self.inner.insert(block);
        self.statistics.inserted_block_count = count;
        me
    }

    /// Takes a new block in: it is in the graph and in the trees, and it is known
    /// whether it is stable, whether it must be adaptive, and whether it may hang
    /// where it hangs.
    pub fn on_new_block(&mut self, block: &BlockHeader) -> (p: PendingBlock)
        requires
            old(self).wf(),
            insertable(old(self).inner, *block),
        ensures
            p.me == old(self).inner.size(),
            p.deferred_state_root == block.deferred_state_root,
            p.deferred_receipts_root == block.deferred_receipts_root,
            final(self).pending(p),
            took_in(*old(self), *final(self), *block),
    {
        let me: usize = self.insert_block_initial(block);
        let weighed: WeighedBlock = self.inner.weigh_block(me);
        let accepted: bool = self.inner.accept_parent(&weighed);
        PendingBlock {
            me,
            stable: weighed.stable,
            adaptive: weighed.adaptive,
            parent_accepted: accepted,
            deferred_state_root: block.deferred_state_root,
            deferred_receipts_root: block.deferred_receipts_root,
        }
    }

    /// Whether a pending block is fully valid, as far as it can be told from
    /// what has been looked up so far.
    pub fn check_block_full_validity(
        &self,
        p: &PendingBlock,
        target: Option<U256>,
        roots: Option<(H256, H256)>,
    ) -> (r: Validity)
        requires
            self.pending(*p),
            p.parent_accepted ==> self.inner.pow_config.difficulty_adjustment_epoch_period > 0,
        ensures
            r == validity(*self, *p, target, roots),
    {
        let ghost par = self.inner.parents();
        proof {
            lemma_node(self.inner.nodes(), p.me as int);
            lemma_node(
                self.inner.nodes(),
                self.inner.nodes()[p.me as int].parent as int,
            );
        }
        if !p.parent_accepted {
            return Validity::Settled(false);
        }
        let parent: usize = self.inner.arena.get(p.me).parent;
        let parent_hash: H256 = self.inner.arena.get(parent).hash;
        assert(self.inner.indices@[parent_hash] == parent);
        let expected: U256 = match self.inner.expected_difficulty(&parent_hash) {
            Difficulty::Known(difficulty) => difficulty,
            Difficulty::PeriodEndingAt(hash) => match target {
                Some(difficulty) => difficulty,
                None => {
                    return Validity::NeedsTargetDifficulty(hash);
                },
            },
        };
        if self.inner.arena.get(p.me).difficulty != expected {
            return Validity::Settled(false);
        }
        // In bench mode the adaptive field is overridden, not checked.
        if !self.conf.bench_mode {
            if self.inner.arena.get(p.me).adaptive != p.adaptive {
                return Validity::Settled(false);
            }
        }
        if self.inner.arena.get(p.me).height < DEFERRED_STATE_EPOCH_COUNT {
            return Validity::Settled(
                p.deferred_state_root == self.inner.genesis_block_state_root
                    && p.deferred_receipts_root == self.inner.genesis_block_receipts_root,
            );
        }
        match roots {
            Some(r) => Validity::Settled(
                p.deferred_state_root == r.0 && p.deferred_receipts_root == r.1,
            ),
            None => {
                let deferred: usize = self.inner.deferred_block(
                    p.me,
                    DEFERRED_STATE_EPOCH_COUNT as usize,
                );
                Validity::NeedsRoots(self.inner.arena.get(deferred).hash)
            },
        }
    }

    /// Carries the decision on a pending block into the graph. A partially
    /// invalid block stays in the graph with no weight and leaves the chain as it
    /// is. A fully valid one is weighed, and the chain moves to the heaviest
    /// branch.
    pub fn settle_block(&mut self, p: &PendingBlock, fully_valid: bool) -> (r: PivotUpdate)
        requires
            old(self).pending(*p),
            fully_valid ==> p.parent_accepted,
            old(self).total_weight_in_past_2d.cur.value() + weight_limit() < two_128() * two_128(),
        ensures
            final(self).wf(),
            settled(*old(self), *final(self), *p, fully_valid, r),
            0 < r.fork_at <= r.old_len + 1,
            fully_valid ==> r.fork_at <= r.old_len,
    {
        let update: PivotUpdate = self.inner.finish_block(
            p.me,
            p.stable,
            p.adaptive,
            fully_valid,
        );
        self.aggregate_total_weight_in_past(update.weight);
        if fully_valid {
            let to_state_pos: usize = self.state_end_place();
            self.inner.optimistic_executed_height = if to_state_pos > 0 {
                Some(to_state_pos)
            } else {
                None
            };
        }
        update
    }

    fn state_end_place(&self) -> (place: usize)
        requires
            self.inner.pivot_chain@.len() > 0,
        ensures
            place == state_end(self.inner.pivot_chain@.len() as int),
            place <= self.inner.pivot_chain@.len(),
            place < self.inner.pivot_chain@.len() || place == 0,
    {
        let len: usize = self.inner.pivot_chain.len();
        if len < DEFERRED_STATE_EPOCH_COUNT as usize {
            0
        } else {
            len - DEFERRED_STATE_EPOCH_COUNT as usize + 1
        }
    }

    /// The heights whose epochs are executed after a block was settled: from the
    /// first to before the second.
    pub fn state_range(&self, update: &PivotUpdate) -> (range: (usize, usize))
        requires
            self.inner.pivot_chain@.len() > 0,
        ensures
            range.0 == state_start(update.fork_at as int, update.old_len as int),
            range.1 == state_end(self.inner.pivot_chain@.len() as int),
    {
        let delay: usize = DEFERRED_STATE_EPOCH_COUNT as usize;
        let to_state_pos: usize = self.state_end_place();
        let state_at: usize = if update.old_len >= delay && update.fork_at <= update.old_len
            - delay {
            update.fork_at
        } else if update.old_len > delay {
            update.old_len - delay + 1
        } else {
            1
        };
        (state_at, to_state_pos)
    }

    /// The epochs to execute after a fully valid block was settled.
    pub fn execution_tasks(&self, update: &PivotUpdate) -> (tasks: Vec<EpochExecutionTask>)
        requires
            self.inner.readable(),
            forall|h: int|
                state_start(update.fork_at as int, update.old_len as int) <= h < state_end(
                    self.inner.pivot_chain@.len() as int,
                ) ==> #[trigger] payable_at(self.inner, self.inner.pivot_chain@, h),
        ensures
            are_tasks_for(
                self.inner,
                self.inner.pivot_chain@,
                state_start(update.fork_at as int, update.old_len as int),
                state_end(self.inner.pivot_chain@.len() as int),
                true,
                tasks@,
            ),
    {
        let (state_at, to_state_pos) = self.state_range(update);
        self.inner.epoch_tasks(&self.inner.pivot_chain, state_at, to_state_pos, true)
    }

    /// Sets the difficulty for blocks to come after the tip of the chain. At the
    /// end of a period the difficulty is left as it is, and the result names the
    /// block from whose period it is to be worked out.
    pub fn adjust_difficulty(&mut self) -> (period_end: Option<H256>)
        requires
            old(self).wf(),
            old(self).inner.pow_config.difficulty_adjustment_epoch_period > 0,
        ensures
            final(self).wf(),
            difficulty_adjusted(*old(self), *final(self), period_end),
    {
        let tip: usize = self.inner.pivot_chain[self.inner.pivot_chain.len() - 1];
        proof {
            assert(self.inner.pivot_chain@[self.inner.pivot_chain@.len() - 1]
                < self.inner.parents().len());
            lemma_node(self.inner.nodes(), tip as int);
        }
        self.inner.adjust_difficulty(tip)
    }

    /// Brings the risks up to date once the difficulty is set, and gives the
    /// list of the blocks that no block refers to in the form in which it is
    /// stored.
    pub fn conclude_block(&mut self, period_difficulty: Option<U256>) -> (terminals: Vec<u8>)
        requires
            old(self).wf(),
            old(self).total_weight_in_past_2d.delta.value() <= i128::MAX - weight_limit(),
            old(self).inner.pivot_chain@.len() > DEFERRED_STATE_EPOCH_COUNT ==> {
                let d = match period_difficulty {
                    Some(d) => d,
                    None => old(self).inner.current_difficulty,
                };
                d.fits_weight() && d.value() != 0
            },
        ensures
            final(self).wf(),
            risks_updated(*old(self), *final(self), period_difficulty),
            exists|list: Seq<H256>|
                list.no_duplicates() && list.to_set() == old(self).inner.terminal_hashes@
                    && terminals@ == #[trigger] stored_hashes(list),
    {
        proof {
            self.total_weight_in_past_2d.delta.lemma_value_decides(
                U256 { hi: 0, lo: i128::MAX as u128 },
            );
        }
        match period_difficulty {
            Some(difficulty) => {
                self.inner.current_difficulty = difficulty;
            },
            None => {},
        }
        let withheld: i128 = self.get_total_weight_in_past();
        match self.inner.update_confirmation_risks(withheld) {
            Some(finality) => {
                self.finality_manager = finality;
            },
            None => {},
        }
        self.inner.persist_terminals()
    }
}

/// A block came into the graph; nothing else changed but the count.
pub open spec fn took_in(before: ConsensusGraph, after: ConsensusGraph, block: BlockHeader) -> bool {
    let me = before.inner.size() as int;
    &&& after == (ConsensusGraph {
        inner: after.inner,
        statistics: ConsensusGraphStatistics { inserted_block_count: (me + 1) as usize },
        ..before
    })
    &&& after.inner == (ConsensusGraphInner {
        arena: after.inner.arena,
        indices: after.inner.indices,
        terminal_hashes: after.inner.terminal_hashes,
        sequence_number_of_block_entrance: (before.inner.sequence_number_of_block_entrance
            + 1) as u64,
        anticone_cache: after.inner.anticone_cache,
        trees: after.inner.trees,
        ..before.inner
    })
    &&& grown(before.inner.nodes(), after.inner.nodes())
    &&& node_of(
        before.inner.inner_conf,
        block,
        before.inner.indices@,
        after.inner.nodes()[me],
    )
    &&& after.inner.nodes()[me].parent == before.inner.indices@[block.parent_hash]
    &&& after.inner.nodes()[me].data.sequence_number
        == before.inner.sequence_number_of_block_entrance
    &&& after.inner.indices@ == before.inner.indices@.insert(block.hash, me as usize)
    &&& after.inner.terminal_hashes@ == terminals_after(
        before.inner.terminal_hashes@,
        block,
    )
}

/// The difficulty was set for blocks to come after the tip of the chain, but at
/// the end of a period, where it was left as it was and the block was named.
pub open spec fn difficulty_adjusted(
    before: ConsensusGraph,
    after: ConsensusGraph,
    period_end: Option<H256>,
) -> bool {
    let tip = before.inner.nodes()[before.inner.pivot_chain@.last() as int];
    let period = before.inner.pow_config.difficulty_adjustment_epoch_period;
    &&& period_end == (if tip.height != 0 && tip.height % period == 0 {
        Some(tip.hash)
    } else {
        None
    })
    &&& after == (ConsensusGraph {
        inner: ConsensusGraphInner {
            current_difficulty: (if tip.height == 0 {
                U256 { hi: 0, lo: before.inner.pow_config.initial_difficulty as u128 }
            } else if tip.height % period == 0 {
                before.inner.current_difficulty
            } else {
                tip.difficulty
            }),
            ..before.inner
        },
        ..before
    })
}

/// The difficulty that follows a period was set, if one is given, and the risks
/// were worked out anew, if the chain is long enough.
pub open spec fn risks_updated(
    before: ConsensusGraph,
    after: ConsensusGraph,
    period_difficulty: Option<U256>,
) -> bool {
    &&& after == (ConsensusGraph {
        inner: ConsensusGraphInner {
            current_difficulty: (match period_difficulty {
                Some(d) => d,
                None => before.inner.current_difficulty,
            }),
            ..before.inner
        },
        finality_manager: after.finality_manager,
        ..before
    })
    &&& before.inner.pivot_chain@.len() <= DEFERRED_STATE_EPOCH_COUNT
        ==> after.finality_manager == before.finality_manager
    &&& before.inner.pivot_chain@.len() > DEFERRED_STATE_EPOCH_COUNT ==> is_finality(
        after.inner,
        before.total_weight_in_past_2d.delta.value(),
        after.finality_manager,
    )
}

/// The decision on a pending block was carried into the graph.
pub open spec fn settled(
    before: ConsensusGraph,
    after: ConsensusGraph,
    p: PendingBlock,
    fully_valid: bool,
    r: PivotUpdate,
) -> bool {
    let nodes = after.inner.nodes();
    let end = state_end(after.inner.pivot_chain@.len() as int);
    &&& after == (ConsensusGraph {
        inner: after.inner,
        total_weight_in_past_2d: TotalWeightInPast {
            cur: after.total_weight_in_past_2d.cur,
            ..before.total_weight_in_past_2d
        },
        ..before
    })
    &&& after.total_weight_in_past_2d.cur.value() == before.total_weight_in_past_2d.cur.value()
        + r.weight
    &&& after.inner == (ConsensusGraphInner {
        arena: after.inner.arena,
        pivot_chain: after.inner.pivot_chain,
        pivot_chain_metadata: after.inner.pivot_chain_metadata,
        trees: after.inner.trees,
        optimistic_executed_height: after.inner.optimistic_executed_height,
        ..before.inner
    })
    &&& same_but_places(
        before.inner.nodes().update(
            p.me as int,
            flagged(before.inner.nodes()[p.me as int], p.stable, p.adaptive, !fully_valid),
        ),
        nodes,
    )
    &&& pivot_step(
        nodes,
        subtree_weights(after.inner.inner_conf, nodes, nodes.len()),
        before.inner.pivot_chain@,
        p.me as int,
        fully_valid,
        after.inner.pivot_chain@,
        r.fork_at as int,
    )
    &&& records_settled(
        before.inner.nodes(),
        nodes,
        before.inner.pivot_chain_metadata@,
        after.inner.pivot_chain_metadata@,
        after.inner.pivot_chain@,
        p.me as int,
        r,
    )
    &&& r.old_len == before.inner.pivot_chain@.len()
    &&& r.weight == weight_of(after.inner.inner_conf, nodes[p.me as int])
    &&& r.extended == (fully_valid && before.inner.nodes()[p.me as int].parent
        == before.inner.pivot_chain@.last())
    &&& after.inner.optimistic_executed_height == (if !fully_valid {
        before.inner.optimistic_executed_height
    } else if end > 0 {
        Some(end as usize)
    } else {
        None
    })
}

} // verus!
