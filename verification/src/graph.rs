//! Recovery of a consensus graph from stored blocks, and what can be asked of
//! one.

use vstd::prelude::*;
use crate::adaptive::{adaptivity, told_adaptive};
use crate::arrival::{block_adaptivity, WeighedBlock};
use crate::confirmation::block_risk;
use crate::consensus::{took_in, ConsensusGraph};
use crate::construct::{all_but_first, receipts_recorded, ReceiptsRecord};
use crate::dag::{ancestor_at_depth, depth};
use crate::finish::{flagged, same_but_places};
use crate::insert::insertable;
use crate::metadata::records_moved;
use crate::model::subtree_weight;
use crate::plans::{are_state_tasks, are_tasks_for, deferred_place, fork_place, last_state_height,
    path_to, state_payable};
use crate::queries::{difficulty_after, height_meant, no_such_epoch, state_height, Difficulty};
use crate::removal::same_trees;
use crate::rewards::{epoch_hashes, EpochExecutionTask};
use crate::state::ConsensusGraphInner;
#[allow(unused_imports)]
use crate::state::lemma_node;
use crate::types::{BlockHeader, EpochNumber, H256, U256};

verus! {

/// What is left to do after the pivot chain was built: the receipts roots that
/// headers of the chain record, and the block from whose period the difficulty
/// is to be worked out, if the chain ends a period.
pub struct ConstructedPivot {
    pub receipts: Vec<ReceiptsRecord>,
    pub period_end: Option<H256>,
}

/// How a stored block goes into the graph: as the rules find it, or, when it is
/// known to be partially invalid, as it came.
pub open spec fn stored_flags(inner: ConsensusGraphInner, me: int, partial_invalid: bool) -> (
    bool,
    bool,
) {
    if partial_invalid {
        (true, inner.nodes()[me].adaptive)
    } else {
        block_adaptivity(inner.inner_conf, inner.nodes(), me)
    }
}

/// The pivot chain was built for all blocks at once. The difficulty was set for
/// blocks to come after its tip, but at the end of a period, where it was left as
/// it was and the block was named.
pub open spec fn chain_built(
    before: ConsensusGraph,
    after: ConsensusGraph,
    period_end: Option<H256>,
) -> bool {
    let tip = before.inner.nodes()[after.inner.pivot_chain@.last() as int];
    let period = before.inner.pow_config.difficulty_adjustment_epoch_period;
    &&& before.inner.is_pivot_to_be(after.inner.pivot_chain@)
    &&& same_but_places(before.inner.nodes(), after.inner.nodes())
    &&& period_end == (if tip.height != 0 && tip.height % period == 0 {
        Some(tip.hash)
    } else {
        None
    })
    &&& after == (ConsensusGraph {
        inner: ConsensusGraphInner {
            arena: after.inner.arena,
            pivot_chain: after.inner.pivot_chain,
            pivot_chain_metadata: after.inner.pivot_chain_metadata,
            current_difficulty: (if tip.height == 0 {
                U256 { hi: 0, lo: before.inner.pow_config.initial_difficulty as u128 }
            } else if tip.height % period == 0 {
                before.inner.current_difficulty
            } else {
                tip.difficulty
            }),
            ..before.inner
        },
        ..before
    })
}

/// A stored block was taken in again. The graph was `mid` when the block was
/// linked; then its flags were decided.
pub open spec fn restored(
    before: ConsensusGraph,
    mid: ConsensusGraph,
    after: ConsensusGraph,
    block: BlockHeader,
    partial_invalid: Option<bool>,
) -> bool {
    let me = before.inner.size() as int;
    let invalid = partial_invalid == Some(true);
    let flags = stored_flags(mid.inner, me, invalid);
    &&& took_in(before, mid, block)
    &&& mid.inner.linked(me)
    &&& after.inner.nodes() == mid.inner.nodes().update(
        me,
        flagged(mid.inner.nodes()[me], flags.0, flags.1, invalid),
    )
    &&& after == (ConsensusGraph {
        inner: ConsensusGraphInner {
            arena: after.inner.arena,
            trees: after.inner.trees,
            ..mid.inner
        },
        ..mid
    })
}

/// The weight of a block with all that hangs below it, if it is in the graph.
pub open spec fn total_weight_of(inner: ConsensusGraphInner, hash: H256) -> Option<int> {
    if inner.indices@.contains_key(hash) {
        Some(
            subtree_weight(
                inner.inner_conf,
                inner.nodes(),
                inner.size(),
                inner.indices@[hash] as int,
            ),
        )
    } else {
        None
    }
}

/// The pivot blocks of the epochs on the way to `x`, from the last one on the pivot
/// chain on, and the height of that one.
pub open spec fn are_epochs_to_compute(
    inner: ConsensusGraphInner,
    x: int,
    hashes: Seq<H256>,
    fork: int,
) -> bool {
    &&& fork == fork_place(inner, x)
    &&& hashes == path_to(inner.parents(), x).skip(fork).map_values(
        |i: usize| inner.nodes()[i as int].hash,
    )
    &&& hashes.len() > 0
}

impl ConsensusGraph {
    /// The graph is being rebuilt from stored blocks: the chain is the genesis
    /// block alone.
    pub open spec fn rebuilding(&self) -> bool {
        &&& self.inner.ready()
        &&& self.surroundings_ok()
        &&& self.inner.pivot_chain@ == seq![0usize]
    }

    /// If the chain to be built is genesis and one block, that block has the
    /// current difficulty.
    pub open spec fn first_difficulty_agrees(&self) -> bool {
        forall|path: Seq<usize>| #[trigger]
            self.inner.is_pivot_to_be(path) && path.len() == 2 ==> self.inner.current_difficulty
                == self.inner.nodes()[path[1] as int].difficulty
    }

    /// Takes a stored block in. Its status tells whether it is partially invalid;
    /// a block without a status is taken for valid. The pivot chain is built by
    /// `construct_pivot` when all blocks are in.
    pub fn on_new_block_construction_only(
        &mut self,
        block: &BlockHeader,
        partial_invalid: Option<bool>,
    )
        requires
            old(self).rebuilding(),
            insertable(old(self).inner, *block),
        ensures
            final(self).rebuilding(),
            exists|mid: ConsensusGraph| #[trigger]
                restored(*old(self), mid, *final(self), *block, partial_invalid),
    {
        let me: usize = self.insert_block_initial(block);
        let weighed: WeighedBlock = self.inner.weigh_block(me);
        let ghost mid = *self;
        let invalid: bool = match partial_invalid {
            Some(p) => p,
            None => false,
        };
        if invalid {
            let adaptive: bool = self.inner.arena.get(me).adaptive;
            self.inner.finish_construction(me, true, adaptive, false);
        } else {
            self.inner.finish_construction(me, weighed.stable, weighed.adaptive, true);
        }
        assert(restored(*old(self), mid, *self, *block, partial_invalid));
    }

    /// Whether `construct_pivot` can be called.
    pub fn can_construct_pivot(&self) -> (agrees: bool)
        requires
            self.rebuilding(),
        ensures
            agrees == self.first_difficulty_agrees(),
    {
        let path: Vec<usize> = self.inner.pivot_to_be();
        assert(self.inner.is_pivot_to_be(path@));
        if path.len() == 2 {
            assert(path@[1] < self.inner.parents().len());
            self.inner.current_difficulty == self.inner.arena.get(path[1]).difficulty
        } else {
            true
        }
    }

    /// Builds the pivot chain of all blocks at once.
    pub fn construct_pivot(&mut self) -> (r: ConstructedPivot)
        requires
            old(self).rebuilding(),
            old(self).first_difficulty_agrees(),
            old(self).inner.pow_config.difficulty_adjustment_epoch_period > 0,
        ensures
            final(self).wf(),
            final(self).inner.is_pivot_to_be(final(self).inner.pivot_chain@),
            records_moved(
                old(self).inner.nodes(),
                final(self).inner.nodes(),
                old(self).inner.pivot_chain_metadata@,
                final(self).inner.pivot_chain_metadata@,
                final(self).inner.pivot_chain@,
                0,
                all_but_first(old(self).inner.size()),
            ),
            receipts_recorded(
                final(self).inner,
                final(self).inner.pivot_chain@,
                r.receipts@,
            ),
            chain_built(*old(self), *final(self), r.period_end),
    {
        let ghost start = *self;
        let path: Vec<usize> = self.inner.pivot_to_be();
        let ghost chain = path@;
        let tip: usize = path[path.len() - 1];
        proof {
            let par = self.inner.parents();
            assert(start.inner.is_pivot_to_be(chain));
            assert(chain[chain.len() - 1] < par.len());
            lemma_node(self.inner.nodes(), tip as int);
            if self.inner.nodes()[tip as int].parent == 0 {
                if chain.len() > 2 {
                    assert(chain[chain.len() - 2] < par.len());
                    crate::validity::lemma_chain_index(par, chain, chain.len() - 2);
                    crate::dag::lemma_root_is_ancestor(par, 0);
                    assert(par[chain[chain.len() - 1] as int] == chain[chain.len() - 2]);
                }
                if chain.len() == 1 {
                    assert(tip == 0);
                }
            }
        }
        let period_end: Option<H256> = self.inner.adjust_difficulty(tip);
        let ghost adjusted = self.inner;
        proof {
            assert(adjusted.is_pivot_to_be(chain));
        }
        self.inner.construct_pivot();
        proof {
            let built = self.inner.pivot_chain@;
            assert(adjusted.is_pivot_to_be(built));
            assert(start.inner.is_pivot_to_be(built));
            assert(built == chain);
        }
        let receipts: Vec<ReceiptsRecord> = self.inner.receipts_records();
        ConstructedPivot { receipts, period_end }
    }

    /// The difficulty that the children of a block must have.
    pub fn expected_difficulty(&self, parent_hash: &H256) -> (difficulty: Difficulty)
        requires
            self.inner.readable(),
            self.inner.indices@.contains_key(*parent_hash),
            self.inner.pow_config.difficulty_adjustment_epoch_period > 0,
        ensures
            difficulty == difficulty_after(
                self.inner,
                self.inner.indices@[*parent_hash] as int,
            ),
    {
        self.inner.expected_difficulty(parent_hash)
    }

    /// The risk that a block leaves its epoch, in millionths, where it is known.
    pub fn confirmation_risk_by_hash(&self, hash: H256) -> (risk: Option<u32>)
        requires
            self.wf(),
        ensures
            risk == (if self.inner.indices@.contains_key(hash)
                && self.inner.nodes()[self.inner.indices@[hash] as int].data.epoch_number
                != crate::dag::NULL {
                self.finality_manager.risk_at(
                    self.inner.nodes()[self.inner.indices@[hash] as int].data.epoch_number as int,
                )
            } else {
                None
            }),
            risk == block_risk(self.inner, self.finality_manager, hash),
    {
        self.inner.confirmation_risk_by_hash(&self.finality_manager, hash)
    }

    /// Whether the next block under a parent should be adaptive.
    pub fn check_mining_adaptive_block(&mut self, parent_hash: &H256, difficulty: &U256) -> (
        adaptive: bool)
        requires
            old(self).wf(),
            old(self).inner.indices@.contains_key(*parent_hash),
            difficulty.fits_weight(),
            old(self).inner.inner_conf.adaptive_weight_beta * difficulty.value() <= i128::MAX,
        ensures
            final(self).wf(),
            *final(self) == (ConsensusGraph {
                inner: ConsensusGraphInner {
                    trees: final(self).inner.trees,
                    ..old(self).inner
                },
                ..*old(self)
            }),
            same_trees(old(self).inner.trees, final(self).inner.trees),
            adaptive == adaptivity(
                old(self).inner.inner_conf,
                old(self).inner.nodes(),
                Set::<int>::empty(),
                old(self).inner.size(),
                old(self).inner.indices@[*parent_hash] as int,
                difficulty.value(),
            ).1,
            adaptive == told_adaptive(
                old(self).inner,
                old(self).inner.indices@[*parent_hash] as int,
                difficulty.value(),
            ),
    {
        let parent_index: usize = self.inner.indices.get(parent_hash).unwrap();
        self.inner.check_mining_adaptive_block(parent_index, *difficulty)
    }

    pub fn get_height_from_epoch_number(&self, epoch_number: EpochNumber) -> (height: Result<
        usize,
        String,
    >)
        requires
            self.wf(),
        ensures
            match height_meant(self.inner.pivot_chain@.len() as int, epoch_number) {
                Some(h) => height matches Ok(found) && found == h,
                None => height matches Err(e) && e@ == no_such_epoch(),
            },
    {
        self.inner.get_height_from_epoch_number(epoch_number)
    }

    pub fn best_epoch_number(&self) -> (epoch: usize)
        requires
            self.wf(),
        ensures
            epoch == self.inner.pivot_chain@.len() - 1,
    {
        self.inner.best_epoch_number()
    }

    pub fn verified_invalid(&self, hash: &H256) -> (invalid: bool)
        ensures
            invalid == self.invalid_blocks@.contains(*hash),
    {
        self.invalid_blocks.contains(hash)
    }

    pub fn invalidate_block(&mut self, hash: &H256)
        requires
            old(self).invalid_blocks.wf(),
        ensures
            final(self).invalid_blocks.wf(),
            final(self).invalid_blocks@ == old(self).invalid_blocks@.insert(*hash),
            *final(self) == (ConsensusGraph {
                invalid_blocks: final(self).invalid_blocks,
                ..*old(self)
            }),
    {
        self.invalid_blocks.insert(*hash);
    }

    /// The weight of the subtree of a block.
    pub fn get_block_total_weight(&self, hash: &H256) -> (weight: Option<i128>)
        requires
            self.inner.ready(),
        ensures
            weight is Some <==> self.inner.indices@.contains_key(*hash),
            weight matches Some(w) ==> w == subtree_weight(
                self.inner.inner_conf,
                self.inner.nodes(),
                self.inner.size(),
                self.inner.indices@[*hash] as int,
            ),
            match total_weight_of(self.inner, *hash) {
                Some(w) => weight matches Some(found) && found == w,
                None => weight is None,
            },
    {
        match self.inner.indices.get(hash) {
            Some(idx) => {
                proof {
                    assert(self.inner.indices@.contains_key(*hash));
                    self.inner.lemma_tree_weight_at(self.inner.size(), idx as int);
                }
                Some(self.inner.trees.weight_tree.get(idx))
            },
            None => None,
        }
    }

    pub fn get_block_epoch_number(&self, hash: &H256) -> (epoch: Option<usize>)
        requires
            self.wf(),
        ensures
            epoch == (if self.inner.indices@.contains_key(*hash) {
                Some(self.inner.nodes()[self.inner.indices@[*hash] as int].data.epoch_number)
            } else {
                None
            }),
    {
        self.inner.get_block_epoch_number(hash)
    }

    pub fn get_block_hashes_by_epoch(&self, epoch_number: EpochNumber) -> (hashes: Result<
        Vec<H256>,
        String,
    >)
        requires
            self.wf(),
        ensures
            match height_meant(self.inner.pivot_chain@.len() as int, epoch_number) {
                Some(h) => hashes matches Ok(found) && found@ == epoch_hashes(
                    self.inner.nodes(),
                    self.inner.pivot_chain@[h] as int,
                ),
                None => hashes matches Err(e) && e@ == no_such_epoch(),
            },
    {
        self.inner.block_hashes_by_epoch(epoch_number)
    }

    pub fn best_block_hash(&self) -> (hash: H256)
        requires
            self.wf(),
        ensures
            hash == self.inner.nodes()[self.inner.pivot_chain@.last() as int].hash,
    {
        self.inner.best_block_hash()
    }

    pub fn best_state_epoch_number(&self) -> (epoch: usize)
        requires
            self.wf(),
        ensures
            epoch == state_height(self.inner.pivot_chain@.len() as int),
    {
        self.inner.best_state_epoch_number()
    }

    pub fn get_hash_from_epoch_number(&self, epoch_number: EpochNumber) -> (hash: Result<
        H256,
        String,
    >)
        requires
            self.wf(),
        ensures
            match height_meant(self.inner.pivot_chain@.len() as int, epoch_number) {
                Some(h) => hash matches Ok(found) && found
                    == self.inner.nodes()[self.inner.pivot_chain@[h] as int].hash,
                None => hash matches Err(e) && e@ == no_such_epoch(),
            },
    {
        self.inner.get_hash_from_epoch_number(epoch_number)
    }

    /// The block at height `n` on the path to a block.
    pub fn get_ancestor(&self, hash: &H256, n: usize) -> (ancestor: H256)
        requires
            self.inner.ready(),
            self.inner.indices@.contains_key(*hash),
            n <= self.inner.nodes()[self.inner.indices@[*hash] as int].height,
        ensures
            ancestor == self.inner.nodes()[ancestor_at_depth(
                self.inner.parents(),
                self.inner.indices@[*hash] as int,
                n as nat,
            )].hash,
    {
        let me: usize = self.inner.indices.get(hash).unwrap();
        proof {
            lemma_node(self.inner.nodes(), me as int);
            self.inner.lemma_tree_weight_at(self.inner.size(), me as int);
        }
        let idx: usize = self.inner.ancestor_of(me, n);
        self.inner.arena.get(idx).hash
    }

    /// How many blocks the graph holds.
    pub fn block_count(&self) -> (count: usize)
        requires
            self.inner.arena.wf(),
        ensures
            count == self.inner.size(),
    {
        self.inner.arena.len()
    }

    /// The epochs of the path to a block from the last one that it has in common
    /// with the pivot chain on, and the height of that one. It is for others to
    /// tell how many of them have been executed.
    pub fn epochs_to_compute(&self, block_hash: &H256) -> (r: (Vec<H256>, usize))
        requires
            self.inner.readable(),
            self.inner.indices@.contains_key(*block_hash),
        ensures
            ({
                let me = self.inner.indices@[*block_hash] as int;
                &&& r.1 == fork_place(self.inner, me)
                &&& r.0@ == path_to(self.inner.parents(), me).skip(r.1 as int).map_values(
                    |i: usize| self.inner.nodes()[i as int].hash,
                )
                &&& r.0@.len() > 0
            }),
            are_epochs_to_compute(
                self.inner,
                self.inner.indices@[*block_hash] as int,
                r.0@,
                r.1 as int,
            ),
    {
        let me: usize = self.inner.indices.get(block_hash).unwrap();
        let (chain, fork_height) = self.inner.fork_chain(me);
        let ghost nodes = self.inner.nodes();
        let ghost par = self.inner.parents();
        let mut hashes: Vec<H256> = Vec::new();
        let mut i: usize = 0;
        proof {
            lemma_node(nodes, me as int);
        }
        while i < chain.len()
            invariant
                self.inner.readable(),
                nodes == self.inner.nodes(),
                par == self.inner.parents(),
                crate::dag::rooted(par),
                par.len() == nodes.len(),
                me < nodes.len(),
                fork_height <= depth(par, me as int),
                chain@ == path_to(par, me as int).skip(fork_height as int),
                i <= chain@.len(),
                hashes@.len() == i,
                forall|j: int|
                    0 <= j < i ==> #[trigger] hashes@[j] == nodes[chain@[j] as int].hash,
            decreases chain@.len() - i,
        {
            proof {
                crate::plans::lemma_path(par, me as int, fork_height + i);
            }
            hashes.push(self.inner.arena.get(chain[i]).hash);
            i += 1;
        }
        proof {
            assert(hashes@ =~= path_to(par, me as int).skip(fork_height as int).map_values(
                |i: usize| self.inner.nodes()[i as int].hash,
            ));
        }
        (hashes, fork_height)
    }

    /// What to execute for the state after a block, when the first `start_index`
    /// epochs of `epochs_to_compute` have been executed. If some have, the epochs
    /// of the chain whose execution was put off come first.
    pub fn compute_state_for_block(&self, block_hash: &H256, start_index: usize) -> (tasks: Vec<
        EpochExecutionTask,
    >)
        requires
            self.inner.readable(),
            self.inner.indices@.contains_key(*block_hash),
            ({
                let me = self.inner.indices@[*block_hash] as int;
                let height = depth(self.inner.parents(), me);
                let fork = fork_place(self.inner, me) as int;
                &&& start_index <= height - fork + 1
                &&& state_payable(self.inner, me, fork, start_index as int)
            }),
        ensures
            ({
                let me = self.inner.indices@[*block_hash] as int;
                let path = path_to(self.inner.parents(), me);
                let fork = fork_place(self.inner, me) as int;
                let resume = if start_index != 0 {
                    last_state_height(self.inner.pivot_chain@.len() as int) + 1
                } else {
                    fork + 1
                };
                let first = if resume <= fork {
                    fork + 1 - resume
                } else {
                    0
                };
                &&& first <= tasks@.len()
                &&& are_tasks_for(
                    self.inner,
                    path,
                    resume,
                    fork + 1,
                    false,
                    tasks@.take(first),
                )
                &&& are_tasks_for(
                    self.inner,
                    path,
                    fork + start_index,
                    path.len() as int,
                    false,
                    tasks@.skip(first),
                )
            }),
            are_state_tasks(
                self.inner,
                self.inner.indices@[*block_hash] as int,
                fork_place(self.inner, self.inner.indices@[*block_hash] as int) as int,
                start_index as int,
                tasks@,
            ),
    {
        let me: usize = self.inner.indices.get(block_hash).unwrap();
        let (_chain, fork_height) = self.inner.fork_chain(me);
        self.inner.compute_state_tasks(me, fork_height, start_index)
    }

    /// The block whose state a block `delay` heights later refers to.
    pub fn compute_deferred_state_for_block(&self, block_hash: &H256, delay: usize) -> (hash: H256)
        requires
            self.inner.readable(),
            self.inner.indices@.contains_key(*block_hash),
        ensures
            ({
                let par = self.inner.parents();
                let me = self.inner.indices@[*block_hash] as int;
                hash == self.inner.nodes()[ancestor_at_depth(
                    par,
                    me,
                    (if depth(par, me) > delay {
                        depth(par, me) - delay
                    } else {
                        0
                    }) as nat,
                )].hash
            }),
            hash == self.inner.nodes()[deferred_place(
                self.inner.parents(),
                self.inner.indices@[*block_hash] as int,
                delay as int,
            )].hash,
    {
        let me: usize = self.inner.indices.get(block_hash).unwrap();
        let idx: usize = self.inner.deferred_block(me, delay);
        self.inner.arena.get(idx).hash
    }
}

} // verus!
