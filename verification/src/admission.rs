//! Tests for what the graph asks of its callers.

use vstd::prelude::*;
use crate::arena::ConsensusGraphNode;
use crate::config::{ConsensusInnerConfig, DEFERRED_STATE_EPOCH_COUNT, REWARD_EPOCH_COUNT};
use crate::consensus::{state_end, state_start, ConsensusGraph};
use crate::dag::depth;
use crate::finish::PivotUpdate;
use crate::genesis::{empty_receipts_root, is_genesis};
use crate::insert::insertable;
use crate::model::{chain_ok, limits_ok, scale, total_cap, weight_cap, weight_limit};
use crate::plans::{debug_reward_index, fork_place, is_run, path_to, state_payable};
#[allow(unused_imports)]
use crate::plans::lemma_path;
use crate::rewards::{payable, payable_at};
use crate::state::ConsensusGraphInner;
#[allow(unused_imports)]
use crate::state::{lemma_depth_bounded, lemma_node, lemma_total_cap_bounds};
use crate::sums::sum_to;
#[allow(unused_imports)]
use crate::sums::lemma_sum_nonnegative;
use crate::types::{BlockHeader, H256, U256};

verus! {

/// A sum grows with the number of its terms when none is negative.
proof fn lemma_sum_grows(f: spec_fn(int) -> int, k: nat, n: nat)
    requires
        k <= n,
        forall|i: int| 0 <= i < n ==> 0 <= #[trigger] f(i),
    ensures
        0 <= sum_to(f, k) <= sum_to(f, n),
    decreases n,
{
    if k < n {
        lemma_sum_grows(f, k, (n - 1) as nat);
        assert(0 <= f(n - 1));
    } else {
        lemma_sum_nonnegative(f, n);
    }
}

/// Adding the cap of one more block keeps within what all blocks together weigh.
proof fn lemma_cap_step(conf: ConsensusInnerConfig, nodes: Seq<ConsensusGraphNode>, i: int)
    requires
        limits_ok(conf, nodes),
        0 <= i < nodes.len(),
    ensures
        ({
            let cap = |j: int| weight_cap(conf)(nodes[j]);
            &&& nodes[i].difficulty.fits_weight()
            &&& 0 <= nodes[i].difficulty.value()
            &&& 0 <= sum_to(cap, i as nat)
            &&& sum_to(cap, (i + 1) as nat) == sum_to(cap, i as nat)
                + conf.heavy_block_difficulty_ratio + nodes[i].difficulty.value()
            &&& sum_to(cap, (i + 1) as nat) <= weight_limit()
        }),
{
    let cap = |j: int| weight_cap(conf)(nodes[j]);
    lemma_total_cap_bounds(conf, nodes);
    reveal(limits_ok);
    assert forall|j: int| 0 <= j < nodes.len() implies 0 <= #[trigger] cap(j) by {
        nodes[j].difficulty.lemma_value_decides(nodes[j].difficulty);
    }
    assert(0 <= cap(i));
    lemma_sum_grows(cap, i as nat, nodes.len());
    lemma_sum_grows(cap, (i + 1) as nat, nodes.len());
}

/// Whether `(used + ratio + difficulty) * scale` is within the limit.
fn fits_beside(conf: &ConsensusInnerConfig, used: u128, difficulty: &U256) -> (fits: bool)
    ensures
        fits == (difficulty.fits_weight() && (used + conf.heavy_block_difficulty_ratio
            + difficulty.value()) * scale(*conf) <= weight_limit()),
{
    if difficulty.hi != 0 || difficulty.lo > i128::MAX as u128 {
        return false;
    }
    let limit: u128 = 0x100_0000_0000_0000_0000_0000_0000_0000;
    let own: u128 = conf.heavy_block_difficulty_ratio as u128 + difficulty.lo;
    let factor: u128 = 1 + conf.adaptive_weight_alpha_num as u128
        + conf.adaptive_weight_alpha_den as u128 + conf.adaptive_weight_beta as u128;
    let ghost whole = used + own;
    assert(whole <= whole * factor) by (nonlinear_arith)
        requires
            0 <= whole,
            1 <= factor,
    ;
    match used.checked_add(own) {
        None => false,
        Some(sum) => match sum.checked_mul(factor) {
            None => false,
            Some(scaled) => scaled <= limit,
        },
    }
}

impl ConsensusGraphInner {
    /// What all blocks together can weigh at most.
    fn weight_in_use(&self) -> (used: u128)
        requires
            self.base_ok(),
        ensures
            used == total_cap(self.inner_conf, self.nodes()),
    {
        let ghost conf = self.inner_conf;
        let ghost nodes = self.nodes();
        let ghost cap = |j: int| weight_cap(conf)(nodes[j]);
        let ratio: u128 = self.inner_conf.heavy_block_difficulty_ratio as u128;
        let mut used: u128 = 0;
        let mut i: usize = 0;
        while i < self.arena.len()
            invariant
                self.base_ok(),
                conf == self.inner_conf,
                nodes == self.nodes(),
                cap == (|j: int| weight_cap(conf)(nodes[j])),
                ratio == conf.heavy_block_difficulty_ratio,
                i <= nodes.len(),
                used == sum_to(cap, i as nat),
            decreases nodes.len() - i,
        {
            proof {
                lemma_cap_step(conf, nodes, i as int);
            }
            used = used + ratio + self.arena.get(i).difficulty.lo;
            i = i + 1;
        }
        used
    }

    /// Whether a block with this header can be taken in.
    pub fn can_insert(&self, header: &BlockHeader) -> (can: bool)
        requires
            self.base_ok(),
        ensures
            can == insertable(*self, *header),
    {
        if header.parent_hash == H256::zero() || self.indices.contains(&header.hash) {
            return false;
        }
        let parent: usize = match self.indices.get(&header.parent_hash) {
            Some(parent) => parent,
            None => {
                return false;
            },
        };
        let mut j: usize = 0;
        while j < header.referee_hashes.len()
            invariant
                j <= header.referee_hashes@.len(),
                forall|k: int|
                    0 <= k < j ==> self.indices@.contains_key(#[trigger] header.referee_hashes@[k]),
            decreases header.referee_hashes@.len() - j,
        {
            if !self.indices.contains(&header.referee_hashes[j]) {
                return false;
            }
            j = j + 1;
        }
        proof {
            lemma_node(self.nodes(), 0);
            lemma_node(self.nodes(), parent as int);
            lemma_depth_bounded(self.parents(), parent as int);
        }
        if header.height != self.arena.get(parent).height + 1 {
            return false;
        }
        let limit: usize = if usize::BITS == 64 {
            0x100_0000
        } else {
            0x10_0000
        };
        if self.arena.len() >= limit || self.sequence_number_of_block_entrance == u64::MAX {
            return false;
        }
        fits_beside(&self.inner_conf, self.weight_in_use(), &header.difficulty)
    }

    /// Whether rewards can be worked out for the epoch of a block.
    pub fn is_payable(&self, x: usize) -> (can: bool)
        requires
            self.readable(),
            x < self.size(),
        ensures
            can == payable(*self, x as int),
    {
        if !self.arena.get(x).difficulty.is_zero() {
            return true;
        }
        let ghost list = self.nodes()[x as int].data.ordered_epoch_blocks@;
        let mut j: usize = 0;
        while j < self.arena.get(x).data.ordered_epoch_blocks.len()
            invariant
                self.readable(),
                x < self.size(),
                list == self.nodes()[x as int].data.ordered_epoch_blocks@,
                self.nodes()[x as int].difficulty.value() == 0,
                j <= list.len(),
                forall|k: int|
                    0 <= k < j ==> self.nodes()[#[trigger] list[k] as int].data.partial_invalid,
            decreases list.len() - j,
        {
            let y: usize = self.arena.get(x).data.ordered_epoch_blocks[j];
            proof {
                self.lemma_epoch_member(x as int, j as int);
                assert(list[j as int] == y);
            }
            if !self.arena.get(y).data.partial_invalid {
                return false;
            }
            j = j + 1;
        }
        true
    }

    /// Whether the rewards that fall due from height `from` to before `to` of a
    /// chain can be worked out.
    pub fn can_run(&self, chain: &Vec<usize>, from: usize, to: usize) -> (can: bool)
        requires
            self.readable(),
            chain_ok(self.parents(), chain@),
            to <= chain@.len(),
        ensures
            can == forall|h: int| from <= h < to ==> #[trigger] payable_at(*self, chain@, h),
    {
        let mut at: usize = from;
        while at < to
            invariant
                self.readable(),
                chain_ok(self.parents(), chain@),
                to <= chain@.len(),
                from <= at,
                forall|h: int| from <= h < at ==> #[trigger] payable_at(*self, chain@, h),
            decreases to - at,
        {
            if at > REWARD_EPOCH_COUNT as usize {
                let x: usize = chain[at - REWARD_EPOCH_COUNT as usize];
                assert(chain@[at - REWARD_EPOCH_COUNT] < self.parents().len());
                if !self.is_payable(x) {
                    assert(!payable_at(*self, chain@, at as int));
                    return false;
                }
            }
            assert(payable_at(*self, chain@, at as int));
            at = at + 1;
        }
        true
    }

    /// Whether it can be traced how the epoch of a block was computed.
    pub fn can_trace(&self, epoch_index: usize) -> (can: bool)
        requires
            self.readable(),
        ensures
            can == (0 < epoch_index < self.size() && (debug_reward_index(
                *self,
                epoch_index as int,
            ) matches Some(r) ==> payable(*self, r.0 as int))),
    {
        if epoch_index == 0 || epoch_index >= self.arena.len() {
            return false;
        }
        let path: Vec<usize> = self.path_of(epoch_index);
        proof {
            lemma_node(self.nodes(), epoch_index as int);
        }
        if path.len() <= REWARD_EPOCH_COUNT as usize {
            return true;
        }
        let place: usize = path.len() - 1 - REWARD_EPOCH_COUNT as usize;
        proof {
            lemma_path(self.parents(), epoch_index as int, place as int);
        }
        self.is_payable(path[place])
    }
}

impl ConsensusGraph {
    /// Whether a graph can begin with this block.
    pub fn can_begin(conf: &ConsensusInnerConfig, genesis: &BlockHeader) -> (can: bool)
        ensures
            can == is_genesis(*conf, *genesis),
    {
        genesis.parent_hash == H256::zero() && genesis.referee_hashes.len() == 0 && genesis.height
            == 0 && genesis.deferred_receipts_root == empty_receipts_root() && fits_beside(
            conf,
            0,
            &genesis.difficulty,
        )
    }

    /// Whether the rewards that fall due after a block was settled can be worked
    /// out.
    pub fn can_execute(&self, update: &PivotUpdate) -> (can: bool)
        requires
            self.inner.readable(),
        ensures
            can == forall|h: int|
                state_start(update.fork_at as int, update.old_len as int) <= h < state_end(
                    self.inner.pivot_chain@.len() as int,
                ) ==> #[trigger] payable_at(self.inner, self.inner.pivot_chain@, h),
    {
        let (from, to) = self.state_range(update);
        self.inner.can_run(&self.inner.pivot_chain, from, to)
    }

    /// Whether the state of a block can be computed from `start_index` of its
    /// branch on.
    pub fn can_compute_state(&self, block_hash: &H256, start_index: usize) -> (can: bool)
        requires
            self.inner.readable(),
        ensures
            can == (self.inner.indices@.contains_key(*block_hash) && {
                let me = self.inner.indices@[*block_hash] as int;
                let fork = fork_place(self.inner, me) as int;
                &&& start_index <= depth(self.inner.parents(), me) - fork + 1
                &&& state_payable(self.inner, me, fork, start_index as int)
            }),
    {
        let me: usize = match self.inner.indices.get(block_hash) {
            Some(me) => me,
            None => {
                return false;
            },
        };
        let ghost inner = self.inner;
        let ghost par = inner.parents();
        let ghost whole = path_to(par, me as int);
        let ghost len = inner.pivot_chain@.len() as int;
        proof {
            lemma_node(inner.nodes(), me as int);
            lemma_depth_bounded(par, me as int);
        }
        let (_chain, fork) = self.inner.fork_chain(me);
        let path: Vec<usize> = self.inner.path_of(me);
        proof {
            inner.lemma_path_is_chain(me as int);
        }
        if start_index > path.len() - fork {
            return false;
        }
        let resume: usize = if start_index == 0 {
            fork + 1
        } else if self.inner.pivot_chain.len() > DEFERRED_STATE_EPOCH_COUNT as usize {
            self.inner.pivot_chain.len() - DEFERRED_STATE_EPOCH_COUNT as usize + 1
        } else {
            1
        };
        let on_pivot: bool = self.inner.can_run(&path, resume, fork + 1);
        let on_branch: bool = self.inner.can_run(&path, fork + start_index, path.len());
        proof {
            assert(state_payable(inner, me as int, fork as int, start_index as int) == (on_pivot
                && on_branch)) by {
                if on_pivot && on_branch {
                    assert forall|h: int|
                        0 <= h <= depth(par, me as int) && is_run(
                            len,
                            fork as int,
                            start_index as int,
                            h,
                        ) implies #[trigger] payable_at(inner, whole, h) by {}
                }
                if !on_pivot {
                    let h = choose|h: int|
                        resume <= h < fork + 1 && !(#[trigger] payable_at(inner, whole, h));
                    assert(is_run(len, fork as int, start_index as int, h));
                }
                if !on_branch {
                    let h = choose|h: int|
                        fork + start_index <= h < whole.len() && !(#[trigger] payable_at(
                            inner,
                            whole,
                            h,
                        ));
                    assert(is_run(len, fork as int, start_index as int, h));
                }
            }
        }
        on_pivot && on_branch
    }
}

} // verus!
