//! A gas price from the transactions of the newest blocks.

use vstd::prelude::*;
use vstd::seq_lib::{to_multiset_build, to_multiset_insert};
use crate::config::{GAS_PRICE_BLOCK_SAMPLE_SIZE, GAS_PRICE_TRANSACTION_SAMPLE_SIZE};
use crate::hash_index::HashIndex;
use crate::rewards::epoch_hashes;
use crate::state::ConsensusGraphInner;
use crate::types::{H256, U256};

verus! {

/// What the sample takes from a transaction.
#[derive(Clone, Copy)]
pub struct PricedTransaction {
    pub hash: H256,
    pub gas_price: U256,
}

/// A sample of gas prices: blocks of the pivot chain are looked at from the tip
/// downwards, and every transaction counts once.
pub struct GasPriceSampler {
    /// The next epoch to look at.
    pub epoch: usize,
    /// How many more blocks are looked at.
    pub blocks_left: usize,
    pub seen: HashIndex,
    pub prices: Vec<U256>,
}

/// The transactions seen and the prices taken after the transactions of a block.
/// Taking stops when the prices have just reached the sample size.
pub open spec fn sampled(
    seen: Set<H256>,
    prices: Seq<U256>,
    transactions: Seq<PricedTransaction>,
) -> (Set<H256>, Seq<U256>)
    decreases transactions.len(),
{
    if transactions.len() == 0 {
        (seen, prices)
    } else {
        let tx = transactions[0];
        let rest = transactions.skip(1);
        if seen.contains(tx.hash) {
            sampled(seen, prices, rest)
        } else {
            let more = prices.push(tx.gas_price);
            if more.len() == GAS_PRICE_TRANSACTION_SAMPLE_SIZE {
                (seen.insert(tx.hash), more)
            } else {
                sampled(seen.insert(tx.hash), more, rest)
            }
        }
    }
}

/// The prices stand in ascending order.
pub open spec fn ascending(prices: Seq<U256>) -> bool {
    forall|i: int, j: int|
        0 <= i < j < prices.len() ==> (#[trigger] prices[i]).value() <= (
        #[trigger] prices[j]).value()
}

/// `sorted` holds the prices in ascending order.
pub open spec fn is_sorting_of(prices: Seq<U256>, sorted: Seq<U256>) -> bool {
    &&& ascending(sorted)
    &&& sorted.to_multiset() == prices.to_multiset()
}

/// The price in the middle of the sample, if there is one: with an even number of
/// prices the upper of the two in the middle.
pub open spec fn is_price_of(prices: Seq<U256>, price: Option<U256>) -> bool {
    &&& price is None <==> prices.len() == 0
    &&& price matches Some(p) ==> exists|sorted: Seq<U256>| #[trigger]
        is_sorting_of(prices, sorted) && p == sorted[prices.len() as int / 2]
}

/// A sample that starts at the tip of the pivot chain.
pub open spec fn is_fresh(inner: ConsensusGraphInner, sampler: GasPriceSampler) -> bool {
    &&& sampler.epoch == inner.pivot_chain@.len() - 1
    &&& sampler.blocks_left == GAS_PRICE_BLOCK_SAMPLE_SIZE
    &&& sampler.seen_hashes() == Set::<H256>::empty()
    &&& sampler.prices@.len() == 0
}

/// The blocks of the next epoch were handed out, last one first, as far as blocks
/// are left, or nothing when the sample is complete.
pub open spec fn took_blocks(
    inner: ConsensusGraphInner,
    before: GasPriceSampler,
    after: GasPriceSampler,
    blocks: Option<Seq<H256>>,
) -> bool {
    &&& blocks is None <==> before.blocks_left == 0 || before.epoch == 0 || before.prices@.len()
        == GAS_PRICE_TRANSACTION_SAMPLE_SIZE
    &&& blocks is None ==> after == before
    &&& blocks matches Some(list) ==> {
        let all = epoch_hashes(
            inner.nodes(),
            inner.pivot_chain@[before.epoch as int] as int,
        ).reverse();
        &&& list == all.take(
            if all.len() < before.blocks_left {
                all.len() as int
            } else {
                before.blocks_left as int
            },
        )
        &&& after == (GasPriceSampler {
            epoch: (before.epoch - 1) as usize,
            blocks_left: (before.blocks_left - list.len()) as usize,
            ..before
        })
    }
}

/// The prices in ascending order.
fn sort_prices(prices: &Vec<U256>) -> (sorted: Vec<U256>)
    ensures
        is_sorting_of(prices@, sorted@),
        sorted@.len() == prices@.len(),
{
    let mut sorted: Vec<U256> = Vec::new();
    let mut i: usize = 0;
    assert(prices@.take(0) =~= Seq::<U256>::empty());
    while i < prices.len()
        invariant
            i <= prices@.len(),
            sorted@.len() == i,
            is_sorting_of(prices@.take(i as int), sorted@),
        decreases prices@.len() - i,
    {
        let price: U256 = prices[i];
        let mut at: usize = 0;
        while at < sorted.len() && !price.is_less(&sorted[at])
            invariant
                at <= sorted@.len(),
                forall|k: int| 0 <= k < at ==> (#[trigger] sorted@[k]).value() <= price.value(),
            decreases sorted@.len() - at,
        {
            at += 1;
        }
        let ghost before = sorted@;
        sorted.insert(at, price);
        proof {
            assert(sorted@ == before.insert(at as int, price));
            to_multiset_insert(before, at as int, price);
            to_multiset_build(prices@.take(i as int), price);
            assert(prices@.take(i + 1) =~= prices@.take(i as int).push(price));
            assert forall|k: int, l: int| 0 <= k < l < sorted@.len() implies (
            #[trigger] sorted@[k]).value() <= (#[trigger] sorted@[l]).value() by {
                if k < at {
                    assert(sorted@[k] == before[k]);
                } else if k > at {
                    assert(sorted@[k] == before[k - 1]);
                }
                if l < at {
                    assert(sorted@[l] == before[l]);
                } else if l > at {
                    assert(sorted@[l] == before[l - 1]);
                }
            }
        }
        i += 1;
    }
    assert(prices@.take(i as int) =~= prices@);
    sorted
}

impl GasPriceSampler {
    /// The hashes of the transactions that were looked at.
    pub open spec fn seen_hashes(&self) -> Set<H256> {
        self.seen@.dom()
    }

    /// A sample that starts at the tip of the pivot chain.
    pub fn new(inner: &ConsensusGraphInner) -> (sampler: GasPriceSampler)
        requires
            inner.readable(),
        ensures
            sampler.epoch == inner.pivot_chain@.len() - 1,
            sampler.blocks_left == GAS_PRICE_BLOCK_SAMPLE_SIZE,
            sampler.seen_hashes() == Set::<H256>::empty(),
            sampler.prices@.len() == 0,
            is_fresh(*inner, sampler),
    {
        let sampler = GasPriceSampler {
            epoch: inner.best_epoch_number(),
            blocks_left: GAS_PRICE_BLOCK_SAMPLE_SIZE,
            seen: HashIndex::new(),
            prices: Vec::new(),
        };
        assert(sampler.seen_hashes() =~= Set::<H256>::empty());
        sampler
    }

    /// The blocks to look at next, or `None` when the sample is complete: the
    /// blocks of the next epoch, last one first, as far as blocks are left. The
    /// first epoch is never looked at.
    pub fn next_blocks(&mut self, inner: &ConsensusGraphInner) -> (blocks: Option<Vec<H256>>)
        requires
            inner.readable(),
            old(self).epoch < inner.pivot_chain@.len(),
        ensures
            blocks is None <==> old(self).blocks_left == 0 || old(self).epoch == 0
                || old(self).prices@.len() == GAS_PRICE_TRANSACTION_SAMPLE_SIZE,
            blocks is None ==> *final(self) == *old(self),
            blocks matches Some(list) ==> {
                let all = epoch_hashes(
                    inner.nodes(),
                    inner.pivot_chain@[old(self).epoch as int] as int,
                ).reverse();
                &&& list@ == all.take(
                    if all.len() < old(self).blocks_left {
                        all.len() as int
                    } else {
                        old(self).blocks_left as int
                    },
                )
                &&& *final(self) == (GasPriceSampler {
                    epoch: (old(self).epoch - 1) as usize,
                    blocks_left: (old(self).blocks_left - list@.len()) as usize,
                    ..*old(self)
                })
            },
            took_blocks(
                *inner,
                *old(self),
                *final(self),
                match blocks {
                    Some(list) => Some(list@),
                    None => None,
                },
            ),
    {
        if self.blocks_left == 0 || self.epoch == 0 {
            return None;
        }
        if self.prices.len() == GAS_PRICE_TRANSACTION_SAMPLE_SIZE {
            return None;
        }
        let hashes: Vec<H256> = inner.get_epoch_block_hashes(inner.pivot_chain[self.epoch]);
        let ghost all = hashes@.reverse();
        let limit: usize = if hashes.len() < self.blocks_left {
            hashes.len()
        } else {
            self.blocks_left
        };
        let mut list: Vec<H256> = Vec::new();
        let mut i: usize = 0;
        while i < limit
            invariant
                i <= limit <= hashes@.len(),
                all == hashes@.reverse(),
                list@ =~= all.take(i as int),
            decreases limit - i,
        {
            list.push(hashes[hashes.len() - 1 - i]);
            i += 1;
        }
        self.epoch = self.epoch - 1;
        self.blocks_left = self.blocks_left - limit;
        Some(list)
    }

    /// Takes the prices of the transactions of a block.
    pub fn sample_block(&mut self, transactions: &Vec<PricedTransaction>)
        ensures
            final(self).epoch == old(self).epoch,
            final(self).blocks_left == old(self).blocks_left,
            (final(self).seen_hashes(), final(self).prices@) == sampled(
                old(self).seen_hashes(),
                old(self).prices@,
                transactions@,
            ),
    {
        let ghost start = *self;
        let mut i: usize = 0;
        assert(transactions@.skip(0) =~= transactions@);
        while i < transactions.len()
            invariant
                i <= transactions@.len(),
                start == *old(self),
                self.epoch == start.epoch,
                self.blocks_left == start.blocks_left,
                sampled(start.seen_hashes(), start.prices@, transactions@) == sampled(
                    self.seen_hashes(),
                    self.prices@,
                    transactions@.skip(i as int),
                ),
            decreases transactions@.len() - i,
        {
            let tx: PricedTransaction = transactions[i];
            proof {
                assert(transactions@.skip(i as int).skip(1) =~= transactions@.skip(i + 1));
                assert(transactions@.skip(i as int)[0] == tx);
            }
            if !self.seen.contains(&tx.hash) {
                let ghost before = *self;
                self.seen.insert(tx.hash, 0);
                self.prices.push(tx.gas_price);
                assert(self.seen_hashes() =~= before.seen_hashes().insert(tx.hash));
                if self.prices.len() == GAS_PRICE_TRANSACTION_SAMPLE_SIZE {
                    return;
                }
            }
            i += 1;
        }
        assert(transactions@.skip(i as int).len() == 0);
    }

    /// The price in the middle of the sample.
    pub fn gas_price(&self) -> (price: Option<U256>)
        ensures
            price is None <==> self.prices@.len() == 0,
            price matches Some(p) ==> exists|sorted: Seq<U256>| #[trigger]
                is_sorting_of(self.prices@, sorted) && p == sorted[self.prices@.len() as int / 2],
            is_price_of(self.prices@, price),
    {
        let sorted: Vec<U256> = sort_prices(&self.prices);
        if sorted.len() == 0 {
            None
        } else {
            assert(is_sorting_of(self.prices@, sorted@));
            Some(sorted[sorted.len() / 2])
        }
    }
}

/// A transaction counts once: transactions that were all seen before add
/// nothing.
pub proof fn lemma_sampled_once(
    seen: Set<H256>,
    prices: Seq<U256>,
    transactions: Seq<PricedTransaction>,
)
    requires
        forall|i: int|
            0 <= i < transactions.len() ==> seen.contains((#[trigger] transactions[i]).hash),
    ensures
        sampled(seen, prices, transactions) == (seen, prices),
    decreases transactions.len(),
{
    if transactions.len() > 0 {
        let rest = transactions.skip(1);
        assert(seen.contains(transactions[0].hash));
        assert forall|i: int| 0 <= i < rest.len() implies seen.contains(
            (#[trigger] rest[i]).hash,
        ) by {
            assert(rest[i] == transactions[i + 1]);
        }
        lemma_sampled_once(seen, prices, rest);
    }
}

} // verus!
