//! What the gas price and its sample come down to.

use vstd::prelude::*;
use vstd::seq_lib::to_multiset_build;
use crate::gas_price::{is_fresh, is_price_of, sampled, took_blocks, GasPriceSampler,
    PricedTransaction};
#[allow(unused_imports)]
use crate::gas_price::{ascending, is_sorting_of};
use crate::state::ConsensusGraphInner;
use crate::types::{H256, U256};

verus! {

/// How many of the prices are less than `v`.
pub open spec fn count_below(prices: Seq<U256>, v: int) -> nat
    decreases prices.len(),
{
    if prices.len() == 0 {
        0
    } else {
        count_below(prices.drop_last(), v) + (if prices.last().value() < v {
            1nat
        } else {
            0
        })
    }
}

/// The count does not depend on the order.
proof fn lemma_count_is_of_multiset(prices: Seq<U256>, v: int)
    ensures
        count_below(prices, v) == prices.to_multiset().filter(|p: U256| p.value() < v).len(),
    decreases prices.len(),
{
    broadcast use vstd::multiset::group_multiset_axioms;

    let f = |p: U256| p.value() < v;
    if prices.len() == 0 {
        assert(prices =~= Seq::<U256>::empty());
        broadcast use vstd::seq_lib::group_to_multiset_ensures;

        assert(prices.to_multiset().len() == 0);
        assert(prices.to_multiset().filter(f) =~= vstd::multiset::Multiset::<U256>::empty());
    } else {
        let front = prices.drop_last();
        let last = prices.last();
        lemma_count_is_of_multiset(front, v);
        assert(front.push(last) =~= prices);
        to_multiset_build(front, last);
        let m = front.to_multiset();
        if f(last) {
            assert(m.insert(last).filter(f) =~= m.filter(f).insert(last));
        } else {
            assert(m.insert(last).filter(f) =~= m.filter(f));
        }
    }
}

/// Where the entries from `k` on are not less, at most `k` are; where those before
/// `k` are less, at least `k` are.
proof fn lemma_count_sorted(sorted: Seq<U256>, v: int, k: int)
    requires
        0 <= k <= sorted.len(),
    ensures
        (forall|i: int| k <= i < sorted.len() ==> (#[trigger] sorted[i]).value() >= v)
            ==> count_below(sorted, v) <= k,
        (forall|i: int| 0 <= i < k ==> (#[trigger] sorted[i]).value() < v) ==> count_below(
            sorted,
            v,
        ) >= k,
    decreases sorted.len(),
{
    if sorted.len() > 0 {
        let front = sorted.drop_last();
        let n = sorted.len() - 1;
        let m = if k <= n {
            k
        } else {
            n
        };
        lemma_count_sorted(front, v, m);
        if forall|i: int| k <= i < sorted.len() ==> (#[trigger] sorted[i]).value() >= v {
            assert forall|i: int| m <= i < front.len() implies (#[trigger] front[i]).value()
                >= v by {
                assert(front[i] == sorted[i]);
            }
            if k <= n {
                assert(sorted[n].value() >= v);
            }
        }
        if forall|i: int| 0 <= i < k ==> (#[trigger] sorted[i]).value() < v {
            assert forall|i: int| 0 <= i < m implies (#[trigger] front[i]).value() < v by {
                assert(front[i] == sorted[i]);
            }
            if k > n {
                assert(sorted[n].value() < v);
            }
        }
    }
}

/// The gas price is one of the prices of the sample. At most half of them are less
/// than it, and more than half of them are not more. There is none only for an empty
/// sample.
pub proof fn lemma_price_in_the_middle(prices: Seq<U256>, price: Option<U256>)
    requires
        is_price_of(prices, price),
    ensures
        price is Some <==> prices.len() > 0,
        price matches Some(p) ==> prices.contains(p) && 2 * count_below(prices, p.value())
            <= prices.len() && 2 * count_below(prices, p.value() + 1) > prices.len(),
{
    broadcast use {vstd::multiset::group_multiset_axioms, vstd::seq_lib::group_to_multiset_ensures};

    if price is Some {
        let p = price->Some_0;
        let sorted = choose|sorted: Seq<U256>| #[trigger]
            is_sorting_of(prices, sorted) && p == sorted[prices.len() as int / 2];
        let k = prices.len() as int / 2;
        assert(sorted.len() == prices.len()) by {
            assert(sorted.to_multiset().len() == sorted.len());
            assert(prices.to_multiset().len() == prices.len());
        }
        lemma_count_is_of_multiset(prices, p.value());
        lemma_count_is_of_multiset(sorted, p.value());
        lemma_count_is_of_multiset(prices, p.value() + 1);
        lemma_count_is_of_multiset(sorted, p.value() + 1);
        assert forall|i: int| k <= i < sorted.len() implies (#[trigger] sorted[i]).value()
            >= p.value() by {
            if i > k {
                assert(sorted[k].value() <= sorted[i].value());
            }
        }
        assert forall|i: int| 0 <= i < k + 1 implies (#[trigger] sorted[i]).value() < p.value()
            + 1 by {
            if i < k {
                assert(sorted[i].value() <= sorted[k].value());
            }
        }
        lemma_count_sorted(sorted, p.value(), k);
        lemma_count_sorted(sorted, p.value() + 1, k + 1);
        assert(sorted.contains(sorted[k]));
        assert(sorted.to_multiset().count(p) > 0);
        assert(prices.to_multiset().count(p) > 0);
    }
}

/// The blocks that a call hands out: the last ones of the epoch, from the last on
/// downwards; all of them unless the number of blocks left ends the list.
pub proof fn lemma_blocks_from_the_end(
    inner: ConsensusGraphInner,
    before: GasPriceSampler,
    after: GasPriceSampler,
    list: Seq<H256>,
)
    requires
        took_blocks(inner, before, after, Some(list)),
    ensures
        ({
            let pivot = inner.pivot_chain@[before.epoch as int] as int;
            let blocks = inner.nodes()[pivot].data.ordered_epoch_blocks@;
            &&& before.epoch > 0
            &&& before.blocks_left > 0
            &&& after.epoch + 1 == before.epoch
            &&& after.blocks_left + list.len() == before.blocks_left
            &&& after.prices == before.prices
            &&& after.seen == before.seen
            &&& list.len() <= blocks.len()
            &&& list.len() == blocks.len() || after.blocks_left == 0
            &&& forall|i: int|
                0 <= i < list.len() ==> #[trigger] list[i] == inner.nodes()[blocks[blocks.len() - 1
                    - i] as int].hash
        }),
{
}

/// From the tip downwards, epoch after epoch, a hundred blocks at most are looked
/// at, and never those of the first epoch; before that the sample ends only with
/// ten thousand prices.
pub proof fn lemma_sample_bounded(
    inner: ConsensusGraphInner,
    states: Seq<GasPriceSampler>,
    lists: Seq<Seq<H256>>,
    n: int,
)
    requires
        states.len() > 0,
        is_fresh(inner, states[0]),
        0 <= n < states.len(),
        lists.len() + 1 == states.len(),
        forall|i: int|
            0 <= i < lists.len() ==> looked_at(inner, #[trigger] states[i], states[i + 1], lists[i]),
    ensures
        states[n].epoch + n + 1 == inner.pivot_chain@.len(),
        states[n].blocks_left + blocks_in(lists.take(n)) == 100,
        n > 0 ==> states[n - 1].epoch > 0 && states[n - 1].blocks_left > 0,
        took_blocks(inner, states[n], states[n], None) ==> states[n].epoch == 0 || blocks_in(
            lists.take(n),
        ) == 100 || states[n].prices@.len() == 10_000,
    decreases n,
{
    if n > 0 {
        lemma_sample_bounded(inner, states, lists, n - 1);
        assert(looked_at(inner, states[n - 1], states[n - 1 + 1], lists[n - 1]));
        let mid = choose|mid: GasPriceSampler| #[trigger]
            took_blocks(inner, states[n - 1], mid, Some(lists[n - 1])) && mid.epoch
                == states[n].epoch && mid.blocks_left == states[n].blocks_left;
        lemma_blocks_from_the_end(inner, states[n - 1], mid, lists[n - 1]);
        assert(lists.take(n).drop_last() =~= lists.take(n - 1));
        assert(lists.take(n).last() == lists[n - 1]);
    } else {
        assert(lists.take(0).len() == 0);
    }
}

/// The blocks of one epoch were handed out and then looked at, which leaves the
/// place where the sample goes on.
pub open spec fn looked_at(
    inner: ConsensusGraphInner,
    before: GasPriceSampler,
    after: GasPriceSampler,
    list: Seq<H256>,
) -> bool {
    exists|mid: GasPriceSampler| #[trigger]
        took_blocks(inner, before, mid, Some(list)) && mid.epoch == after.epoch && mid.blocks_left
            == after.blocks_left
}

/// How many blocks the lists hold together.
pub open spec fn blocks_in(lists: Seq<Seq<H256>>) -> nat
    decreases lists.len(),
{
    if lists.len() == 0 {
        0
    } else {
        blocks_in(lists.drop_last()) + lists.last().len()
    }
}

/// The transactions of a block are taken one by one: transactions in two parts,
/// none of which fills the sample, count as the first part and then the second.
pub proof fn lemma_sampled_in_parts(
    seen: Set<H256>,
    prices: Seq<U256>,
    a: Seq<PricedTransaction>,
    b: Seq<PricedTransaction>,
)
    requires
        prices.len() + a.len() < 10_000,
    ensures
        sampled(seen, prices, a + b) == sampled(
            sampled(seen, prices, a).0,
            sampled(seen, prices, a).1,
            b,
        ),
        sampled(seen, prices, a).1.len() <= prices.len() + a.len(),
    decreases a.len(),
{
    if a.len() == 0 {
        assert(a + b =~= b);
    } else {
        let rest = a.skip(1);
        assert((a + b).skip(1) =~= rest + b);
        assert((a + b)[0] == a[0]);
        if seen.contains(a[0].hash) {
            lemma_sampled_in_parts(seen, prices, rest, b);
        } else {
            lemma_sampled_in_parts(
                seen.insert(a[0].hash),
                prices.push(a[0].gas_price),
                rest,
                b,
            );
        }
    }
}

/// One transaction adds its price if it was not seen before and nothing otherwise,
/// and it has been seen afterwards.
pub proof fn lemma_sampled_single(seen: Set<H256>, prices: Seq<U256>, tx: PricedTransaction)
    ensures
        sampled(seen, prices, seq![tx]).0 == seen.insert(tx.hash),
        sampled(seen, prices, seq![tx]).1 == (if seen.contains(tx.hash) {
            prices
        } else {
            prices.push(tx.gas_price)
        }),
{
    let one = seq![tx];
    assert(one.skip(1).len() == 0);
    assert(one[0] == tx);
    reveal_with_fuel(sampled, 2);
    if seen.contains(tx.hash) {
        assert(seen.insert(tx.hash) =~= seen);
    }
}

/// A sample that is not full before a block holds ten thousand prices at most after
/// it, and keeps those it held. While it is not full then, every transaction of the
/// block has been seen.
pub proof fn lemma_sampled_up_to_full(
    seen: Set<H256>,
    prices: Seq<U256>,
    transactions: Seq<PricedTransaction>,
)
    requires
        prices.len() < 10_000,
    ensures
        ({
            let r = sampled(seen, prices, transactions);
            &&& r.1.len() <= 10_000
            &&& prices.is_prefix_of(r.1)
            &&& seen.subset_of(r.0)
            &&& r.1.len() < 10_000 ==> forall|i: int|
                0 <= i < transactions.len() ==> r.0.contains((#[trigger] transactions[i]).hash)
        }),
    decreases transactions.len(),
{
    if transactions.len() > 0 {
        let tx = transactions[0];
        let rest = transactions.skip(1);
        let more = prices.push(tx.gas_price);
        let r = sampled(seen, prices, transactions);
        if seen.contains(tx.hash) {
            lemma_sampled_up_to_full(seen, prices, rest);
        } else if more.len() < 10_000 {
            lemma_sampled_up_to_full(seen.insert(tx.hash), more, rest);
            assert(more.is_prefix_of(r.1));
            assert(prices.is_prefix_of(r.1)) by {
                assert(r.1.subrange(0, prices.len() as int) =~= prices) by {
                    assert forall|i: int| 0 <= i < prices.len() implies r.1[i] == prices[i] by {
                        assert(more[i] == prices[i]);
                        assert(r.1.subrange(0, more.len() as int)[i] == r.1[i]);
                    }
                }
            }
            assert(r.0.contains(tx.hash));
        } else {
            assert(prices.is_prefix_of(more));
        }
        if r.1.len() < 10_000 {
            assert forall|i: int| 0 <= i < transactions.len() implies r.0.contains(
                (#[trigger] transactions[i]).hash,
            ) by {
                if i > 0 {
                    assert(rest[i - 1] == transactions[i]);
                }
            }
        }
    }
}

} // verus!
