//! What the answers to queries come down to: heights, epochs and their order, and
//! the log entries that a search finds.

use vstd::prelude::*;
use crate::arena::{dag_of, ConsensusGraphNode};
use crate::confirmation::{block_risk, FinalityManager};
use crate::decisions::hash_number;
use crate::logs::{all_logs, block_logs, candidates, is_search, last_within, logs_before,
    matching_blocks, may_match, search_end, transaction_logs, BlockLogs, Bloom, FilterError,
    LocalizedLogEntry, LogCandidate, LogQuery, LogSearch};
use crate::order::is_topological_order;
#[allow(unused_imports)]
use crate::order::is_source;
use crate::queries::{height_meant, is_epoch_hash_of, not_executed, refuted_assumption,
    stated_height};
#[allow(unused_imports)]
use crate::dag::lemma_reaches_transitive;
use crate::state::ConsensusGraphInner;
#[allow(unused_imports)]
use crate::state::lemma_node;
use crate::text::decimal;
use crate::types::{EpochNumber, H256};

verus! {

/// A query by number means that height, if the chain has it; the others mean the
/// lowest height, the highest, and the highest at least five below the length of
/// the chain. What a query means is always on the chain.
pub proof fn lemma_height_meant(len: int, epoch_number: EpochNumber)
    requires
        len > 0,
    ensures
        height_meant(len, epoch_number) matches Some(h) ==> 0 <= h < len,
        height_meant(len, EpochNumber::Earliest) == Some(0int),
        height_meant(len, EpochNumber::LatestMined) matches Some(h) && h + 1 == len,
        height_meant(len, EpochNumber::LatestState) matches Some(h) && (h + 5 == len || h == 0
            && len < 5),
        epoch_number matches EpochNumber::Number(n) ==> (height_meant(len, epoch_number) is Some
            <==> n < len) && (n < len ==> height_meant(len, epoch_number) == Some(n as int)),
{
}

/// Where the state that a query means can be read, the query means the same height
/// as one that does not ask for state, and that height lies at least five below the
/// length of the chain or is that of the first block. State can be read of every
/// such height, but the latest mined epoch has none.
pub proof fn lemma_stated_heights(len: int, epoch_number: EpochNumber)
    requires
        len > 0,
    ensures
        stated_height(len, epoch_number) matches Ok(h) ==> height_meant(len, epoch_number) == Some(
            h,
        ) && 0 <= h && (h + 5 <= len || h == 0),
        stated_height(len, EpochNumber::LatestMined) is Err,
        stated_height(len, EpochNumber::Earliest) is Ok,
        stated_height(len, EpochNumber::LatestState) is Ok,
        epoch_number matches EpochNumber::Number(n) ==> (stated_height(len, epoch_number) is Ok
            <==> n + 5 <= len || n == 0),
{
}

/// What is told of a state that is not there yet names the epoch that was asked
/// for, behind sixteen characters, and ends with the latest that has a state.
pub proof fn lemma_not_executed_names_epochs(n: nat, latest: nat)
    ensures
        ({
            let text = not_executed(n, latest);
            let asked = decimal(n);
            let last = decimal(latest);
            &&& text.len() == 16 + asked.len() + 44 + last.len()
            &&& text.subrange(16, 16 + asked.len() as int) == asked
            &&& text.subrange(text.len() - last.len(), text.len() as int) == last
        }),
{
    reveal_strlit("Specified epoch ");
    reveal_strlit(" is not executed, the latest state epoch is ");
    let text = not_executed(n, latest);
    assert(text.subrange(16, 16 + decimal(n).len() as int) =~= decimal(n));
    assert(text.subrange(text.len() - decimal(latest).len(), text.len() as int) =~= decimal(
        latest,
    ));
}

/// A block is in an epoch up to a height if and only if the pivot block at that
/// height sees it; so its epoch is that of the first pivot block that sees it.
pub proof fn lemma_epoch_number_is_first(inner: ConsensusGraphInner, x: int, e: int)
    requires
        inner.base_ok(),
        0 <= x < inner.size(),
        0 <= e < inner.pivot_chain@.len(),
    ensures
        inner.nodes()[x].data.epoch_number <= e <==> inner.dag().reaches(
            inner.pivot_chain@[e] as int,
            x,
        ),
{
    let g = inner.dag();
    let chain = inner.pivot_chain@;
    let n = inner.nodes()[x].data.epoch_number;
    lemma_node(inner.nodes(), x);
    assert(crate::model::epoch_ok(g, chain, x, n) && chain.len() < crate::dag::NULL) by {
        reveal(crate::model::epochs_ok);
    }
    if n <= e {
        crate::anticone::lemma_chain_sees(g, chain, n as int, e);
        lemma_reaches_transitive(g, chain[e] as int, chain[n as int] as int, x);
    } else if g.reaches(chain[e] as int, x) {
        if n == crate::dag::NULL {
            crate::anticone::lemma_chain_sees(g, chain, e, chain.len() - 1);
            lemma_reaches_transitive(g, chain.last() as int, chain[e] as int, x);
        } else {
            crate::anticone::lemma_chain_sees(g, chain, e, n - 1);
            lemma_reaches_transitive(g, chain[n - 1] as int, chain[e] as int, x);
        }
    }
}

/// A block is told the risk of the first epoch of the pivot chain that sees it. Of a
/// block that is not in the graph, or that the tip does not see, nothing is told.
pub proof fn lemma_block_risk_of_epoch(
    inner: ConsensusGraphInner,
    finality: FinalityManager,
    x: int,
    e: int,
)
    requires
        inner.base_ok(),
        0 <= x < inner.size(),
        0 <= e < inner.pivot_chain@.len(),
    ensures
        inner.dag().reaches(inner.pivot_chain@[e] as int, x) && (e > 0 ==> !inner.dag().reaches(
            inner.pivot_chain@[e - 1] as int,
            x,
        )) ==> block_risk(inner, finality, inner.nodes()[x].hash) == finality.risk_at(e),
        !inner.dag().reaches(inner.pivot_chain@.last() as int, x) ==> block_risk(
            inner,
            finality,
            inner.nodes()[x].hash,
        ) is None,
        forall|hash: H256|
            (forall|i: int| 0 <= i < inner.size() ==> (#[trigger] inner.nodes()[i]).hash != hash)
                ==> #[trigger] block_risk(inner, finality, hash) is None,
{
    let chain = inner.pivot_chain@;
    let n = inner.nodes()[x].data.epoch_number;
    assert(chain.len() < crate::dag::NULL) by {
        reveal(crate::model::epochs_ok);
    }
    lemma_epoch_number_is_first(inner, x, e);
    if e > 0 {
        lemma_epoch_number_is_first(inner, x, e - 1);
    }
    lemma_epoch_number_is_first(inner, x, chain.len() - 1);
    assert(inner.indices@[inner.nodes()[x].hash] == x);
    assert(crate::model::epoch_ok(inner.dag(), chain, x, n)) by {
        reveal(crate::model::epochs_ok);
    }
    assert forall|hash: H256|
        (forall|i: int| 0 <= i < inner.size() ==> (#[trigger] inner.nodes()[i]).hash != hash)
            implies #[trigger] block_risk(inner, finality, hash) is None by {
        if inner.indices@.contains_key(hash) {
            assert(inner.nodes()[inner.indices@[hash] as int].hash == hash);
        }
    }
}

/// The epoch of a block is that of the first pivot block that sees it, and a block
/// that the tip does not see is in none.
pub proof fn lemma_epoch_hash_is_first(
    inner: ConsensusGraphInner,
    x: int,
    epoch: Option<H256>,
    e: int,
)
    requires
        inner.base_ok(),
        0 <= x < inner.size(),
        is_epoch_hash_of(inner, inner.nodes()[x].hash, epoch),
        0 <= e < inner.pivot_chain@.len(),
    ensures
        epoch is Some <==> inner.dag().reaches(inner.pivot_chain@.last() as int, x),
        inner.dag().reaches(inner.pivot_chain@[e] as int, x) && (e > 0 ==> !inner.dag().reaches(
            inner.pivot_chain@[e - 1] as int,
            x,
        )) ==> epoch == Some(inner.nodes()[inner.pivot_chain@[e] as int].hash),
{
    let g = inner.dag();
    let chain = inner.pivot_chain@;
    assert(inner.indices@[inner.nodes()[x].hash] == x);
    lemma_node(inner.nodes(), x);
    if g.reaches(chain[e] as int, x) {
        crate::anticone::lemma_chain_sees(g, chain, e, chain.len() - 1);
        lemma_reaches_transitive(g, chain.last() as int, chain[e] as int, x);
        if e == 0 || !g.reaches(chain[e - 1] as int, x) {
            let f = choose|f: int| #[trigger]
                crate::model::is_epoch_of(g, chain, x, f) && epoch == Some(
                    inner.nodes()[chain[f] as int].hash,
                );
            if f < e {
                crate::anticone::lemma_chain_sees(g, chain, f, e - 1);
                lemma_reaches_transitive(g, chain[e - 1] as int, chain[f] as int, x);
            }
            if e < f {
                crate::anticone::lemma_chain_sees(g, chain, e, f - 1);
                lemma_reaches_transitive(g, chain[f - 1] as int, chain[e] as int, x);
            }
        }
    }
}

/// An assumption of a pivot block holds if and only if the chain has the epoch and
/// its pivot block has the hash.
pub proof fn lemma_assumption_holds_iff(
    inner: ConsensusGraphInner,
    pivot_hash: H256,
    epoch: int,
)
    requires
        0 <= epoch,
    ensures
        refuted_assumption(inner, pivot_hash, epoch) is None <==> epoch < inner.pivot_chain@.len()
            && inner.nodes()[inner.pivot_chain@[epoch] as int].hash == pivot_hash,
        epoch < inner.pivot_chain@.len() ==> (refuted_assumption(
            inner,
            pivot_hash,
            epoch,
        ) matches Some(e) ==> e == "Error: pivot chain assumption failed"@),
        epoch >= inner.pivot_chain@.len() ==> refuted_assumption(inner, pivot_hash, epoch) == Some(
            "Invalid params: expected a numbers with less than largest epoch number."@,
        ),
{
}

/// The own view of a block adds all blocks of its epoch but itself.
pub proof fn lemma_own_view_counted(inner: ConsensusGraphInner, x: int)
    requires
        inner.base_ok(),
        0 <= x < inner.size(),
    ensures
        ({
            let data = inner.nodes()[x].data;
            &&& data.blockset_in_own_view_of_epoch@.len() + 1 == data.ordered_epoch_blocks@.len()
            &&& data.ordered_epoch_blocks@.last() == x
        }),
{
    let data = inner.nodes()[x].data;
    let list = data.ordered_epoch_blocks@;
    reveal(crate::model::views_ok);
    assert(crate::model::epoch_list_ok(inner.dag(), x, list));
    assert(crate::order::ordered_by_hash(inner.nodes(), x));
    list.drop_last().unique_seq_to_set();
}

/// In an order of execution no block refers to a later one, and of two neighbours
/// of which the later does not refer to the earlier, the later has the larger hash.
pub proof fn lemma_neighbours_ordered(
    nodes: Seq<ConsensusGraphNode>,
    s: Set<usize>,
    list: Seq<usize>,
    i: int,
    j: int,
)
    requires
        is_topological_order(nodes, s, list),
        0 <= i < j < list.len(),
    ensures
        !dag_of(nodes).edge(list[i] as int, list[j] as int),
        j == i + 1 && !dag_of(nodes).edge(list[j] as int, list[i] as int) ==> hash_number(
            nodes[list[j] as int].hash,
        ) > hash_number(nodes[list[i] as int].hash),
{
    let g = dag_of(nodes);
    let all = list.take(j + 1);
    assert(all[i] == list[i] && all[j] == list[j]);
    assert(all.to_set().contains(list[i]));
    assert(crate::order::is_best_source(nodes, all.to_set(), list[j]));
    if j == i + 1 && !g.edge(list[j] as int, list[i] as int) {
        let front = list.take(i + 1);
        assert(crate::order::is_best_source(nodes, front.to_set(), list[i]));
        assert forall|c: usize| #[trigger] all.to_set().contains(c) implies !g.edge(
            c as int,
            list[i] as int,
        ) by {
            let k = choose|k: int| 0 <= k < all.len() && all[k] == c;
            if k <= i {
                assert(front[k] == c);
                assert(front.to_set().contains(c));
            }
        }
        assert(is_source(g, all.to_set(), list[i]));
    }
}

/// The blocks that a search by epochs looks through are those of the first epochs
/// followed by those of the others, wherever the epochs are parted.
pub proof fn lemma_candidates_parted(inner: ConsensusGraphInner, from: int, mid: int, to: int)
    requires
        from <= mid <= to,
    ensures
        candidates(inner, from, to) == candidates(inner, from, mid) + candidates(inner, mid, to),
    decreases to - mid,
{
    if mid < to {
        lemma_candidates_parted(inner, from, mid, to - 1);
        let last = inner.nodes()[inner.pivot_chain@[to
            - 1] as int].data.ordered_epoch_blocks@.map_values(
            |i: usize|
                LogCandidate {
                    block_hash: inner.nodes()[i as int].hash,
                    epoch_hash: inner.nodes()[to - 1].hash,
                },
        );
        assert(candidates(inner, from, mid) + (candidates(inner, mid, to - 1) + last) =~= (
        candidates(inner, from, mid) + candidates(inner, mid, to - 1)) + last);
    } else {
        assert(candidates(inner, from, mid) + Seq::<LogCandidate>::empty() =~= candidates(
            inner,
            from,
            mid,
        ));
    }
}

/// A search looks into exactly the epochs of the chain that it names: from the one
/// on and before the other.
pub proof fn lemma_epochs_searched(len: int, from: int, to: int, e: int)
    requires
        0 <= from < to,
        0 < len,
    ensures
        from <= e < search_end(len, to) <==> from <= e && e < to && e < len,
{
}

/// A query that names blocks is answered with them, whatever epochs it names. One
/// that names none is refused if and only if its first epoch does not come before
/// its last, and is told both; else blocks of the epochs are looked through.
pub proof fn lemma_search_by_query(
    inner: ConsensusGraphInner,
    query: LogQuery,
    search: Result<LogSearch, FilterError>,
)
    requires
        is_search(inner, query, search),
    ensures
        search is Err <==> query.block_hashes is None && query.to_epoch <= query.from_epoch,
        search matches Err(FilterError::InvalidEpochNumber { from_epoch, to_epoch }) ==> from_epoch
            == query.from_epoch && to_epoch == query.to_epoch,
        query.block_hashes matches Some(hashes) ==> (search matches Ok(LogSearch::Blocks(list))
            && list@ == hashes@),
        search matches Ok(LogSearch::Candidates(list)) ==> (query.from_epoch
            >= inner.pivot_chain@.len() ==> list@.len() == 0) && (query.from_epoch
            < inner.pivot_chain@.len() && inner.pivot_chain@.len() <= query.to_epoch ==> list@
            == candidates(inner, query.from_epoch as int, inner.pivot_chain@.len() as int)) && (
        query.to_epoch <= inner.pivot_chain@.len() ==> list@ == candidates(
            inner,
            query.from_epoch as int,
            query.to_epoch as int,
        )),
{
}

/// Of one epoch a search looks through all blocks in their order, each under the
/// hash of the block at the index of the height; of no epoch, through none.
pub proof fn lemma_candidates_of_epoch(inner: ConsensusGraphInner, e: int, j: int)
    requires
        0 <= j < inner.nodes()[inner.pivot_chain@[e] as int].data.ordered_epoch_blocks@.len(),
    ensures
        candidates(inner, e, e).len() == 0,
        candidates(inner, e, e + 1).len()
            == inner.nodes()[inner.pivot_chain@[e] as int].data.ordered_epoch_blocks@.len(),
        ({
            let blocks = inner.nodes()[inner.pivot_chain@[e] as int].data.ordered_epoch_blocks@;
            candidates(inner, e, e + 1)[j].block_hash == inner.nodes()[blocks[j] as int].hash
        }),
        candidates(inner, e, e + 1)[j].epoch_hash == inner.nodes()[e].hash,
{
    assert(candidates(inner, e, e) =~= Seq::<LogCandidate>::empty());
}

/// A summary covers another if and only if it has every bit that the other has.
pub proof fn lemma_covers_by_bits(summary: Bloom, other: Bloom)
    requires
        summary.bytes@.len() == other.bytes@.len(),
    ensures
        summary.covers(other) <==> forall|i: int, k: u8|
            #![trigger has_bit(other, i, k)]
            0 <= i < other.bytes@.len() && k < 8 && has_bit(other, i, k) ==> has_bit(summary, i, k),
{
    if summary.covers(other) {
        assert forall|i: int, k: u8|
            #![trigger has_bit(other, i, k)]
            0 <= i < other.bytes@.len() && k < 8 && has_bit(other, i, k) implies has_bit(
            summary,
            i,
            k,
        ) by {
            let a = summary.bytes@[i];
            let b = other.bytes@[i];
            assert(a & b == b);
            assert((a >> k) & 1 == 1) by (bit_vector)
                requires
                    a & b == b,
                    (b >> k) & 1 == 1,
                    k < 8,
            ;
        }
    }
    if forall|i: int, k: u8|
        #![trigger has_bit(other, i, k)]
        0 <= i < other.bytes@.len() && k < 8 && has_bit(other, i, k) ==> has_bit(summary, i, k) {
        assert forall|i: int| 0 <= i < summary.bytes@.len() implies #[trigger] summary.bytes@[i]
            & other.bytes@[i] == other.bytes@[i] by {
            let a = summary.bytes@[i];
            let b = other.bytes@[i];
            assert(has_bit(other, i, 0) ==> has_bit(summary, i, 0));
            assert(has_bit(other, i, 1) ==> has_bit(summary, i, 1));
            assert(has_bit(other, i, 2) ==> has_bit(summary, i, 2));
            assert(has_bit(other, i, 3) ==> has_bit(summary, i, 3));
            assert(has_bit(other, i, 4) ==> has_bit(summary, i, 4));
            assert(has_bit(other, i, 5) ==> has_bit(summary, i, 5));
            assert(has_bit(other, i, 6) ==> has_bit(summary, i, 6));
            assert(has_bit(other, i, 7) ==> has_bit(summary, i, 7));
            assert(a & b == b) by (bit_vector)
                requires
                    (b >> 0u8) & 1 == 1 ==> (a >> 0u8) & 1 == 1,
                    (b >> 1u8) & 1 == 1 ==> (a >> 1u8) & 1 == 1,
                    (b >> 2u8) & 1 == 1 ==> (a >> 2u8) & 1 == 1,
                    (b >> 3u8) & 1 == 1 ==> (a >> 3u8) & 1 == 1,
                    (b >> 4u8) & 1 == 1 ==> (a >> 4u8) & 1 == 1,
                    (b >> 5u8) & 1 == 1 ==> (a >> 5u8) & 1 == 1,
                    (b >> 6u8) & 1 == 1 ==> (a >> 6u8) & 1 == 1,
                    (b >> 7u8) & 1 == 1 ==> (a >> 7u8) & 1 == 1,
            ;
        }
    }
}

/// A summary has a bit of a byte.
pub open spec fn has_bit(summary: Bloom, i: int, k: u8) -> bool {
    (summary.bytes@[i] >> k) & 1 == 1
}

/// A block is looked into if its summary is not known or covers something wanted.
pub proof fn lemma_single_block_selected(
    candidate: LogCandidate,
    summary: Option<Bloom>,
    wanted: Seq<Bloom>,
)
    ensures
        matching_blocks(seq![candidate], seq![summary], wanted) == (if summary is None || exists|
            j: int,
        |
            0 <= j < wanted.len() && summary->Some_0.covers(#[trigger] wanted[j]) {
            seq![candidate.block_hash]
        } else {
            Seq::empty()
        }),
{
    let list = seq![candidate];
    assert(list.drop_last().len() == 0);
    let none = matching_blocks(list.drop_last(), seq![summary], wanted);
    assert(none =~= Seq::<H256>::empty());
    assert(none.push(candidate.block_hash) =~= seq![candidate.block_hash]);
    assert(seq![summary][0] == summary);
    assert(list.last() == candidate);
    assert(may_match(summary, wanted) <==> (summary is None || exists|j: int|
        0 <= j < wanted.len() && summary->Some_0.covers(#[trigger] wanted[j])));
}

/// Each block is selected by itself: the selection from two lists is that from the
/// first followed by that from the second.
pub proof fn lemma_selection_parted(
    a: Seq<LogCandidate>,
    b: Seq<LogCandidate>,
    sa: Seq<Option<Bloom>>,
    sb: Seq<Option<Bloom>>,
    wanted: Seq<Bloom>,
)
    requires
        a.len() == sa.len(),
        b.len() == sb.len(),
    ensures
        matching_blocks(a + b, sa + sb, wanted) == matching_blocks(a, sa, wanted)
            + matching_blocks(b, sb, wanted),
    decreases b.len(),
{
    if b.len() == 0 {
        assert(a + b =~= a);
        assert(sa + sb =~= sa);
        assert(matching_blocks(a, sa, wanted) + Seq::<H256>::empty() =~= matching_blocks(
            a,
            sa,
            wanted,
        ));
    } else {
        let c = b.drop_last();
        let sc = sb.drop_last();
        lemma_selection_parted(a, c, sa, sc, wanted);
        assert((a + b).drop_last() =~= a + c);
        lemma_selection_local(a + c, sa + sc, sa + sb, wanted);
        lemma_selection_local(c, sc, sb, wanted);
        assert((sa + sb)[(a + b).len() - 1] == sb[b.len() - 1]);
        assert((a + b).last() == b.last());
        let x = matching_blocks(a, sa, wanted);
        let y = matching_blocks(c, sc, wanted);
        let h = b.last().block_hash;
        assert((x + y).push(h) =~= x + y.push(h));
    }
}

/// Only the summaries of the listed blocks matter.
proof fn lemma_selection_local(
    list: Seq<LogCandidate>,
    s: Seq<Option<Bloom>>,
    t: Seq<Option<Bloom>>,
    wanted: Seq<Bloom>,
)
    requires
        list.len() <= s.len(),
        list.len() <= t.len(),
        forall|i: int| 0 <= i < list.len() ==> #[trigger] s[i] == t[i],
    ensures
        matching_blocks(list, s, wanted) == matching_blocks(list, t, wanted),
    decreases list.len(),
{
    if list.len() > 0 {
        lemma_selection_local(list.drop_last(), s, t, wanted);
        assert(s[list.len() - 1] == t[list.len() - 1]);
    }
}

/// An entry stands for a log: it names the block, the transaction and the places of
/// the log in the transaction and in the block.
pub open spec fn stands_for(block: BlockLogs, entry: LocalizedLogEntry, t: int, j: int) -> bool {
    &&& 0 <= t < block.matches@.len()
    &&& 0 <= j < block.matches@[t]@.len()
    &&& entry.block_hash == block.block_hash
    &&& entry.transaction_hash == block.transaction_hashes@[t]
    &&& entry.transaction_index == t
    &&& entry.transaction_log_index == j
    &&& entry.log_index == logs_before(block, t) + j
}

/// An entry stands for one of the first logs of a transaction that match.
pub open spec fn stands_for_match_in(
    block: BlockLogs,
    entry: LocalizedLogEntry,
    t: int,
    n: int,
) -> bool {
    exists|j: int|
        0 <= j < n && block.matches@[t]@[j] && #[trigger] stands_for(block, entry, t, j)
}

/// An entry stands for a log that matches, of one of the first transactions.
pub open spec fn stands_for_match(block: BlockLogs, entry: LocalizedLogEntry, n: int) -> bool {
    exists|t: int, j: int|
        t < n && block.matches@[t]@[j] && #[trigger] stands_for(block, entry, t, j)
}

/// The logs of a block are numbered through: the first log of a transaction comes
/// right after the last of the transaction before, and numbering starts at zero.
pub proof fn lemma_logs_numbered(block: BlockLogs, t: int)
    requires
        0 <= t < block.matches@.len(),
    ensures
        logs_before(block, 0) == 0,
        logs_before(block, t + 1) == logs_before(block, t) + block.matches@[t]@.len(),
        logs_before(block, t) >= 0,
    decreases t,
{
    if t > 0 {
        lemma_logs_numbered(block, t - 1);
    }
}

/// The entries of the first transactions of a block that match: one for each log
/// that matches, none for another, in the order of the logs.
pub proof fn lemma_block_logs(block: BlockLogs, n: int)
    requires
        block.wf(),
        0 <= n <= block.matches@.len(),
    ensures
        forall|k: int|
            0 <= k < block_logs(block, n).len() ==> stands_for_match(
                block,
                #[trigger] block_logs(block, n)[k],
                n,
            ),
        forall|t: int, j: int|
            #![trigger block.matches@[t]@[j]]
            0 <= t < n && 0 <= j < block.matches@[t]@.len() && block.matches@[t]@[j]
                ==> exists|k: int|
                0 <= k < block_logs(block, n).len() && stands_for(
                    block,
                    #[trigger] block_logs(block, n)[k],
                    t,
                    j,
                ),
        forall|k: int, l: int|
            0 <= k < l < block_logs(block, n).len() ==> (#[trigger] block_logs(
                block,
                n,
            )[k]).log_index < (#[trigger] block_logs(block, n)[l]).log_index,
        forall|k: int|
            0 <= k < block_logs(block, n).len() ==> (#[trigger] block_logs(block, n)[k]).log_index
                < logs_before(block, n),
    decreases n,
{
    if n > 0 {
        let t = n - 1;
        let m = block.matches@[t]@.len() as int;
        let front = block_logs(block, t);
        let tail = transaction_logs(block, t, m);
        let all = block_logs(block, n);
        lemma_block_logs(block, t);
        lemma_logs_numbered(block, t);
        lemma_below(block, n, block.matches@.len() as int);
        assert(block.matches.len() == block.matches@.len());
        lemma_transaction_logs(block, t, m);
        assert(all =~= front + tail);
        assert forall|k: int| 0 <= k < all.len() implies stands_for_match(
            block,
            #[trigger] all[k],
            n,
        ) by {
            if k < front.len() {
                assert(all[k] == front[k]);
                assert(stands_for_match(block, front[k], t));
                let (u, j) = choose|u: int, j: int|
                    u < t && block.matches@[u]@[j] && #[trigger] stands_for(block, front[k], u, j);
                assert(stands_for(block, all[k], u, j));
            } else {
                assert(all[k] == tail[k - front.len()]);
                assert(stands_for_match_in(block, tail[k - front.len()], t, m));
                let j = choose|j: int|
                    0 <= j < m && block.matches@[t]@[j] && #[trigger] stands_for(
                        block,
                        tail[k - front.len()],
                        t,
                        j,
                    );
                assert(stands_for(block, all[k], t, j));
            }
        }
        assert forall|u: int, j: int|
            #![trigger block.matches@[u]@[j]]
            0 <= u < n && 0 <= j < block.matches@[u]@.len() && block.matches@[u]@[j] implies exists|
            k: int,
        |
            0 <= k < all.len() && stands_for(block, #[trigger] all[k], u, j) by {
            if u < t {
                let k = choose|k: int|
                    0 <= k < front.len() && stands_for(block, #[trigger] front[k], u, j);
                assert(all[k] == front[k]);
            } else {
                let k = choose|k: int|
                    0 <= k < tail.len() && stands_for(block, #[trigger] tail[k], t, j);
                assert(all[front.len() + k] == tail[k]);
            }
        }
        assert forall|k: int| 0 <= k < tail.len() implies logs_before(block, t) <= (
        #[trigger] tail[k]).log_index < logs_before(block, n) by {
            assert(stands_for_match_in(block, tail[k], t, m));
            let j = choose|j: int|
                0 <= j < m && block.matches@[t]@[j] && #[trigger] stands_for(block, tail[k], t, j);
        }
        assert forall|k: int, l: int| 0 <= k < l < all.len() implies (#[trigger] all[k]).log_index
            < (#[trigger] all[l]).log_index by {
            if l < front.len() {
                assert(all[k] == front[k] && all[l] == front[l]);
            } else if k < front.len() {
                assert(all[k] == front[k] && all[l] == tail[l - front.len()]);
            } else {
                assert(all[k] == tail[k - front.len()] && all[l] == tail[l - front.len()]);
            }
        }
        assert forall|k: int| 0 <= k < all.len() implies (#[trigger] all[k]).log_index
            < logs_before(block, n) by {
            if k < front.len() {
                assert(all[k] == front[k]);
            } else {
                assert(all[k] == tail[k - front.len()]);
            }
        }
    }
}

proof fn lemma_below(block: BlockLogs, s: int, t: int)
    requires
        0 <= s <= t <= block.matches@.len(),
    ensures
        0 <= logs_before(block, s) <= logs_before(block, t),
    decreases t,
{
    if s < t {
        lemma_below(block, s, t - 1);
    } else if t > 0 {
        lemma_below(block, s - 1, t - 1);
    }
}

/// The entries of the first `n` logs of a transaction.
proof fn lemma_transaction_logs(block: BlockLogs, t: int, n: int)
    requires
        0 <= t < block.matches@.len(),
        0 <= n <= block.matches@[t]@.len(),
        0 <= logs_before(block, t),
        logs_before(block, t) + block.matches@[t]@.len() <= usize::MAX,
        block.matches@.len() <= usize::MAX,
    ensures
        forall|k: int|
            0 <= k < transaction_logs(block, t, n).len() ==> stands_for_match_in(
                block,
                #[trigger] transaction_logs(block, t, n)[k],
                t,
                n,
            ),
        forall|j: int|
            0 <= j < n && #[trigger] block.matches@[t]@[j] ==> exists|k: int|
                0 <= k < transaction_logs(block, t, n).len() && stands_for(
                    block,
                    #[trigger] transaction_logs(block, t, n)[k],
                    t,
                    j,
                ),
        forall|k: int, l: int|
            0 <= k < l < transaction_logs(block, t, n).len() ==> (#[trigger] transaction_logs(
                block,
                t,
                n,
            )[k]).log_index < (#[trigger] transaction_logs(block, t, n)[l]).log_index,
        forall|k: int|
            0 <= k < transaction_logs(block, t, n).len() ==> (#[trigger] transaction_logs(
                block,
                t,
                n,
            )[k]).log_index < logs_before(block, t) + n,
    decreases n,
{
    if n > 0 {
        lemma_transaction_logs(block, t, n - 1);
        let front = transaction_logs(block, t, n - 1);
        let all = transaction_logs(block, t, n);
        assert forall|k: int| 0 <= k < all.len() implies stands_for_match_in(
            block,
            #[trigger] all[k],
            t,
            n,
        ) by {
            if k < front.len() {
                assert(all[k] == front[k]);
                let j = choose|j: int|
                    0 <= j < n - 1 && block.matches@[t]@[j] && #[trigger] stands_for(
                        block,
                        front[k],
                        t,
                        j,
                    );
                assert(stands_for(block, all[k], t, j));
            } else {
                assert(stands_for(block, all[k], t, n - 1));
            }
        }
        assert forall|j: int| 0 <= j < n && #[trigger] block.matches@[t]@[j] implies exists|k: int|
            0 <= k < all.len() && stands_for(block, #[trigger] all[k], t, j) by {
            if j < n - 1 {
                let k = choose|k: int|
                    0 <= k < front.len() && stands_for(block, #[trigger] front[k], t, j);
                assert(all[k] == front[k]);
            } else {
                assert(stands_for(block, all[front.len() as int], t, j));
            }
        }
        assert forall|k: int, l: int| 0 <= k < l < all.len() implies (#[trigger] all[k]).log_index
            < (#[trigger] all[l]).log_index by {
            assert(all[k] == front[k]);
            if l < front.len() {
                assert(all[l] == front[l]);
            }
        }
        assert forall|k: int| 0 <= k < all.len() implies (#[trigger] all[k]).log_index
            < logs_before(block, t) + n by {
            if k < front.len() {
                assert(all[k] == front[k]);
            }
        }
    }
}

/// The entries come block after block, and a block whose logs are not known has
/// none.
pub proof fn lemma_logs_block_after_block(
    a: Seq<Option<BlockLogs>>,
    b: Seq<Option<BlockLogs>>,
    block: BlockLogs,
)
    ensures
        all_logs(a + b) == all_logs(a) + all_logs(b),
        all_logs(seq![Some(block)]) == block_logs(block, block.matches@.len() as int),
        all_logs(seq![None::<BlockLogs>]).len() == 0,
    decreases b.len(),
{
    let one = seq![Some(block)];
    assert(one.drop_last().len() == 0);
    let none = seq![None::<BlockLogs>];
    assert(none.drop_last().len() == 0);
    assert(none.last() is None);
    assert(all_logs(none.drop_last()) =~= Seq::<LocalizedLogEntry>::empty());
    assert(all_logs(one.drop_last()) =~= Seq::<LocalizedLogEntry>::empty());
    assert(one.last() == Some(block));
    assert(all_logs(one) =~= block_logs(block, block.matches@.len() as int));
    if b.len() == 0 {
        assert(a + b =~= a);
        assert(all_logs(a) + Seq::<LocalizedLogEntry>::empty() =~= all_logs(a));
    } else {
        lemma_logs_block_after_block(a, b.drop_last(), block);
        assert((a + b).drop_last() =~= a + b.drop_last());
        assert((a + b).last() == b.last());
        if b.last() is Some {
            let last = b.last()->Some_0;
            let list = block_logs(last, last.matches@.len() as int);
            assert((all_logs(a) + all_logs(b.drop_last())) + list =~= all_logs(a) + (all_logs(
                b.drop_last(),
            ) + list));
        }
    }
}

/// A limit keeps the last entries, as many as it says if there are so many, and no
/// limit keeps all.
pub proof fn lemma_limit_keeps_last(logs: Seq<LocalizedLogEntry>, n: usize)
    ensures
        last_within(logs, Some(n)).len() == (if logs.len() < n {
            logs.len() as int
        } else {
            n as int
        }),
        forall|i: int|
            0 <= i < last_within(logs, Some(n)).len() ==> #[trigger] last_within(logs, Some(n))[i]
                == logs[logs.len() - last_within(logs, Some(n)).len() + i],
        last_within(logs, None) == logs,
{
}

} // verus!
