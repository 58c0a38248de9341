//! Which blocks may hold logs that a filter asks for, and which logs they hold.

use vstd::prelude::*;
use crate::state::ConsensusGraphInner;
#[allow(unused_imports)]
use crate::state::lemma_node;
use crate::types::H256;

verus! {

/// The epochs, blocks and number of logs that a query asks for.
pub struct LogQuery {
    pub from_epoch: usize,
    pub to_epoch: usize,
    /// These blocks, in place of the epochs.
    pub block_hashes: Option<Vec<H256>>,
    /// At most so many logs.
    pub limit: Option<usize>,
}

/// A query for no epoch at all.
#[derive(Clone, Copy, Debug, PartialEq, Eq, Structural)]
pub enum FilterError {
    InvalidEpochNumber { from_epoch: usize, to_epoch: usize },
}

/// Where to look for logs: in blocks that the query names, or in those of its
/// epochs whose summaries may match.
pub enum LogSearch {
    Blocks(Vec<H256>),
    Candidates(Vec<LogCandidate>),
}

/// A block to look for logs in, and the epoch under which the summary of its
/// logs is looked up.
#[derive(Clone, Copy, Debug, PartialEq, Eq, Structural)]
pub struct LogCandidate {
    pub block_hash: H256,
    pub epoch_hash: H256,
}

/// A summary of logs: bits that every log in it sets.
pub struct Bloom {
    pub bytes: Vec<u8>,
}

impl Bloom {
    /// All bits of the other summary are in this one.
    pub open spec fn covers(&self, other: Bloom) -> bool {
        forall|i: int|
            0 <= i < self.bytes@.len() ==> #[trigger] self.bytes@[i] & other.bytes@[i]
                == other.bytes@[i]
    }

    /// Whether all bits of the other summary are in this one.
    pub fn contains_bloom(&self, other: &Bloom) -> (contained: bool)
        requires
            self.bytes@.len() == other.bytes@.len(),
        ensures
            contained == self.covers(*other),
    {
        let mut i: usize = 0;
        while i < self.bytes.len()
            invariant
                self.bytes@.len() == other.bytes@.len(),
                i <= self.bytes@.len(),
                forall|j: int|
                    0 <= j < i ==> #[trigger] self.bytes@[j] & other.bytes@[j] == other.bytes@[j],
            decreases self.bytes@.len() - i,
        {
            if self.bytes[i] & other.bytes[i] != other.bytes[i] {
                assert(self.bytes@[i as int] & other.bytes@[i as int] != other.bytes@[i as int]);
                return false;
            }
            i += 1;
        }
        true
    }
}

/// Where a search on a chain of `len` epochs ends that is to end before `to`.
pub open spec fn search_end(len: int, to: int) -> int {
    if to < len {
        to
    } else {
        len
    }
}

/// The blocks of the epochs of a chain from `from` to before `to`, in order,
/// each with the hash under which its logs are summarised: that of the block
/// which came in as the `e`-th, for epoch `e`.
pub open spec fn candidates(inner: ConsensusGraphInner, from: int, to: int) -> Seq<LogCandidate>
    decreases to - from,
{
    if to <= from {
        Seq::empty()
    } else {
        candidates(inner, from, to - 1) + inner.nodes()[inner.pivot_chain@[to
            - 1] as int].data.ordered_epoch_blocks@.map_values(
            |i: usize|
                LogCandidate {
                    block_hash: inner.nodes()[i as int].hash,
                    epoch_hash: inner.nodes()[to - 1].hash,
                },
        )
    }
}

/// What a query leads to: the blocks that it names, or else the blocks of the epochs
/// that it names, if they are in order.
pub open spec fn is_search(
    inner: ConsensusGraphInner,
    query: LogQuery,
    search: Result<LogSearch, FilterError>,
) -> bool {
    if query.block_hashes is Some {
        search matches Ok(LogSearch::Blocks(l)) && l@ == query.block_hashes->Some_0@
    } else if query.from_epoch >= query.to_epoch {
        search == Err::<LogSearch, FilterError>(
            FilterError::InvalidEpochNumber {
                from_epoch: query.from_epoch,
                to_epoch: query.to_epoch,
            },
        )
    } else {
        search matches Ok(LogSearch::Candidates(l)) && l@ == candidates(
            inner,
            query.from_epoch as int,
            search_end(inner.pivot_chain@.len() as int, query.to_epoch as int),
        )
    }
}

/// Some of the wanted summaries may be in a block: its own summary covers one
/// of them, or is not known.
pub open spec fn may_match(summary: Option<Bloom>, wanted: Seq<Bloom>) -> bool {
    summary matches Some(s) ==> exists|j: int|
        0 <= j < wanted.len() && s.covers(#[trigger] wanted[j])
}

/// The candidates whose summaries may match.
pub open spec fn matching_blocks(
    list: Seq<LogCandidate>,
    summaries: Seq<Option<Bloom>>,
    wanted: Seq<Bloom>,
) -> Seq<H256>
    decreases list.len(),
{
    if list.len() == 0 {
        Seq::empty()
    } else {
        let rest = matching_blocks(list.drop_last(), summaries, wanted);
        if may_match(summaries[list.len() - 1], wanted) {
            rest.push(list.last().block_hash)
        } else {
            rest
        }
    }
}

/// The transactions of a block and, for every log that they wrote, whether it
/// is asked for.
pub struct BlockLogs {
    pub block_hash: H256,
    pub transaction_hashes: Vec<H256>,
    pub matches: Vec<Vec<bool>>,
}

/// Where a log stands.
#[derive(Clone, Copy, Debug, PartialEq, Eq, Structural)]
pub struct LocalizedLogEntry {
    pub block_hash: H256,
    pub transaction_hash: H256,
    /// The place of the transaction in the block.
    pub transaction_index: usize,
    /// The place of the log among those of the transaction.
    pub transaction_log_index: usize,
    /// The place of the log among those of the block.
    pub log_index: usize,
}

impl BlockLogs {
    /// Every transaction has its logs.
    pub open spec fn wf(&self) -> bool {
        &&& self.transaction_hashes@.len() == self.matches@.len()
        &&& logs_before(*self, self.matches@.len() as int) <= usize::MAX
    }
}

/// How many logs the first `t` transactions wrote.
pub open spec fn logs_before(block: BlockLogs, t: int) -> int
    decreases t,
{
    if t <= 0 {
        0
    } else {
        logs_before(block, t - 1) + block.matches@[t - 1]@.len()
    }
}

/// The logs asked for among the first `j` of transaction `t`.
pub open spec fn transaction_logs(block: BlockLogs, t: int, j: int) -> Seq<LocalizedLogEntry>
    decreases j,
{
    if j <= 0 {
        Seq::empty()
    } else {
        let rest = transaction_logs(block, t, j - 1);
        if block.matches@[t]@[j - 1] {
            rest.push(
                LocalizedLogEntry {
                    block_hash: block.block_hash,
                    transaction_hash: block.transaction_hashes@[t],
                    transaction_index: t as usize,
                    transaction_log_index: (j - 1) as usize,
                    log_index: (logs_before(block, t) + j - 1) as usize,
                },
            )
        } else {
            rest
        }
    }
}

/// The logs asked for among those of the first `t` transactions.
pub open spec fn block_logs(block: BlockLogs, t: int) -> Seq<LocalizedLogEntry>
    decreases t,
{
    if t <= 0 {
        Seq::empty()
    } else {
        block_logs(block, t - 1) + transaction_logs(
            block,
            t - 1,
            block.matches@[t - 1]@.len() as int,
        )
    }
}

/// The logs asked for in blocks, in order. A block that is not known has none.
pub open spec fn all_logs(blocks: Seq<Option<BlockLogs>>) -> Seq<LocalizedLogEntry>
    decreases blocks.len(),
{
    if blocks.len() == 0 {
        Seq::empty()
    } else {
        let rest = all_logs(blocks.drop_last());
        match blocks.last() {
            Some(block) => rest + block_logs(block, block.matches@.len() as int),
            None => rest,
        }
    }
}

/// The last ones of a list, as many as the limit allows.
pub open spec fn last_within(
    logs: Seq<LocalizedLogEntry>,
    limit: Option<usize>,
) -> Seq<LocalizedLogEntry> {
    match limit {
        Some(n) => if n < logs.len() {
            logs.skip(logs.len() - n)
        } else {
            logs
        },
        None => logs,
    }
}

proof fn lemma_logs_before(block: BlockLogs, s: int, t: int)
    requires
        s <= t,
    ensures
        0 <= logs_before(block, s) <= logs_before(block, t),
    decreases t - s, t,
{
    if s < t {
        lemma_logs_before(block, s, t - 1);
    } else if s > 0 {
        lemma_logs_before(block, s - 1, s - 1);
    }
}

/// Appends the logs asked for in a block.
fn push_block_logs(logs: &mut Vec<LocalizedLogEntry>, block: &BlockLogs)
    requires
        block.wf(),
    ensures
        final(logs)@ == old(logs)@ + block_logs(*block, block.matches@.len() as int),
{
    let ghost before = logs@;
    let mut t: usize = 0;
    let mut first: usize = 0;
    while t < block.matches.len()
        invariant
            block.wf(),
            t <= block.matches@.len(),
            first == logs_before(*block, t as int),
            logs@ =~= before + block_logs(*block, t as int),
        decreases block.matches@.len() - t,
    {
        let count: usize = block.matches[t].len();
        let ghost upto = logs@;
        proof {
            lemma_logs_before(*block, t + 1, block.matches@.len() as int);
        }
        let mut j: usize = 0;
        while j < count
            invariant
                block.wf(),
                t < block.matches@.len(),
                count == block.matches@[t as int]@.len(),
                j <= count,
                first == logs_before(*block, t as int),
                first + count <= usize::MAX,
                logs@ =~= upto + transaction_logs(*block, t as int, j as int),
            decreases count - j,
        {
            if block.matches[t][j] {
                logs.push(
                    LocalizedLogEntry {
                        block_hash: block.block_hash,
                        transaction_hash: block.transaction_hashes[t],
                        transaction_index: t,
                        transaction_log_index: j,
                        log_index: first + j,
                    },
                );
            }
            j += 1;
        }
        first = first + count;
        t += 1;
    }
}

/// The logs asked for in blocks, in the order of the blocks, and of these the
/// last ones within the limit.
pub fn logs_from_blocks(blocks: &Vec<Option<BlockLogs>>, limit: Option<usize>) -> (logs: Vec<
    LocalizedLogEntry,
>)
    requires
        forall|i: int|
            0 <= i < blocks@.len() ==> ((#[trigger] blocks@[i]) matches Some(b) ==> b.wf()),
    ensures
        logs@ == last_within(all_logs(blocks@), limit),
{
    let mut logs: Vec<LocalizedLogEntry> = Vec::new();
    let mut i: usize = 0;
    assert(blocks@.take(0) =~= Seq::<Option<BlockLogs>>::empty());
    while i < blocks.len()
        invariant
            i <= blocks@.len(),
            forall|i: int|
                0 <= i < blocks@.len() ==> ((#[trigger] blocks@[i]) matches Some(b) ==> b.wf()),
            logs@ =~= all_logs(blocks@.take(i as int)),
        decreases blocks@.len() - i,
    {
        proof {
            let upto = blocks@.take(i + 1);
            assert(upto.drop_last() =~= blocks@.take(i as int));
            assert(upto.last() == blocks@[i as int]);
        }
        match &blocks[i] {
            Some(block) => {
                push_block_logs(&mut logs, block);
            },
            None => {},
        }
        i += 1;
    }
    assert(blocks@.take(i as int) =~= blocks@);
    match limit {
        Some(n) => {
            if n < logs.len() {
                let start: usize = logs.len() - n;
                let mut kept: Vec<LocalizedLogEntry> = Vec::new();
                let mut k: usize = start;
                while k < logs.len()
                    invariant
                        start <= k <= logs@.len(),
                        kept@ =~= logs@.subrange(start as int, k as int),
                    decreases logs@.len() - k,
                {
                    kept.push(logs[k]);
                    k += 1;
                }
                assert(kept@ =~= logs@.skip(start as int));
                return kept;
            }
        },
        None => {},
    }
    logs
}

/// A limit keeps no more logs than it says, and all of them if there are no
/// more.
pub proof fn lemma_limit_kept(logs: Seq<LocalizedLogEntry>, n: usize)
    ensures
        last_within(logs, Some(n)).len() <= n,
        logs.len() <= n ==> last_within(logs, Some(n)) == logs,
        last_within(logs, Some(n)).is_suffix_of(logs),
{
}

impl ConsensusGraphInner {
    /// Where to look for the logs of a query.
    pub fn logs(&self, query: &LogQuery) -> (search: Result<LogSearch, FilterError>)
        requires
            self.readable(),
        ensures
            ({
                let len = self.pivot_chain@.len() as int;
                if query.block_hashes is Some {
                    search matches Ok(LogSearch::Blocks(l)) && l@ == query.block_hashes->Some_0@
                } else if query.from_epoch >= query.to_epoch {
                    search == Err::<LogSearch, FilterError>(
                        FilterError::InvalidEpochNumber {
                            from_epoch: query.from_epoch,
                            to_epoch: query.to_epoch,
                        },
                    )
                } else {
                    search matches Ok(LogSearch::Candidates(l)) && l@ == candidates(
                        *self,
                        query.from_epoch as int,
                        if query.to_epoch < len {
                            query.to_epoch as int
                        } else {
                            len
                        },
                    )
                }
            }),
            is_search(*self, *query, search),
    {
        match &query.block_hashes {
            Some(hashes) => {
                let mut list: Vec<H256> = Vec::new();
                let mut i: usize = 0;
                while i < hashes.len()
                    invariant
                        i <= hashes@.len(),
                        list@ =~= hashes@.take(i as int),
                    decreases hashes@.len() - i,
                {
                    list.push(hashes[i]);
                    i += 1;
                }
                assert(list@ =~= hashes@);
                Ok(LogSearch::Blocks(list))
            },
            None => match self.log_candidates(query) {
                Ok(list) => Ok(LogSearch::Candidates(list)),
                Err(e) => Err(e),
            },
        }
    }

    /// The blocks of the epochs of a query, before their summaries are looked at.
    fn log_candidates(&self, query: &LogQuery) -> (list: Result<Vec<LogCandidate>, FilterError>)
        requires
            self.readable(),
        ensures
            ({
                let len = self.pivot_chain@.len() as int;
                if query.from_epoch >= query.to_epoch {
                    list == Err::<Vec<LogCandidate>, FilterError>(
                        FilterError::InvalidEpochNumber {
                            from_epoch: query.from_epoch,
                            to_epoch: query.to_epoch,
                        },
                    )
                } else {
                    list matches Ok(l) && l@ == candidates(
                        *self,
                        query.from_epoch as int,
                        if query.to_epoch < len {
                            query.to_epoch as int
                        } else {
                            len
                        },
                    )
                }
            }),
            ({
                let len = self.pivot_chain@.len() as int;
                if query.from_epoch >= query.to_epoch {
                    list == Err::<Vec<LogCandidate>, FilterError>(
                        FilterError::InvalidEpochNumber {
                            from_epoch: query.from_epoch,
                            to_epoch: query.to_epoch,
                        },
                    )
                } else {
                    list matches Ok(l) && l@ == candidates(
                        *self,
                        query.from_epoch as int,
                        search_end(len, query.to_epoch as int),
                    )
                }
            }),
    {
        if query.from_epoch >= query.to_epoch {
            return Err(
                FilterError::InvalidEpochNumber {
                    from_epoch: query.from_epoch,
                    to_epoch: query.to_epoch,
                },
            );
        }
        let len: usize = self.pivot_chain.len();
        let mut list: Vec<LogCandidate> = Vec::new();
        if query.from_epoch >= len {
            return Ok(list);
        }
        let to_epoch: usize = if query.to_epoch < len {
            query.to_epoch
        } else {
            len
        };
        proof {
            assert(self.pivot_chain@[0] < self.parents().len());
            lemma_node(self.nodes(), 0);
            crate::pivot::lemma_chain_length(self.parents(), self.pivot_chain@);
        }
        let mut epoch: usize = query.from_epoch;
        while epoch < to_epoch
            invariant
                self.readable(),
                query.from_epoch <= epoch <= to_epoch <= self.pivot_chain@.len(),
                self.pivot_chain@.len() <= self.size(),
                list@ =~= candidates(*self, query.from_epoch as int, epoch as int),
            decreases to_epoch - epoch,
        {
            let epoch_hash: H256 = self.arena.get(epoch).hash;
            let hashes: Vec<H256> = self.get_epoch_block_hashes(self.pivot_chain[epoch]);
            let ghost before = list@;
            let ghost blocks = self.nodes()[self.pivot_chain@[epoch as int] as int].data
                .ordered_epoch_blocks@;
            let mut i: usize = 0;
            while i < hashes.len()
                invariant
                    i <= hashes@.len(),
                    hashes@ == crate::rewards::epoch_hashes(
                        self.nodes(),
                        self.pivot_chain@[epoch as int] as int,
                    ),
                    blocks == self.nodes()[self.pivot_chain@[epoch as int] as int].data
                        .ordered_epoch_blocks@,
                    epoch_hash == self.nodes()[epoch as int].hash,
                    list@.len() == before.len() + i,
                    forall|j: int| 0 <= j < before.len() ==> #[trigger] list@[j] == before[j],
                    forall|j: int|
                        before.len() <= j < list@.len() ==> #[trigger] list@[j] == (LogCandidate {
                            block_hash: hashes@[j - before.len()],
                            epoch_hash,
                        }),
                decreases hashes@.len() - i,
            {
                list.push(LogCandidate { block_hash: hashes[i], epoch_hash });
                i += 1;
            }
            proof {
                assert(list@ =~= candidates(*self, query.from_epoch as int, epoch + 1));
            }
            epoch += 1;
        }
        Ok(list)
    }
}

/// The candidates whose summaries may match the filter.
pub fn select_blocks(
    list: &Vec<LogCandidate>,
    summaries: &Vec<Option<Bloom>>,
    wanted: &Vec<Bloom>,
) -> (blocks: Vec<H256>)
    requires
        list@.len() == summaries@.len(),
        forall|i: int, j: int|
            0 <= i < summaries@.len() && 0 <= j < wanted@.len() ==> (
            #[trigger] summaries@[i] matches Some(s) ==> s.bytes@.len() == (
            #[trigger] wanted@[j]).bytes@.len()),
    ensures
        blocks@ == matching_blocks(list@, summaries@, wanted@),
{
    let mut blocks: Vec<H256> = Vec::new();
    let mut i: usize = 0;
    assert(list@.take(0) =~= Seq::<LogCandidate>::empty());
    while i < list.len()
        invariant
            i <= list@.len(),
            list@.len() == summaries@.len(),
            forall|i: int, j: int|
                0 <= i < summaries@.len() && 0 <= j < wanted@.len() ==> (
                #[trigger] summaries@[i] matches Some(s) ==> s.bytes@.len() == (
                #[trigger] wanted@[j]).bytes@.len()),
            blocks@ =~= matching_blocks(list@.take(i as int), summaries@, wanted@),
        decreases list@.len() - i,
    {
        let mut found: bool = true;
        match &summaries[i] {
            Some(summary) => {
                found = false;
                let mut j: usize = 0;
                while j < wanted.len() && !found
                    invariant
                        j <= wanted@.len(),
                        forall|k: int|
                            0 <= k < wanted@.len() ==> summary.bytes@.len() == (
                            #[trigger] wanted@[k]).bytes@.len(),
                        found <==> exists|k: int| 0 <= k < j && summary.covers(#[trigger] wanted@[k]),
                    decreases wanted@.len() - j,
                {
                    if summary.contains_bloom(&wanted[j]) {
                        assert(summary.covers(wanted@[j as int]));
                        found = true;
                    }
                    j += 1;
                }
            },
            None => {},
        }
        proof {
            let upto = list@.take(i + 1);
            assert(upto.drop_last() =~= list@.take(i as int));
            assert(upto.last() == list@[i as int]);
            assert(found == may_match(summaries@[i as int], wanted@));
        }
        if found {
            blocks.push(list[i].block_hash);
        }
        i += 1;
    }
    assert(list@.take(i as int) =~= list@);
    blocks
}

} // verus!
