//! What holds of the five heights by which state lags behind the chain and of the
//! twelve after which an epoch is paid: which epochs are executed when, and for
//! which blocks rewards fall due.

use vstd::prelude::*;
use crate::consensus::{settled, state_end, state_start, validity, ConsensusGraph, PendingBlock,
    Validity};
use crate::construct::{is_deferred_task, receipts_recorded, ReceiptsRecord};
use crate::dag::{ancestor, ancestor_at_depth, depth};
#[allow(unused_imports)]
use crate::dag::{lemma_ancestor_at_depth, lemma_ancestor_depth, lemma_ancestor_unique,
    lemma_ancestors_chain};
#[allow(unused_imports)]
use crate::decisions::lemma_roots_of_deferred_ancestor;
use crate::finish::PivotUpdate;
use crate::graph::are_epochs_to_compute;
use crate::model::{chain_ok, links_ok, past_weights_ok, weights};
use crate::plans::{are_state_tasks, are_tasks_for, debug_reward_index, deferred_place, fork_from,
    fork_place, hash_up, is_debug_plan, last_state_height, path_to, DebugEpochPlan};
#[allow(unused_imports)]
use crate::plans::lemma_path;
use crate::queries::state_height;
use crate::rewards::{anticone_weight, handed_out, is_reward_info, is_task_for, payable_at,
    reward_index, EpochExecutionTask, RewardExecutionInfo};
#[allow(unused_imports)]
use crate::rewards::lemma_view_parts;
use crate::state::ConsensusGraphInner;
#[allow(unused_imports)]
use crate::state::lemma_node;
use crate::sums::{masked, sum_to};
use crate::types::{H256, U256};
#[allow(unused_imports)]
use crate::validity::lemma_chain_index;

verus! {

/// With the state at a height of a chain, the epoch of the block twelve heights
/// below is paid, with the anticones cut off two heights below: both blocks are
/// ancestors of the block at the height. Up to height twelve nothing is paid. For
/// a block above that height, tracing finds the same two blocks.
pub proof fn lemma_reward_falls_due(inner: ConsensusGraphInner, chain: Seq<usize>, h: int)
    requires
        links_ok(inner.nodes()),
        chain_ok(inner.parents(), chain),
        0 <= h < chain.len(),
    ensures
        reward_index(chain, h) is None <==> h <= 12,
        reward_index(chain, h) matches Some((paid, cutoff)) ==> {
            &&& paid == chain[h - 12]
            &&& cutoff == chain[h - 2]
            &&& ancestor(inner.parents(), paid as int, chain[h] as int)
            &&& ancestor(inner.parents(), cutoff as int, chain[h] as int)
            &&& ancestor(inner.parents(), paid as int, cutoff as int)
            &&& depth(inner.parents(), paid as int) + 12 == depth(inner.parents(), chain[h] as int)
            &&& depth(inner.parents(), cutoff as int) + 2 == depth(inner.parents(), chain[h] as int)
        },
        h > 12 ==> reward_index(chain, h) == debug_reward_index(inner, chain[h] as int),
{
    let par = inner.parents();
    assert(chain[0] < par.len());
    assert(chain[h] < par.len());
    lemma_node(inner.nodes(), 0);
    if h > 12 {
        lemma_chain_index(par, chain, h);
        lemma_chain_index(par, chain, h - 2);
        lemma_chain_index(par, chain, h - 12);
        assert(chain[h - 2] < par.len());
        assert(chain[h - 12] < par.len());
        assert(ancestor(par, chain[h - 12] as int, chain[h] as int));
        assert(ancestor(par, chain[h - 2] as int, chain[h] as int));
        lemma_ancestors_chain(par, chain[h - 12] as int, chain[h - 2] as int, chain[h] as int);
        lemma_ancestor_unique(par, chain[h - 12] as int, chain[h] as int);
        lemma_ancestor_unique(par, chain[h - 2] as int, chain[h] as int);
    }
}

/// The blocks traced for an epoch: from height twelve on the ancestors twelve and
/// two heights up.
pub proof fn lemma_traced_blocks(inner: ConsensusGraphInner, x: int)
    requires
        links_ok(inner.nodes()),
        0 <= x < inner.size(),
    ensures
        debug_reward_index(inner, x) is Some <==> depth(inner.parents(), x) >= 12,
        debug_reward_index(inner, x) matches Some((paid, cutoff)) ==> {
            &&& ancestor(inner.parents(), paid as int, x)
            &&& ancestor(inner.parents(), cutoff as int, x)
            &&& depth(inner.parents(), paid as int) + 12 == depth(inner.parents(), x)
            &&& depth(inner.parents(), cutoff as int) + 2 == depth(inner.parents(), x)
        },
{
    let par = inner.parents();
    lemma_node(inner.nodes(), x);
    if depth(par, x) >= 12 {
        lemma_ancestor_at_depth(par, x, (depth(par, x) - 12) as nat);
        lemma_ancestor_at_depth(par, x, (depth(par, x) - 2) as nat);
    }
}

/// The hash so many heights up is that of the ancestor there, if the first block is
/// not below.
pub proof fn lemma_hash_up(inner: ConsensusGraphInner, x: int, up: int)
    requires
        links_ok(inner.nodes()),
        0 <= x < inner.size(),
        0 <= up,
    ensures
        hash_up(inner, x, up) is Some <==> depth(inner.parents(), x) >= up,
        hash_up(inner, x, up) matches Some(hash) ==> exists|a: int| #[trigger]
            ancestor(inner.parents(), a, x) && depth(inner.parents(), a) + up == depth(
                inner.parents(),
                x,
            ) && inner.nodes()[a].hash == hash,
{
    let par = inner.parents();
    lemma_node(inner.nodes(), x);
    if depth(par, x) >= up {
        let h = (depth(par, x) - up) as nat;
        lemma_ancestor_at_depth(par, x, h);
        assert(ancestor(par, ancestor_at_depth(par, x, h), x));
    }
}

/// The place of a deferred block: the ancestor so many heights up, or the first
/// block where there is none.
pub proof fn lemma_deferred_place(inner: ConsensusGraphInner, x: int, delay: int)
    requires
        links_ok(inner.nodes()),
        0 <= x < inner.size(),
        0 <= delay,
    ensures
        ({
            let a = deferred_place(inner.parents(), x, delay);
            &&& ancestor(inner.parents(), a, x)
            &&& depth(inner.parents(), x) >= delay ==> depth(inner.parents(), a) + delay == depth(
                inner.parents(),
                x,
            )
            &&& depth(inner.parents(), x) < delay ==> depth(inner.parents(), a) == 0
        }),
{
    let par = inner.parents();
    lemma_node(inner.nodes(), x);
    let h = if depth(par, x) > delay {
        depth(par, x) - delay
    } else {
        0
    };
    lemma_ancestor_at_depth(par, x, h as nat);
}

/// A block of a paid epoch is over the limit if and only if it is partially
/// invalid or its anticone weighs at least a hundred times the difficulty of the
/// pivot block. The anticone weighs what the cutoff block sees, with itself, less
/// the past of the block and less all that sees the block.
pub proof fn lemma_rewards_told(
    inner: ConsensusGraphInner,
    pivot: int,
    cutoff: int,
    info: RewardExecutionInfo,
    j: int,
)
    requires
        links_ok(inner.nodes()),
        past_weights_ok(inner.inner_conf, inner.nodes(), inner.size()),
        is_reward_info(inner.inner_conf, inner.nodes(), pivot, cutoff, info),
        0 <= pivot < inner.size(),
        0 <= cutoff < inner.size(),
        inner.nodes()[pivot].difficulty.value() > 0,
        0 <= j < inner.nodes()[pivot].data.ordered_epoch_blocks@.len(),
        inner.nodes()[pivot].data.ordered_epoch_blocks@[j] < inner.size(),
        inner.dag().reaches(
            cutoff,
            inner.nodes()[pivot].data.ordered_epoch_blocks@[j] as int,
        ),
    ensures
        ({
            let nodes = inner.nodes();
            let x = nodes[pivot].data.ordered_epoch_blocks@[j] as int;
            let weight = info.epoch_block_anticone_difficulties@[j].value();
            let seen_by = sum_to(
                masked(
                    |y: int| inner.dag().reaches(cutoff, y) && inner.dag().reaches(y, x),
                    weights(inner.inner_conf, nodes),
                ),
                nodes.len(),
            );
            &&& info.epoch_blocks@[j] == nodes[x].hash
            &&& nodes[x].data.partial_invalid ==> weight == 0
                && info.epoch_block_anticone_overlimited@[j]
            &&& !nodes[x].data.partial_invalid ==> weight == nodes[cutoff].past_weight + weights(
                inner.inner_conf,
                nodes,
            )(cutoff) - nodes[x].past_weight - seen_by
            &&& !nodes[x].data.partial_invalid ==> (info.epoch_block_anticone_overlimited@[j]
                <==> 100 * nodes[pivot].difficulty.value() <= weight)
        }),
{
    let nodes = inner.nodes();
    let x = nodes[pivot].data.ordered_epoch_blocks@[j] as int;
    lemma_view_parts(inner.inner_conf, nodes, x, cutoff);
    let weight = anticone_weight(inner.inner_conf, nodes, x, cutoff);
    let d = nodes[pivot].difficulty.value();
    assert(weight / d >= 100 <==> 100 * d <= weight) by (nonlinear_arith)
        requires
            d > 0,
    ;
}

/// The epoch at a height is to be executed when a chain of `old_len` has become one
/// of `len` by a change from `fork` on: it lies at least five below the length, and
/// it changed or was not due before.
pub open spec fn newly_due(len: int, old_len: int, fork: int, e: int) -> bool {
    e + 5 <= len && !(e < fork && e + 5 <= old_len)
}

/// The task for the epoch at a height of a chain lists the blocks of the epoch and
/// pays the epoch twelve heights below, with the anticones cut off two heights
/// below, or nothing up to height twelve.
pub open spec fn pays_twelve_below(
    inner: ConsensusGraphInner,
    chain: Seq<usize>,
    h: int,
    task: EpochExecutionTask,
) -> bool {
    let blocks = inner.nodes()[chain[h] as int].data.ordered_epoch_blocks@;
    &&& task.epoch_block_hashes@.len() == blocks.len()
    &&& forall|j: int|
        0 <= j < blocks.len() ==> #[trigger] task.epoch_block_hashes@[j]
            == inner.nodes()[blocks[j] as int].hash
    &&& task.reward_info is Some <==> h > 12
    &&& task.reward_info matches Some(info) ==> is_reward_info(
        inner.inner_conf,
        inner.nodes(),
        chain[h - 12] as int,
        chain[h - 2] as int,
        info,
    )
}

/// A task for the epoch at a height of a chain names its pivot block and its
/// blocks, and pays what falls due there.
pub proof fn lemma_task_for_height(
    inner: ConsensusGraphInner,
    chain: Seq<usize>,
    h: int,
    on_local_pivot: bool,
    debug_record: bool,
    task: EpochExecutionTask,
)
    requires
        is_task_for(
            inner,
            chain[h] as int,
            reward_index(chain, h),
            on_local_pivot,
            debug_record,
            task,
        ),
    ensures
        task.epoch_hash == inner.nodes()[chain[h] as int].hash,
        task.on_local_pivot == on_local_pivot,
        task.debug_record == debug_record,
        pays_twelve_below(inner, chain, h, task),
{
}

/// What is handed out to be executed ahead of time is the epoch of the pivot chain
/// at the height to go on with, paid like any other; the height moves up by one, as
/// far as the chain goes. Nothing is handed out if it is switched off or the chain
/// has no such epoch.
pub proof fn lemma_handed_out_is_next(
    before: ConsensusGraphInner,
    after: ConsensusGraphInner,
    task: Option<EpochExecutionTask>,
    at: usize,
)
    requires
        handed_out(before, after, task),
        before.optimistic_executed_height == Some(at),
        at < before.pivot_chain@.len(),
        before.pivot_chain@.len() <= usize::MAX,
    ensures
        task is Some <==> before.inner_conf.enable_optimistic_execution,
        task matches Some(t) ==> {
            &&& t.epoch_hash == before.nodes()[before.pivot_chain@[at as int] as int].hash
            &&& t.on_local_pivot
            &&& !t.debug_record
            &&& pays_twelve_below(before, before.pivot_chain@, at as int, t)
            &&& at + 1 < before.pivot_chain@.len() ==> (
            after.optimistic_executed_height matches Some(next) && next == at + 1)
            &&& at + 1 == before.pivot_chain@.len() ==> after.optimistic_executed_height is None
        },
        task is None ==> after == before,
{
    if task is Some {
        lemma_task_for_height(
            before,
            before.pivot_chain@,
            at as int,
            true,
            false,
            task->Some_0,
        );
    }
}

/// The epoch that the next block refers to is the newest whose state can be read,
/// five below the length of the chain. It needs no task where that is the first
/// block or the chain is shorter.
pub proof fn lemma_deferred_task(inner: ConsensusGraphInner, task: Option<EpochExecutionTask>)
    requires
        is_deferred_task(inner, task),
    ensures
        ({
            let h = inner.pivot_chain@.len() - 5;
            &&& task is Some <==> h > 0
            &&& task matches Some(t) ==> {
                &&& t.epoch_hash == inner.nodes()[inner.pivot_chain@[h] as int].hash
                &&& t.on_local_pivot
                &&& !t.debug_record
                &&& pays_twelve_below(inner, inner.pivot_chain@, h, t)
            }
        }),
{
    if task is Some {
        lemma_task_for_height(
            inner,
            inner.pivot_chain@,
            inner.pivot_chain@.len() - 5,
            true,
            false,
            task->Some_0,
        );
    }
}

/// The plan for tracing an epoch names the parent of its pivot block, and where it
/// pays an epoch, exactly the blocks for which the rewards are worked out.
pub proof fn lemma_debug_plan(inner: ConsensusGraphInner, x: int, plan: DebugEpochPlan)
    requires
        links_ok(inner.nodes()),
        0 < x < inner.size(),
        is_debug_plan(inner, x, plan),
    ensures
        plan.parent_block_hash == inner.nodes()[inner.nodes()[x].parent as int].hash,
        plan.task.epoch_hash == inner.nodes()[x].hash,
        plan.task.debug_record,
        !plan.task.on_local_pivot,
        plan.task.reward_info is Some <==> plan.reward_epoch_hash is Some,
        plan.reward_epoch_hash is Some <==> depth(inner.parents(), x) >= 12,
        plan.anticone_penalty_cutoff_epoch_hash is Some <==> depth(inner.parents(), x) >= 2,
        plan.task.reward_info matches Some(info) ==> exists|paid: int, cutoff: int|
            #![trigger ancestor(inner.parents(), paid, x), ancestor(inner.parents(), cutoff, x)]
            {
                &&& ancestor(inner.parents(), paid, x)
                &&& ancestor(inner.parents(), cutoff, x)
                &&& depth(inner.parents(), paid) + 12 == depth(inner.parents(), x)
                &&& depth(inner.parents(), cutoff) + 2 == depth(inner.parents(), x)
                &&& plan.reward_epoch_hash == Some(inner.nodes()[paid].hash)
                &&& plan.anticone_penalty_cutoff_epoch_hash == Some(inner.nodes()[cutoff].hash)
                &&& is_reward_info(inner.inner_conf, inner.nodes(), paid, cutoff, info)
            },
{
    let par = inner.parents();
    lemma_node(inner.nodes(), x);
    let p = inner.nodes()[x].parent as int;
    lemma_node(inner.nodes(), p);
    assert(par[x] == p);
    assert(ancestor(par, p, p));
    assert(ancestor(par, p, x));
    lemma_ancestor_unique(par, p, x);
    if depth(par, x) >= 12 {
        let paid = ancestor_at_depth(par, x, (depth(par, x) - 12) as nat);
        let cutoff = ancestor_at_depth(par, x, (depth(par, x) - 2) as nat);
        lemma_ancestor_at_depth(par, x, (depth(par, x) - 12) as nat);
        lemma_ancestor_at_depth(par, x, (depth(par, x) - 2) as nat);
        assert(ancestor(par, paid, x) && ancestor(par, cutoff, x));
    }
}

/// The epochs to compute for a block are those of its ancestors from the last one
/// on the pivot chain up to the block itself, one for each height.
pub proof fn lemma_epochs_to_compute(
    inner: ConsensusGraphInner,
    x: int,
    hashes: Seq<H256>,
    fork: int,
    i: int,
)
    requires
        links_ok(inner.nodes()),
        chain_ok(inner.parents(), inner.pivot_chain@),
        0 <= x < inner.size(),
        are_epochs_to_compute(inner, x, hashes, fork),
    ensures
        fork + hashes.len() == depth(inner.parents(), x) + 1,
        hashes.last() == inner.nodes()[x].hash,
        0 <= i < hashes.len() ==> exists|a: int| #[trigger]
            ancestor(inner.parents(), a, x) && depth(inner.parents(), a) == fork + i
                && inner.nodes()[a].hash == hashes[i],
        exists|h: int|
            0 <= h < inner.pivot_chain@.len() && ancestor(
                inner.parents(),
                (#[trigger] inner.pivot_chain@[h]) as int,
                x,
            ) && hashes[0] == inner.nodes()[inner.pivot_chain@[h] as int].hash,
{
    let par = inner.parents();
    let chain = inner.pivot_chain@;
    let path = path_to(par, x);
    lemma_node(inner.nodes(), x);
    lemma_fork_place(inner, x);
    let top = depth(par, x) as int;
    lemma_path(par, x, top);
    lemma_ancestor_unique(par, x, x);
    assert(path.skip(fork).last() == path[top]);
    assert(hashes[hashes.len() - 1] == inner.nodes()[path[top] as int].hash);
    if 0 <= i < hashes.len() {
        lemma_path(par, x, fork + i);
        assert(path.skip(fork)[i] == path[fork + i]);
        assert(ancestor(par, path[fork + i] as int, x));
    }
    lemma_path(par, x, fork);
    lemma_chain_index(par, chain, fork);
    lemma_ancestor_unique(par, chain[fork] as int, x);
    assert(path.skip(fork)[0] == path[fork]);
    assert(hashes[0] == inner.nodes()[path[fork] as int].hash);
    assert(ancestor(par, chain[fork] as int, x));
}

/// The reward that falls due at a height can always be worked out up to height
/// twelve, and after that unless the epoch twelve heights below has a valid block
/// and its pivot block no difficulty.
pub proof fn lemma_payable_unless_difficulty_missing(
    inner: ConsensusGraphInner,
    chain: Seq<usize>,
    h: int,
)
    ensures
        h <= 12 ==> payable_at(inner, chain, h),
        h > 12 ==> (!payable_at(inner, chain, h) <==> {
            let paid = inner.nodes()[chain[h - 12] as int];
            &&& paid.difficulty.value() == 0
            &&& exists|j: int|
                0 <= j < paid.data.ordered_epoch_blocks@.len() && !inner.nodes()[
                #[trigger] paid.data.ordered_epoch_blocks@[j] as int].data.partial_invalid
        }),
{
}

/// Execution keeps up and does nothing twice: when the chain has changed from a
/// height on, exactly the epochs after the first block that are newly due are
/// executed, from the lowest up.
pub proof fn lemma_executed_exactly_once(
    inner: ConsensusGraphInner,
    fork: int,
    old_len: int,
    tasks: Seq<EpochExecutionTask>,
) -> (first: int)
    requires
        0 < fork <= old_len,
        are_tasks_for(
            inner,
            inner.pivot_chain@,
            state_start(fork, old_len),
            state_end(inner.pivot_chain@.len() as int),
            true,
            tasks,
        ),
    ensures
        first >= 1,
        forall|i: int|
            0 <= i < tasks.len() ==> {
                &&& (#[trigger] tasks[i]).epoch_hash == inner.nodes()[inner.pivot_chain@[first
                    + i] as int].hash
                &&& tasks[i].on_local_pivot
                &&& !tasks[i].debug_record
                &&& pays_twelve_below(inner, inner.pivot_chain@, first + i, tasks[i])
            },
        forall|e: int|
            e >= 1 ==> (#[trigger] newly_due(inner.pivot_chain@.len() as int, old_len, fork, e)
                <==> first <= e < first + tasks.len()),
{
    let first = state_start(fork, old_len);
    assert forall|i: int| 0 <= i < tasks.len() implies pays_twelve_below(
        inner,
        inner.pivot_chain@,
        first + i,
        #[trigger] tasks[i],
    ) by {
        lemma_task_for_height(inner, inner.pivot_chain@, first + i, true, false, tasks[i]);
    }
    first
}

/// The newest state that can be read is that of the last epoch at least five below
/// the length of the chain, or of the first block where there is none. It is the
/// last that has been executed.
pub proof fn lemma_newest_state(len: int, e: int)
    requires
        0 < len,
        0 <= e,
    ensures
        state_height(len) == last_state_height(len),
        len >= 5 ==> state_height(len) + 5 == len,
        len < 5 ==> state_height(len) == 0,
        e < state_end(len) <==> e + 5 <= len,
        len >= 5 ==> state_end(len) == state_height(len) + 1,
{
}

/// A child of the tip that is asked about its roots is asked for those of the
/// newest state that can be read.
pub proof fn lemma_next_block_names_newest_state(
    graph: ConsensusGraph,
    p: PendingBlock,
    target: Option<U256>,
    roots: Option<(H256, H256)>,
    hash: H256,
)
    requires
        graph.pending(p),
        chain_ok(graph.inner.parents(), graph.inner.pivot_chain@),
        graph.inner.nodes()[p.me as int].parent == graph.inner.pivot_chain@.last(),
        validity(graph, p, target, roots) == Validity::NeedsRoots(hash),
    ensures
        graph.inner.pivot_chain@.len() >= 5,
        hash == graph.inner.nodes()[graph.inner.pivot_chain@[state_height(
            graph.inner.pivot_chain@.len() as int,
        )] as int].hash,
{
    let par = graph.inner.parents();
    let chain = graph.inner.pivot_chain@;
    let me = p.me as int;
    let tip = chain.last() as int;
    lemma_roots_of_deferred_ancestor(graph, p, target, roots, hash);
    let a = choose|a: int| #[trigger]
        ancestor(par, a, me) && depth(par, a) + 5 == depth(par, me)
            && graph.inner.nodes()[a].hash == hash;
    lemma_node(graph.inner.nodes(), me);
    lemma_node(graph.inner.nodes(), tip);
    lemma_chain_index(par, chain, chain.len() - 1);
    let h = chain.len() - 5;
    lemma_chain_index(par, chain, h);
    assert(chain[chain.len() - 1] == tip);
    if h < chain.len() - 1 {
        assert(ancestor(par, chain[h] as int, tip));
    }
    lemma_ancestor_unique(par, chain[h] as int, tip);
    assert(par[me] == tip);
    assert(ancestor(par, chain[h] as int, me));
    lemma_ancestor_unique(par, chain[h] as int, me);
    lemma_ancestor_unique(par, a, me);
}

/// When a fully valid block has been settled, execution ahead of time goes on with
/// the first epoch that is not due: it lies less than five below the length of the
/// chain, and the one before does not. On a chain of less than five there is none.
pub proof fn lemma_ahead_of_due(
    before: ConsensusGraph,
    after: ConsensusGraph,
    p: PendingBlock,
    r: PivotUpdate,
)
    requires
        settled(before, after, p, true, r),
        after.inner.pivot_chain@.len() <= usize::MAX,
    ensures
        after.inner.optimistic_executed_height is Some <==> after.inner.pivot_chain@.len() >= 5,
        after.inner.optimistic_executed_height matches Some(h) ==> h + 5
            > after.inner.pivot_chain@.len() && h - 1 + 5 <= after.inner.pivot_chain@.len(),
{
}

/// The path to a block leaves the pivot chain after the last height at which the
/// two agree.
pub proof fn lemma_fork_place(inner: ConsensusGraphInner, x: int)
    requires
        links_ok(inner.nodes()),
        chain_ok(inner.parents(), inner.pivot_chain@),
        0 <= x < inner.size(),
    ensures
        ({
            let fork = fork_place(inner, x) as int;
            &&& fork <= depth(inner.parents(), x)
            &&& fork < inner.pivot_chain@.len()
            &&& ancestor(inner.parents(), inner.pivot_chain@[fork] as int, x)
            &&& forall|h: int|
                fork < h < inner.pivot_chain@.len() ==> !ancestor(
                    inner.parents(),
                    (#[trigger] inner.pivot_chain@[h]) as int,
                    x,
                )
        }),
{
    let par = inner.parents();
    let chain = inner.pivot_chain@;
    lemma_node(inner.nodes(), x);
    lemma_fork_greatest(chain, par, x, depth(par, x));
    let fork = fork_place(inner, x) as int;
    crate::dag::lemma_root_is_ancestor(par, x);
    lemma_ancestor_unique(par, 0, x);
    lemma_ancestor_at_depth(par, x, fork as nat);
    assert forall|h: int| fork < h < chain.len() implies !ancestor(
        par,
        (#[trigger] chain[h]) as int,
        x,
    ) by {
        if ancestor(par, chain[h] as int, x) {
            lemma_chain_index(par, chain, h);
            lemma_ancestor_depth(par, chain[h] as int, x);
            lemma_ancestor_unique(par, chain[h] as int, x);
        }
    }
}

proof fn lemma_fork_greatest(chain: Seq<usize>, par: Seq<usize>, x: int, h: nat)
    requires
        chain.len() > 0,
    ensures
        ({
            let fork = fork_from(chain, par, x, h);
            &&& fork <= h
            &&& fork < chain.len()
            &&& fork == 0 || chain[fork as int] == ancestor_at_depth(par, x, fork)
            &&& forall|k: int|
                fork < k <= h && k < chain.len() ==> #[trigger] chain[k] != ancestor_at_depth(
                    par,
                    x,
                    k as nat,
                )
        }),
    decreases h,
{
    if h > 0 && !(h < chain.len() && chain[h as int] == ancestor_at_depth(par, x, h)) {
        lemma_fork_greatest(chain, par, x, (h - 1) as nat);
    }
}

/// The epoch at a height of the path to a block is executed for its state: it lies
/// on the branch and has not been executed, or it lies on the pivot chain, is not
/// due yet, and the branch starts from executed epochs.
pub open spec fn needed_for_state(len: int, fork: int, start: int, h: int) -> bool {
    h >= fork + start || (start > 0 && h > 0 && h <= fork && h + 5 > len)
}

/// For the state of a block exactly the epochs of its path that it takes are
/// executed, from the lowest up, each once.
pub proof fn lemma_state_tasks(
    inner: ConsensusGraphInner,
    x: int,
    fork: int,
    start: int,
    tasks: Seq<EpochExecutionTask>,
) -> (heights: Seq<int>)
    requires
        links_ok(inner.nodes()),
        0 <= x < inner.size(),
        0 <= fork <= depth(inner.parents(), x),
        fork < inner.pivot_chain@.len(),
        0 <= start <= depth(inner.parents(), x) - fork + 1,
        are_state_tasks(inner, x, fork, start, tasks),
    ensures
        heights.len() == tasks.len(),
        forall|i: int, j: int|
            #![trigger heights[i], heights[j]]
            0 <= i < j < heights.len() ==> heights[i] < heights[j],
        forall|i: int|
            0 <= i < tasks.len() ==> {
                &&& 0 <= #[trigger] heights[i] <= depth(inner.parents(), x)
                &&& needed_for_state(inner.pivot_chain@.len() as int, fork, start, heights[i])
                &&& tasks[i].epoch_hash == inner.nodes()[ancestor_at_depth(
                    inner.parents(),
                    x,
                    heights[i] as nat,
                )].hash
                &&& !tasks[i].on_local_pivot
                &&& pays_twelve_below(
                    inner,
                    path_to(inner.parents(), x),
                    heights[i],
                    tasks[i],
                )
            },
        forall|h: int|
            0 <= h <= depth(inner.parents(), x) && needed_for_state(
                inner.pivot_chain@.len() as int,
                fork,
                start,
                h,
            ) ==> #[trigger] heights.contains(h),
{
    let par = inner.parents();
    let len = inner.pivot_chain@.len() as int;
    let path = path_to(par, x);
    lemma_node(inner.nodes(), x);
    let resume = if start != 0 {
        last_state_height(len) + 1
    } else {
        fork + 1
    };
    let first = if resume <= fork {
        fork + 1 - resume
    } else {
        0
    };
    let heights = Seq::new(
        tasks.len(),
        |i: int|
            if i < first {
                resume + i
            } else {
                fork + start + (i - first)
            },
    );
    assert forall|i: int| 0 <= i < tasks.len() implies {
        &&& 0 <= #[trigger] heights[i] <= depth(par, x)
        &&& needed_for_state(len, fork, start, heights[i])
        &&& tasks[i].epoch_hash == inner.nodes()[ancestor_at_depth(
            par,
            x,
            heights[i] as nat,
        )].hash
        &&& !tasks[i].on_local_pivot
        &&& pays_twelve_below(inner, path, heights[i], tasks[i])
    } by {
        if i < first {
            assert(tasks.take(first)[i] == tasks[i]);
        } else {
            assert(tasks.skip(first)[i - first] == tasks[i]);
        }
        lemma_path(par, x, heights[i]);
        lemma_task_for_height(inner, path, heights[i], false, false, tasks[i]);
    }
    assert forall|h: int| 0 <= h <= depth(par, x) && needed_for_state(len, fork, start, h) implies
        #[trigger] heights.contains(h) by {
        let i = if h >= fork + start {
            first + (h - fork - start)
        } else {
            h - resume
        };
        assert(heights[i] == h);
    }
    heights
}

/// The receipts of the epoch at a height are recorded in the header of the pivot
/// block five heights later, for every height from one on for which that block is
/// on the chain, and for no other.
pub proof fn lemma_receipts_recorded_later(
    inner: ConsensusGraphInner,
    records: Seq<ReceiptsRecord>,
    e: int,
)
    requires
        receipts_recorded(inner, inner.pivot_chain@, records),
    ensures
        1 <= e <= records.len() <==> 1 <= e && e + 5 < inner.pivot_chain@.len(),
        1 <= e <= records.len() ==> records[e - 1].epoch_hash
            == inner.nodes()[inner.pivot_chain@[e] as int].hash && records[e - 1].recorded_in
            == inner.nodes()[inner.pivot_chain@[e + 5] as int].hash,
{
}

} // verus!
