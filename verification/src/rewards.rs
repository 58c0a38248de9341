//! What the execution of an epoch needs to know of its rewards.

use vstd::prelude::*;
use std::collections::HashSet;
use crate::anticone::Region;
#[allow(unused_imports)]
use crate::anticone::{lemma_epoch_monotone, lemma_epoch_up_to};
use crate::arena::{dag_of, set_to_vec, ConsensusGraphNode};
use crate::bits::BlockSet;
#[allow(unused_imports)]
use crate::bits::index_limit;
use crate::config::{ConsensusInnerConfig, ANTICONE_PENALTY_RATIO,
    ANTICONE_PENALTY_UPPER_EPOCH_COUNT, REWARD_EPOCH_COUNT};
use crate::dag::Dag;
#[allow(unused_imports)]
use crate::dag::{lemma_reaches_antisymmetric, lemma_reaches_earlier, lemma_reaches_step,
    lemma_reaches_transitive};
use crate::model::{chain_ok, in_past, limits_ok, links_ok, past_weights_ok, total_cap, views_ok,
    weight_cap, weight_limit, weights};
#[allow(unused_imports)]
use crate::past::lemma_recorded_bounds;
use crate::state::ConsensusGraphInner;
#[allow(unused_imports)]
use crate::state::{lemma_masked_weight_bounds, lemma_node, lemma_weight_bounds};
use crate::sums::{masked, sum_along, sum_to};
#[allow(unused_imports)]
use crate::sums::{lemma_sum_added, lemma_sum_along_is_masked, lemma_sum_congruent,
    lemma_sum_single, lemma_sum_tail_zero};
use crate::types::{H256, U256};
use crate::wide::U512;
#[allow(unused_imports)]
use crate::wide::two_512;

verus! {

broadcast use vstd::std_specs::hash::group_hash_axioms;

/// The rewards of the blocks of an epoch: which blocks, whether the anticone of
/// a block is over the limit, and how much the anticone weighs.
pub struct RewardExecutionInfo {
    pub epoch_blocks: Vec<H256>,
    pub epoch_block_anticone_overlimited: Vec<bool>,
    pub epoch_block_anticone_difficulties: Vec<U512>,
}

/// An epoch to execute.
pub struct EpochExecutionTask {
    pub epoch_hash: H256,
    pub epoch_block_hashes: Vec<H256>,
    pub reward_info: Option<RewardExecutionInfo>,
    pub on_local_pivot: bool,
    pub debug_record: bool,
}

/// `y` is in the view of `cutoff` and unrelated to `x`.
pub open spec fn in_anticone_until(g: Dag, x: int, cutoff: int) -> spec_fn(int) -> bool {
    |y: int| g.reaches(cutoff, y) && g.unrelated(x, y)
}

/// The weight of the anticone of `x` in the view of `cutoff`.
pub open spec fn anticone_weight(
    conf: ConsensusInnerConfig,
    nodes: Seq<ConsensusGraphNode>,
    x: int,
    cutoff: int,
) -> int {
    sum_to(
        masked(in_anticone_until(dag_of(nodes), x, cutoff), weights(conf, nodes)),
        nodes.len(),
    )
}

/// The hashes of the blocks of the epoch of `x`, in order.
pub open spec fn epoch_hashes(nodes: Seq<ConsensusGraphNode>, x: int) -> Seq<H256> {
    nodes[x].data.ordered_epoch_blocks@.map_values(|i: usize| nodes[i as int].hash)
}

/// What the rewards say of one block of the epoch of `pivot`.
pub open spec fn reward_of(
    conf: ConsensusInnerConfig,
    nodes: Seq<ConsensusGraphNode>,
    pivot: int,
    cutoff: int,
    x: int,
    overlimited: bool,
    difficulty: U512,
) -> bool {
    let weight = anticone_weight(conf, nodes, x, cutoff);
    if nodes[x].data.partial_invalid {
        overlimited && difficulty.value() == 0
    } else {
        &&& difficulty.value() == weight
        &&& overlimited == (weight / nodes[pivot].difficulty.value() >= ANTICONE_PENALTY_RATIO)
    }
}

/// The rewards of the epoch of `pivot` when the anticones are cut off at
/// `cutoff`.
pub open spec fn is_reward_info(
    conf: ConsensusInnerConfig,
    nodes: Seq<ConsensusGraphNode>,
    pivot: int,
    cutoff: int,
    info: RewardExecutionInfo,
) -> bool {
    let list = nodes[pivot].data.ordered_epoch_blocks@;
    &&& info.epoch_blocks@ == epoch_hashes(nodes, pivot)
    &&& info.epoch_block_anticone_overlimited@.len() == list.len()
    &&& info.epoch_block_anticone_difficulties@.len() == list.len()
    &&& forall|j: int|
        0 <= j < list.len() ==> reward_of(
            conf,
            nodes,
            pivot,
            cutoff,
            (#[trigger] list[j]) as int,
            info.epoch_block_anticone_overlimited@[j],
            info.epoch_block_anticone_difficulties@[j],
        )
}

/// The pivot block whose epoch is rewarded with the state at `state_at` of the
/// chain, and the pivot block that cuts the anticones off.
pub open spec fn reward_index(chain: Seq<usize>, state_at: int) -> Option<(usize, usize)> {
    if state_at > REWARD_EPOCH_COUNT {
        let epoch = state_at - REWARD_EPOCH_COUNT;
        Some((chain[epoch], chain[epoch + ANTICONE_PENALTY_UPPER_EPOCH_COUNT]))
    } else {
        None
    }
}

/// Rewards can be worked out for the epoch of `x`: its difficulty is a divisor,
/// unless no block of the epoch is paid.
pub open spec fn payable(inner: ConsensusGraphInner, x: int) -> bool {
    let list = inner.nodes()[x].data.ordered_epoch_blocks@;
    inner.nodes()[x].difficulty.value() != 0 || forall|j: int|
        0 <= j < list.len() ==> inner.nodes()[#[trigger] list[j] as int].data.partial_invalid
}

/// The reward that falls due at a height of a chain can be worked out.
pub open spec fn payable_at(inner: ConsensusGraphInner, chain: Seq<usize>, height: int) -> bool {
    height > REWARD_EPOCH_COUNT ==> payable(inner, chain[height - REWARD_EPOCH_COUNT] as int)
}

/// Rewards can be worked out for a pivot block and the block up to which its
/// anticone counts.
pub open spec fn rewardable(inner: ConsensusGraphInner, index: Option<(usize, usize)>) -> bool {
    index matches Some(r) ==> {
        &&& r.0 < inner.size()
        &&& r.1 < inner.size()
        &&& inner.dag().reaches(r.1 as int, r.0 as int)
        &&& payable(inner, r.0 as int)
    }
}

/// On a chain, it takes a payable epoch and no more.
pub proof fn lemma_rewardable(inner: ConsensusGraphInner, chain: Seq<usize>, height: int)
    requires
        links_ok(inner.nodes()),
        chain_ok(inner.parents(), chain),
        0 <= height < chain.len(),
        payable_at(inner, chain, height),
    ensures
        rewardable(inner, reward_index(chain, height)),
{
    if height > REWARD_EPOCH_COUNT {
        let epoch = height - REWARD_EPOCH_COUNT;
        let cutoff = epoch + ANTICONE_PENALTY_UPPER_EPOCH_COUNT;
        assert(chain[epoch] < inner.parents().len());
        assert(chain[cutoff] < inner.parents().len());
        lemma_node(inner.nodes(), 0);
        crate::anticone::lemma_chain_sees(inner.dag(), chain, epoch, cutoff);
    }
}

/// The rewards for an index, or none.
pub open spec fn is_reward_for(
    inner: ConsensusGraphInner,
    index: Option<(usize, usize)>,
    info: Option<RewardExecutionInfo>,
) -> bool {
    match index {
        Some(r) => info matches Some(i) && is_reward_info(
            inner.inner_conf,
            inner.nodes(),
            r.0 as int,
            r.1 as int,
            i,
        ),
        None => info is None,
    }
}

/// A task to execute the epoch of `x`.
pub open spec fn is_task_for(
    inner: ConsensusGraphInner,
    x: int,
    index: Option<(usize, usize)>,
    on_local_pivot: bool,
    debug_record: bool,
    task: EpochExecutionTask,
) -> bool {
    &&& task.epoch_hash == inner.nodes()[x].hash
    &&& task.epoch_block_hashes@ == epoch_hashes(inner.nodes(), x)
    &&& is_reward_for(inner, index, task.reward_info)
    &&& task.on_local_pivot == on_local_pivot
    &&& task.debug_record == debug_record
}

/// In the view of `cutoff`, which sees `x`, every block is in the past of `x`,
/// sees `x` or is unrelated to it: what the anticone of `x` weighs is what is left
/// of the view when its past and the blocks that see it are taken away.
pub proof fn lemma_view_parts(
    conf: ConsensusInnerConfig,
    nodes: Seq<ConsensusGraphNode>,
    x: int,
    cutoff: int,
)
    requires
        links_ok(nodes),
        0 <= x < nodes.len(),
        0 <= cutoff < nodes.len(),
        dag_of(nodes).reaches(cutoff, x),
        past_weights_ok(conf, nodes, nodes.len()),
    ensures
        nodes[cutoff].past_weight + weights(conf, nodes)(cutoff) == nodes[x].past_weight
            + anticone_weight(conf, nodes, x, cutoff) + sum_to(
            masked(
                |y: int| dag_of(nodes).reaches(cutoff, y) && dag_of(nodes).reaches(y, x),
                weights(conf, nodes),
            ),
            nodes.len(),
        ),
{
    let g = dag_of(nodes);
    let n = nodes.len();
    let w = weights(conf, nodes);
    lemma_node(nodes, x);
    let view = |y: int| g.reaches(cutoff, y);
    let at = |y: int| y == cutoff;
    let pc = in_past(g, cutoff);
    let px = in_past(g, x);
    let un = in_anticone_until(g, x, cutoff);
    let up = |y: int| g.reaches(cutoff, y) && g.reaches(y, x);
    assert forall|i: int| 0 <= i < n implies #[trigger] masked(view, w)(i) == masked(pc, w)(i)
        + masked(at, w)(i) by {}
    lemma_sum_added(masked(pc, w), masked(at, w), masked(view, w), n);
    lemma_sum_single(masked(at, w), n, cutoff);
    assert forall|i: int| cutoff <= i < n implies #[trigger] masked(pc, w)(i) == 0 by {
        if g.reaches(cutoff, i) {
            lemma_reaches_earlier(g, cutoff, i);
        }
    }
    lemma_sum_tail_zero(masked(pc, w), cutoff as nat, n);
    let rest = |i: int| masked(un, w)(i) + masked(up, w)(i);
    assert forall|i: int| 0 <= i < n implies #[trigger] masked(view, w)(i) == masked(px, w)(i)
        + rest(i) by {
        if g.reaches(x, i) {
            lemma_reaches_transitive(g, cutoff, x, i);
        }
        if g.reaches(x, i) && g.reaches(i, x) {
            lemma_reaches_antisymmetric(g, x, i);
        }
    }
    lemma_sum_added(masked(px, w), rest, masked(view, w), n);
    lemma_sum_added(masked(un, w), masked(up, w), rest, n);
    assert forall|i: int| x <= i < n implies #[trigger] masked(px, w)(i) == 0 by {
        if g.reaches(x, i) {
            lemma_reaches_earlier(g, x, i);
        }
    }
    lemma_sum_tail_zero(masked(px, w), x as nat, n);
    reveal(past_weights_ok);
    assert(nodes[cutoff].past_weight == sum_to(masked(pc, w), cutoff as nat));
    assert(nodes[x].past_weight == sum_to(masked(px, w), x as nat));
}

/// The next epoch to execute ahead of the deferred boundary was handed out, if
/// optimistic execution is on and there was one.
pub open spec fn handed_out(
    before: ConsensusGraphInner,
    after: ConsensusGraphInner,
    task: Option<EpochExecutionTask>,
) -> bool {
    let chain = before.pivot_chain@;
    let at = before.optimistic_executed_height->Some_0;
    &&& task is Some <==> before.inner_conf.enable_optimistic_execution
        && before.optimistic_executed_height is Some
    &&& task matches Some(t) ==> is_task_for(
        before,
        chain[at as int] as int,
        reward_index(chain, at as int),
        true,
        false,
        t,
    )
    &&& after == (ConsensusGraphInner {
        optimistic_executed_height: (match task {
            Some(_) => if at + 1 < chain.len() {
                Some((at + 1) as usize)
            } else {
                None
            },
            None => before.optimistic_executed_height,
        }),
        ..before
    })
}

/// With optimistic execution on and everything executed up to the height `k`, the
/// pivot blocks from `k` on are handed out one after the other, each once, and
/// then nothing more. Nothing changes but the height.
pub proof fn lemma_handed_out_in_order(
    states: Seq<ConsensusGraphInner>,
    tasks: Seq<Option<EpochExecutionTask>>,
    k: usize,
)
    requires
        states.len() == tasks.len() + 1,
        forall|i: int|
            #![trigger tasks[i]]
            0 <= i < tasks.len() ==> handed_out(states[i], states[i + 1], tasks[i]),
        states[0].inner_conf.enable_optimistic_execution,
        states[0].optimistic_executed_height == Some(k),
        k < states[0].pivot_chain@.len(),
    ensures
        forall|i: int|
            0 <= i < states.len() ==> #[trigger] states[i] == (ConsensusGraphInner {
                optimistic_executed_height: (if k + i < states[0].pivot_chain@.len() {
                    Some((k + i) as usize)
                } else {
                    None
                }),
                ..states[0]
            }),
        forall|i: int|
            0 <= i < tasks.len() ==> ((#[trigger] tasks[i]) is Some <==> k + i
                < states[0].pivot_chain@.len()),
        forall|i: int|
            0 <= i < tasks.len() && k + i < states[0].pivot_chain@.len() ==> is_task_for(
                states[0],
                states[0].pivot_chain@[k + i] as int,
                reward_index(states[0].pivot_chain@, k + i),
                true,
                false,
                (#[trigger] tasks[i])->Some_0,
            ),
    decreases tasks.len(),
{
    if tasks.len() > 0 {
        let n = tasks.len() - 1;
        let s = states.drop_last();
        let t = tasks.drop_last();
        assert forall|i: int| #![trigger t[i]] 0 <= i < t.len() implies handed_out(
            s[i],
            s[i + 1],
            t[i],
        ) by {
            assert(t[i] == tasks[i]);
        }
        lemma_handed_out_in_order(s, t, k);
        assert(s[n] == states[n]);
        assert(handed_out(states[n], states[n + 1], tasks[n]));
        assert(states[0].pivot_chain.len() == states[0].pivot_chain@.len());
        assert(states[n] == (ConsensusGraphInner {
            optimistic_executed_height: states[n].optimistic_executed_height,
            ..states[0]
        }));
        assert(states[n].nodes() == states[0].nodes());
        assert forall|i: int| 0 <= i < states.len() implies #[trigger] states[i] == (
        ConsensusGraphInner {
            optimistic_executed_height: (if k + i < states[0].pivot_chain@.len() {
                Some((k + i) as usize)
            } else {
                None
            }),
            ..states[0]
        }) by {
            if i < s.len() {
                assert(s[i] == states[i]);
            }
        }
        assert forall|i: int|
            0 <= i < tasks.len() && k + i < states[0].pivot_chain@.len() implies is_task_for(
            states[0],
            states[0].pivot_chain@[k + i] as int,
            reward_index(states[0].pivot_chain@, k + i),
            true,
            false,
            (#[trigger] tasks[i])->Some_0,
        ) by {
            if i < n {
                assert(t[i] == tasks[i]);
            }
        }
        assert forall|i: int| 0 <= i < tasks.len() implies ((#[trigger] tasks[i]) is Some <==> k
            + i < states[0].pivot_chain@.len()) by {
            if i < n {
                assert(t[i] == tasks[i]);
            }
        }
    }
}

impl ConsensusGraphInner {
    /// The hashes of the blocks of an epoch.
    pub fn get_epoch_block_hashes(&self, epoch_index: usize) -> (hashes: Vec<H256>)
        requires
            self.readable(),
            epoch_index < self.size(),
        ensures
            hashes@ == epoch_hashes(self.nodes(), epoch_index as int),
    {
        let ghost nodes = self.nodes();
        let ghost list = nodes[epoch_index as int].data.ordered_epoch_blocks@;
        let mut hashes: Vec<H256> = Vec::new();
        let mut j: usize = 0;
        while j < self.arena.get(epoch_index).data.ordered_epoch_blocks.len()
            invariant
                self.readable(),
                nodes == self.nodes(),
                epoch_index < nodes.len(),
                list == nodes[epoch_index as int].data.ordered_epoch_blocks@,
                j <= list.len(),
                hashes@.len() == j,
                forall|i: int| 0 <= i < j ==> #[trigger] hashes@[i] == nodes[list[i] as int].hash,
            decreases list.len() - j,
        {
            let x: usize = self.arena.get(epoch_index).data.ordered_epoch_blocks[j];
            proof {
                self.lemma_epoch_member(epoch_index as int, j as int);
            }
            hashes.push(self.arena.get(x).hash);
            j = j + 1;
        }
        assert(hashes@ =~= epoch_hashes(nodes, epoch_index as int));
        hashes
    }

    /// A block of an epoch is in the view of the pivot block.
    pub proof fn lemma_epoch_member(&self, x: int, j: int)
        requires
            links_ok(self.nodes()),
            views_ok(self.nodes(), self.size()),
            0 <= x < self.size(),
            0 <= j < self.nodes()[x].data.ordered_epoch_blocks@.len(),
        ensures
            self.nodes()[x].data.ordered_epoch_blocks@[j] <= x,
            self.dag().reaches(x, self.nodes()[x].data.ordered_epoch_blocks@[j] as int),
    {
        reveal(views_ok);
        let list = self.nodes()[x].data.ordered_epoch_blocks@;
        assert(crate::model::epoch_list_ok(self.dag(), x, list));
        assert(list.contains(list[j]));
        lemma_node(self.nodes(), x);
        lemma_reaches_earlier(self.dag(), x, list[j] as int);
    }

    /// The pivot block whose epoch is rewarded with the state at `state_at` of
    /// the chain, and the one that cuts the anticones off.
    pub fn get_pivot_reward_index(&self, state_at: usize, chain: &Vec<usize>) -> (index: Option<
        (usize, usize),
    >)
        requires
            state_at > REWARD_EPOCH_COUNT ==> state_at - (REWARD_EPOCH_COUNT
                - ANTICONE_PENALTY_UPPER_EPOCH_COUNT) < chain@.len(),
        ensures
            index == reward_index(chain@, state_at as int),
    {
        if state_at > REWARD_EPOCH_COUNT as usize {
            let epoch: usize = state_at - REWARD_EPOCH_COUNT as usize;
            let cutoff: usize = epoch + ANTICONE_PENALTY_UPPER_EPOCH_COUNT as usize;
            Some((chain[epoch], chain[cutoff]))
        } else {
            None
        }
    }

    /// The weight of the anticone of `me` in the view of a pivot block that
    /// sees it, by searching the graph.
    pub fn recompute_anticone_weight(&self, me: usize, pivot_block_index: usize) -> (weight: i128)
        requires
            self.readable(),
            me < self.size(),
            pivot_block_index < self.size(),
            self.dag().reaches(pivot_block_index as int, me as int),
        ensures
            weight == anticone_weight(
                self.inner_conf,
                self.nodes(),
                me as int,
                pivot_block_index as int,
            ),
            0 <= weight <= total_cap(self.inner_conf, self.nodes()),
    {
        let ghost conf = self.inner_conf;
        let ghost nodes = self.nodes();
        let ghost g = self.dag();
        let ghost chain = self.pivot_chain@;
        let ghost n = nodes.len();
        let ghost w = weights(conf, nodes);
        let ghost cutoff = pivot_block_index as int;
        proof {
            lemma_node(nodes, me as int);
        }
        let last_pivot: usize = self.arena.get(me).last_pivot_in_past;
        let region = Region::AfterEpoch(last_pivot);
        proof {
            assert(nodes[me as int].last_pivot_in_past == last_pivot);
            assert forall|a: int, b: int|
                #[trigger] g.edge(a, b) && !region.holds(nodes, a) implies !region.holds(
                nodes,
                b,
            ) by {
                lemma_reaches_step(g, a, b, b);
                lemma_epoch_monotone(nodes, chain, a, b);
                lemma_node(nodes, a);
            }
        }
        let visited: BlockSet = self.past_within(pivot_block_index, &region);
        proof {
            assert forall|z: int|
                0 <= z < n && g.reaches(z, me as int) && z != me implies region.holds(
                nodes,
                z,
            ) by {
                lemma_epoch_up_to(nodes, chain, z, last_pivot as int);
                if !region.holds(nodes, z) {
                    lemma_reaches_transitive(g, me as int, chain[last_pivot as int] as int, z);
                    lemma_reaches_antisymmetric(g, me as int, z);
                }
            }
            assert forall|x: int, z: int|
                visited@.contains(x) && #[trigger] g.reaches(x, z) && g.reaches(z, me as int) && z
                    != me implies visited@.contains(z) by {
                lemma_reaches_transitive(g, cutoff, x, z);
                lemma_reaches_earlier(g, cutoff, z);
            }
        }
        let visited2: BlockSet = self.future_within(me, Some(&visited));
        let items: Vec<usize> = visited2.to_vec();
        let ghost up = |y: int| g.reaches(cutoff, y) && g.reaches(y, me as int);
        proof {
            assert forall|x: int| 0 <= x < n implies (#[trigger] visited2@.contains(x) <==> up(
                x,
            )) by {
                assert(visited@.contains(x) <==> x == cutoff || (g.reaches(cutoff, x)
                    && region.holds(nodes, x)));
            }
            visited2.lemma_members_bounded();
            assert forall|j: int| 0 <= j < items@.len() implies (#[trigger] items@[j]) < n by {
                assert(visited2@.contains(items@[j] as int));
            }
            lemma_recorded_bounds(conf, nodes, n, cutoff);
            lemma_recorded_bounds(conf, nodes, n, me as int);
            lemma_weight_bounds(conf, nodes, cutoff);
            lemma_view_parts(conf, nodes, me as int, cutoff);
            assert forall|i: int| 0 <= i < n implies 0 <= #[trigger] w(i) <= weight_cap(conf)(
                nodes[i],
            ) by {
                lemma_weight_bounds(conf, nodes, i);
            }
        }
        let mut total: i128 = self.arena.get(pivot_block_index).past_weight - self.arena.get(
            me,
        ).past_weight + self.block_weight(pivot_block_index, false);
        let ghost whole = total as int;
        let mut j: usize = 0;
        while j < items.len()
            invariant
                self.arena.wf(),
                nodes == self.nodes(),
                conf == self.inner_conf,
                limits_ok(conf, nodes),
                n == nodes.len(),
                n <= usize::MAX,
                w == weights(conf, nodes),
                -weight_limit() <= whole <= 3 * weight_limit(),
                j <= items@.len(),
                items@.no_duplicates(),
                forall|i: int| 0 <= i < items@.len() ==> (#[trigger] items@[i]) < n,
                forall|i: int| 0 <= i < n ==> 0 <= #[trigger] w(i) <= weight_cap(conf)(nodes[i]),
                total == whole - sum_along(w, items@.take(j as int)),
            decreases items@.len() - j,
        {
            let x: usize = items[j];
            proof {
                assert(items@[j as int] < n);
                let t = items@.take(j as int);
                assert forall|i: int| 0 <= i < t.len() implies (#[trigger] t[i]) < n by {
                    assert(t[i] == items@[i]);
                }
                lemma_sum_along_is_masked(w, t, n);
                lemma_masked_weight_bounds(
                    conf,
                    nodes,
                    |i: int| t.contains(i as usize) && 0 <= i < n,
                    w,
                    n,
                );
                let u = items@.take(j + 1);
                assert(u.drop_last() =~= t);
                assert(u.last() == x);
                lemma_weight_bounds(conf, nodes, x as int);
            }
            total = total - self.block_weight(x, false);
            j = j + 1;
        }
        proof {
            assert(items@.take(items@.len() as int) =~= items@);
            lemma_sum_along_is_masked(w, items@, n);
            let m = masked(|i: int| items@.contains(i as usize) && 0 <= i < n, w);
            assert forall|i: int| 0 <= i < n implies #[trigger] m(i) == masked(up, w)(i) by {
                lemma_node(nodes, i);
                assert(visited2@.contains(i) <==> up(i));
                assert(visited2@.contains(i) <==> 0 <= i < index_limit() && items@.contains(
                    i as usize,
                ));
            }
            lemma_sum_congruent(m, masked(up, w), n);
            lemma_masked_weight_bounds(
                conf,
                nodes,
                in_anticone_until(g, me as int, cutoff),
                w,
                n,
            );
        }
        total
    }

    /// The weight of the blocks that are in the first set and not in the second.
    fn difference_weight(&self, own: &HashSet<usize>, cut: &HashSet<usize>) -> (weight: U512)
        requires
            self.arena.wf(),
            links_ok(self.nodes()),
            limits_ok(self.inner_conf, self.nodes()),
            forall|y: usize| #[trigger] own@.contains(y) ==> y < self.size(),
        ensures
            weight.value() == sum_to(
                masked(
                    |y: int| own@.contains(y as usize) && !cut@.contains(y as usize),
                    weights(self.inner_conf, self.nodes()),
                ),
                self.size(),
            ),
    {
        let ghost conf = self.inner_conf;
        let ghost nodes = self.nodes();
        let ghost n = nodes.len();
        let ghost kept = |y: int| !cut@.contains(y as usize);
        let ghost f = masked(kept, weights(conf, nodes));
        let items: Vec<usize> = set_to_vec(own);
        let mut total = U512::zero();
        let mut j: usize = 0;
        proof {
            assert(n <= usize::MAX) by {
                reveal(links_ok);
            }
            assert forall|i: int| 0 <= i < items@.len() implies (#[trigger] items@[i]) < n by {
                assert(items@.contains(items@[i]));
            }
            assert forall|i: int| 0 <= i < n implies 0 <= #[trigger] f(i) <= weight_cap(conf)(
                nodes[i],
            ) by {
                lemma_weight_bounds(conf, nodes, i);
            }
        }
        while j < items.len()
            invariant
                self.arena.wf(),
                nodes == self.nodes(),
                conf == self.inner_conf,
                limits_ok(conf, nodes),
                n == nodes.len(),
                n <= usize::MAX,
                kept == (|y: int| !cut@.contains(y as usize)),
                f == masked(kept, weights(conf, nodes)),
                j <= items@.len(),
                items@.no_duplicates(),
                forall|i: int| 0 <= i < items@.len() ==> (#[trigger] items@[i]) < n,
                forall|i: int| 0 <= i < n ==> 0 <= #[trigger] f(i) <= weight_cap(conf)(nodes[i]),
                total.value() == sum_along(f, items@.take(j as int)),
            decreases items@.len() - j,
        {
            let x: usize = items[j];
            proof {
                assert(items@[j as int] < n);
                let t = items@.take(j as int);
                assert forall|i: int| 0 <= i < t.len() implies (#[trigger] t[i]) < n by {
                    assert(t[i] == items@[i]);
                }
                lemma_sum_along_is_masked(f, t, n);
                lemma_masked_weight_bounds(
                    conf,
                    nodes,
                    |i: int| t.contains(i as usize) && 0 <= i < n,
                    f,
                    n,
                );
                let u = items@.take(j + 1);
                assert(u.drop_last() =~= t);
                assert(u.last() == x);
                lemma_weight_bounds(conf, nodes, x as int);
                lemma_room_in_512();
            }
            if !cut.contains(&x) {
                let w: i128 = self.block_weight(x, false);
                total = total.plus(&U512::from_u256(&U256::from_weight(w)));
            }
            j = j + 1;
        }
        proof {
            assert(items@.take(items@.len() as int) =~= items@);
            lemma_sum_along_is_masked(f, items@, n);
            let m = masked(|i: int| items@.contains(i as usize) && 0 <= i < n, f);
            let stated = masked(
                |y: int| own@.contains(y as usize) && !cut@.contains(y as usize),
                weights(conf, nodes),
            );
            assert forall|i: int| 0 <= i < n implies #[trigger] m(i) == stated(i) by {
                assert(items@.contains(i as usize) <==> own@.contains(i as usize));
            }
            lemma_sum_congruent(m, stated, n);
        }
        total
    }

    /// The weight of the anticone of a block in the view of `cutoff`: from the
    /// cached anticones of both, or by searching the graph.
    fn anticone_difficulty(&self, index: usize, cutoff: usize) -> (difficulty: U512)
        requires
            self.readable(),
            index < self.size(),
            cutoff < self.size(),
            self.dag().reaches(cutoff as int, index as int),
        ensures
            difficulty.value() == anticone_weight(
                self.inner_conf,
                self.nodes(),
                index as int,
                cutoff as int,
            ),
    {
        let ghost conf = self.inner_conf;
        let ghost nodes = self.nodes();
        let ghost g = self.dag();
        let ghost n = nodes.len();
        match (self.anticone_cache.get(index), self.anticone_cache.get(cutoff)) {
            (Some(own), Some(cut)) => {
                proof {
                    let stated = masked(
                        in_anticone_until(g, index as int, cutoff as int),
                        weights(conf, nodes),
                    );
                    let summed = masked(
                        |y: int| own@.contains(y as usize) && !cut@.contains(y as usize),
                        weights(conf, nodes),
                    );
                    assert forall|y: int| 0 <= y < n implies #[trigger] summed(y) == stated(y) by {
                        lemma_node(nodes, y);
                        assert(own@.contains(y as usize) <==> y < n && g.unrelated(
                            index as int,
                            y,
                        ));
                        assert(cut@.contains(y as usize) <==> y < n && g.unrelated(
                            cutoff as int,
                            y,
                        ));
                        if g.reaches(y, cutoff as int) {
                            lemma_reaches_transitive(g, y, cutoff as int, index as int);
                        }
                    }
                    lemma_sum_congruent(summed, stated, n);
                }
                self.difference_weight(own, cut)
            },
            _ => {
                let w: i128 = self.recompute_anticone_weight(index, cutoff);
                U512::from_u256(&U256::from_weight(w))
            },
        }
    }

    /// The rewards of an epoch.
    pub fn get_reward_execution_info_from_index(
        &self,
        reward_index: Option<(usize, usize)>,
    ) -> (info: Option<RewardExecutionInfo>)
        requires
            self.readable(),
            rewardable(*self, reward_index),
        ensures
            is_reward_for(*self, reward_index, info),
    {
        let (pivot, cutoff) = match reward_index {
            Some(r) => r,
            None => {
                return None;
            },
        };
        let ghost conf = self.inner_conf;
        let ghost nodes = self.nodes();
        let ghost g = self.dag();
        let ghost list = nodes[pivot as int].data.ordered_epoch_blocks@;
        let epoch_blocks: Vec<H256> = self.get_epoch_block_hashes(pivot);
        let epoch_difficulty = U512::from_u256(&self.arena.get(pivot).difficulty);
        let mut overlimited: Vec<bool> = Vec::new();
        let mut difficulties: Vec<U512> = Vec::new();
        let mut j: usize = 0;
        while j < self.arena.get(pivot).data.ordered_epoch_blocks.len()
            invariant
                self.readable(),
                conf == self.inner_conf,
                nodes == self.nodes(),
                g == self.dag(),
                pivot < nodes.len(),
                cutoff < nodes.len(),
                g.reaches(cutoff as int, pivot as int),
                list == nodes[pivot as int].data.ordered_epoch_blocks@,
                epoch_difficulty.value() == nodes[pivot as int].difficulty.value(),
                epoch_difficulty.value() != 0 || forall|i: int|
                    0 <= i < list.len() ==> nodes[#[trigger] list[i] as int].data.partial_invalid,
                j <= list.len(),
                overlimited@.len() == j,
                difficulties@.len() == j,
                forall|i: int|
                    0 <= i < j ==> reward_of(
                        conf,
                        nodes,
                        pivot as int,
                        cutoff as int,
                        (#[trigger] list[i]) as int,
                        overlimited@[i],
                        difficulties@[i],
                    ),
            decreases list.len() - j,
        {
            let index: usize = self.arena.get(pivot).data.ordered_epoch_blocks[j];
            proof {
                self.lemma_epoch_member(pivot as int, j as int);
                assert(list[j as int] == index);
                lemma_reaches_transitive(g, cutoff as int, pivot as int, index as int);
            }
            let mut over: bool = self.arena.get(index).data.partial_invalid;
            let mut difficulty = U512::zero();
            if !over {
                difficulty = self.anticone_difficulty(index, cutoff);
                if difficulty.over(&epoch_difficulty).at_least(
                    &U512::from_u64(ANTICONE_PENALTY_RATIO),
                ) {
                    over = true;
                }
            }
            let ghost over_before = overlimited@;
            let ghost difficulties_before = difficulties@;
            overlimited.push(over);
            difficulties.push(difficulty);
            j = j + 1;
            proof {
                assert forall|i: int| 0 <= i < j implies reward_of(
                    conf,
                    nodes,
                    pivot as int,
                    cutoff as int,
                    (#[trigger] list[i]) as int,
                    overlimited@[i],
                    difficulties@[i],
                ) by {
                    if i < j - 1 {
                        assert(overlimited@[i] == over_before[i]);
                        assert(difficulties@[i] == difficulties_before[i]);
                    }
                }
            }
        }
        Some(
            RewardExecutionInfo {
                epoch_blocks,
                epoch_block_anticone_overlimited: overlimited,
                epoch_block_anticone_difficulties: difficulties,
            },
        )
    }

    /// The rewards that come with the state at `state_at` of the chain.
    pub fn get_reward_execution_info(&self, state_at: usize, chain: &Vec<usize>) -> (info: Option<
        RewardExecutionInfo,
    >)
        requires
            self.readable(),
            state_at > REWARD_EPOCH_COUNT ==> state_at - (REWARD_EPOCH_COUNT
                - ANTICONE_PENALTY_UPPER_EPOCH_COUNT) < chain@.len(),
            rewardable(*self, reward_index(chain@, state_at as int)),
        ensures
            is_reward_for(*self, reward_index(chain@, state_at as int), info),
    {
        self.get_reward_execution_info_from_index(self.get_pivot_reward_index(state_at, chain))
    }

    /// The next epoch to execute ahead of the deferred boundary, if optimistic
    /// execution is on and there is one.
    pub fn get_optimistic_execution_task(&mut self) -> (task: Option<EpochExecutionTask>)
        requires
            old(self).wf(),
            old(self).optimistic_executed_height matches Some(h) ==> h
                < old(self).pivot_chain@.len() && payable_at(
                *old(self),
                old(self).pivot_chain@,
                h as int,
            ),
        ensures
            final(self).wf(),
            handed_out(*old(self), *final(self), task),
    {
        if !self.inner_conf.enable_optimistic_execution {
            return None;
        }
        let opt_height: usize = match self.optimistic_executed_height {
            Some(h) => h,
            None => {
                return None;
            },
        };
        let epoch_index: usize = self.pivot_chain[opt_height];
        assert(self.pivot_chain@[opt_height as int] < self.parents().len());
        proof {
            lemma_rewardable(*self, self.pivot_chain@, opt_height as int);
        }
        let task = EpochExecutionTask {
            epoch_hash: self.arena.get(epoch_index).hash,
            epoch_block_hashes: self.get_epoch_block_hashes(epoch_index),
            reward_info: self.get_reward_execution_info(opt_height, &self.pivot_chain),
            on_local_pivot: true,
            debug_record: false,
        };
        let len: usize = self.pivot_chain.len();
        let next: usize = opt_height + 1;
        if next >= len {
            self.optimistic_executed_height = None;
        } else {
            self.optimistic_executed_height = Some(next);
        }
        Some(task)
    }
}

/// Two weights fit 512 bits.
proof fn lemma_room_in_512()
    ensures
        2 * weight_limit() < two_512(),
{
    let m = crate::types::two_128();
    assert(2 * weight_limit() < m * m * m * m) by (nonlinear_arith)
        requires
            m == 0x1_0000_0000_0000_0000_0000_0000_0000_0000int,
            weight_limit() == 0x100_0000_0000_0000_0000_0000_0000_0000,
    ;
}

} // verus!
