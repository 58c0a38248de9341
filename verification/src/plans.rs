//! Which epochs to execute, and in which order.

use vstd::prelude::*;
use crate::config::{ANTICONE_PENALTY_UPPER_EPOCH_COUNT, DEFERRED_STATE_EPOCH_COUNT,
    REWARD_EPOCH_COUNT};
use crate::dag::{ancestor, ancestor_at_depth, depth, NULL};
#[allow(unused_imports)]
use crate::dag::{lemma_ancestor_at_depth, lemma_ancestor_is_reached, lemma_ancestor_unique,
    lemma_ancestors_chain};
use crate::model::{chain_ok, links_ok};
use crate::rewards::{is_task_for, payable, payable_at, reward_index, EpochExecutionTask};
use crate::state::ConsensusGraphInner;
#[allow(unused_imports)]
use crate::rewards::lemma_rewardable;
#[allow(unused_imports)]
use crate::state::{lemma_depth_bounded, lemma_node};
use crate::types::H256;

verus! {

/// The path from the first block to `x`, one block for each height.
pub open spec fn path_to(par: Seq<usize>, x: int) -> Seq<usize> {
    Seq::new(depth(par, x) + 1, |h: int| ancestor_at_depth(par, x, h as nat) as usize)
}

/// A binary search for the first epoch of a chain that has not been executed.
/// Whoever knows what was executed answers its probes.
pub struct StartIndexSearch {
    pub base: usize,
    pub size: usize,
}

/// Where the search ends from a base and a size, when `e` tells what was
/// executed.
pub open spec fn start_index(e: Seq<bool>, base: int, size: int) -> int
    decreases size,
{
    if size > 1 {
        let half = size / 2;
        start_index(
            e,
            if e[base + half] {
                base + half
            } else {
                base
            },
            size - half,
        )
    } else if e[base] {
        base + 1
    } else {
        base
    }
}

/// The search ends at a boundary: what is before it has been executed and what
/// is at it has not.
pub proof fn lemma_start_index_boundary(e: Seq<bool>, base: int, size: int)
    requires
        0 <= base,
        0 < size,
        base + size <= e.len(),
        base == 0 || e[base],
        base + size == e.len() || !e[base + size],
    ensures
        base <= start_index(e, base, size) <= base + size,
        start_index(e, base, size) == 0 || e[start_index(e, base, size) - 1],
        start_index(e, base, size) == e.len() || !e[start_index(e, base, size)],
    decreases size,
{
    if size > 1 {
        let half = size / 2;
        if e[base + half] {
            lemma_start_index_boundary(e, base + half, size - half);
        } else {
            lemma_start_upper(e, base, size - half, base + half);
        }
    }
}

/// The same where the first epoch known not to be executed is `upper`.
proof fn lemma_start_upper(e: Seq<bool>, base: int, size: int, upper: int)
    requires
        0 <= base,
        0 < size,
        base + size <= e.len(),
        base + size == upper || base + size == upper + 1,
        upper < e.len(),
        base <= upper,
        base == 0 || e[base],
        !e[upper],
    ensures
        base <= start_index(e, base, size) <= base + size,
        start_index(e, base, size) == 0 || e[start_index(e, base, size) - 1],
        start_index(e, base, size) == e.len() || !e[start_index(e, base, size)],
        start_index(e, base, size) <= upper,
    decreases size,
{
    if size > 1 {
        let half = size / 2;
        let mid = base + half;
        if e[mid] {
            lemma_start_upper(e, mid, size - half, upper);
        } else {
            lemma_start_upper(e, base, size - half, mid);
        }
    }
}

/// Where the executed epochs come first, the search finds the first one that
/// is not among them.
pub proof fn lemma_start_index_first(e: Seq<bool>, first: int)
    requires
        0 <= first <= e.len(),
        e.len() > 0,
        forall|i: int| 0 <= i < e.len() ==> (#[trigger] e[i] <==> i < first),
    ensures
        start_index(e, 0, e.len() as int) == first,
{
    lemma_start_index_boundary(e, 0, e.len() as int);
}

impl StartIndexSearch {
    /// A search over a chain of the given length.
    pub fn new(len: usize) -> (search: StartIndexSearch)
        requires
            len > 0,
        ensures
            search.base == 0,
            search.size == len,
    {
        StartIndexSearch { base: 0, size: len }
    }

    /// The place to ask about next.
    pub open spec fn spec_probe(self) -> int {
        if self.size > 1 {
            self.base + self.size / 2
        } else {
            self.base as int
        }
    }

    /// The place to ask about next.
    pub fn probe(&self) -> (place: usize)
        requires
            self.base + self.size <= usize::MAX,
        ensures
            place == self.spec_probe(),
    {
        if self.size > 1 {
            self.base + self.size / 2
        } else {
            self.base
        }
    }

    /// Takes the answer: the result, or nothing while the search goes on.
    pub fn answer(&mut self, executed: bool) -> (found: Option<usize>)
        requires
            old(self).size > 0,
            old(self).base + old(self).size <= usize::MAX,
        ensures
            old(self).size > 1 ==> found is None && final(self).size == old(self).size
                - old(self).size / 2 && final(self).base == (if executed {
                old(self).spec_probe()
            } else {
                old(self).base as int
            }) && final(self).base + final(self).size <= usize::MAX,
            old(self).size == 1 ==> *final(self) == *old(self) && found == Some(
                (old(self).base + (if executed {
                    1int
                } else {
                    0
                })) as usize,
            ),
    {
        if self.size > 1 {
            let half: usize = self.size / 2;
            if executed {
                self.base = self.base + half;
            }
            self.size = self.size - half;
            None
        } else if executed {
            Some(self.base + 1)
        } else {
            Some(self.base)
        }
    }
}

/// What is known of a block whose execution is to be traced.
pub struct DebugEpochPlan {
    pub parent_block_hash: H256,
    pub reward_epoch_hash: Option<H256>,
    pub anticone_penalty_cutoff_epoch_hash: Option<H256>,
    pub task: EpochExecutionTask,
}

/// The hash of the ancestor of `x` some heights up, if there is one.
pub open spec fn hash_up(inner: ConsensusGraphInner, x: int, up: int) -> Option<H256> {
    let par = inner.parents();
    if depth(par, x) >= up {
        Some(inner.nodes()[ancestor_at_depth(par, x, (depth(par, x) - up) as nat)].hash)
    } else {
        None
    }
}

/// The reward and cutoff blocks for tracing the epoch of `x`: twelve and two
/// heights up.
pub open spec fn debug_reward_index(inner: ConsensusGraphInner, x: int) -> Option<(usize, usize)> {
    let par = inner.parents();
    let h = depth(par, x);
    if h >= REWARD_EPOCH_COUNT {
        Some(
            (
                ancestor_at_depth(par, x, (h - REWARD_EPOCH_COUNT) as nat) as usize,
                ancestor_at_depth(
                    par,
                    x,
                    (h - (REWARD_EPOCH_COUNT - ANTICONE_PENALTY_UPPER_EPOCH_COUNT)) as nat,
                ) as usize,
            ),
        )
    } else {
        None
    }
}

/// The plan for tracing the epoch of `x`: its task, and the hashes of its parent, of
/// the block that is paid and of the block that cuts the anticones off.
pub open spec fn is_debug_plan(inner: ConsensusGraphInner, x: int, plan: DebugEpochPlan) -> bool {
    &&& is_task_for(inner, x, debug_reward_index(inner, x), false, true, plan.task)
    &&& Some(plan.parent_block_hash) == hash_up(inner, x, 1)
    &&& plan.reward_epoch_hash == hash_up(inner, x, REWARD_EPOCH_COUNT as int)
    &&& plan.anticone_penalty_cutoff_epoch_hash == hash_up(
        inner,
        x,
        REWARD_EPOCH_COUNT - ANTICONE_PENALTY_UPPER_EPOCH_COUNT,
    )
}

/// Blocks of the path are ancestors one after the other.
pub proof fn lemma_path(par: Seq<usize>, x: int, h: int)
    requires
        crate::dag::rooted(par),
        0 <= x < par.len(),
        0 <= h <= depth(par, x),
    ensures
        path_to(par, x)[h] == ancestor_at_depth(par, x, h as nat),
        path_to(par, x)[h] <= x,
        ancestor(par, path_to(par, x)[h] as int, x),
        depth(par, path_to(par, x)[h] as int) == h,
        h > 0 ==> par[path_to(par, x)[h] as int] == path_to(par, x)[h - 1],
{
    lemma_ancestor_at_depth(par, x, h as nat);
    let a = ancestor_at_depth(par, x, h as nat);
    if h > 0 {
        lemma_ancestor_at_depth(par, x, (h - 1) as nat);
        let b = ancestor_at_depth(par, x, (h - 1) as nat);
        assert(a > 0 && par[a] < a);
        assert(depth(par, par[a] as int) == h - 1);
        crate::views::lemma_ancestor_step(par, a, x);
        lemma_ancestor_unique(par, par[a] as int, x);
    }
}

/// The height from which on a block's path leaves a chain, counted down from
/// `h`.
pub open spec fn fork_from(chain: Seq<usize>, par: Seq<usize>, x: int, h: nat) -> nat
    decreases h,
{
    if h == 0 || (h < chain.len() && chain[h as int] == ancestor_at_depth(par, x, h)) {
        h
    } else {
        fork_from(chain, par, x, (h - 1) as nat)
    }
}

/// The height of the last block that the path to `x` and the pivot chain have in
/// common.
pub open spec fn fork_place(inner: ConsensusGraphInner, x: int) -> nat {
    fork_from(inner.pivot_chain@, inner.parents(), x, depth(inner.parents(), x))
}

proof fn lemma_fork_from(chain: Seq<usize>, par: Seq<usize>, x: int, h: nat, fork: nat)
    requires
        fork <= h,
        fork < chain.len(),
        fork == 0 || chain[fork as int] == ancestor_at_depth(par, x, fork),
        forall|k: int|
            fork < k <= h && k < chain.len() ==> #[trigger] chain[k] != ancestor_at_depth(
                par,
                x,
                k as nat,
            ),
    ensures
        fork_from(chain, par, x, h) == fork,
    decreases h,
{
    if h > fork {
        if h < chain.len() {
            assert(chain[h as int] != ancestor_at_depth(par, x, h));
        }
        lemma_fork_from(chain, par, x, (h - 1) as nat, fork);
    }
}

impl ConsensusGraphInner {
    /// What the search ends with when all answers are at hand.
    pub fn find_start_index(executed: &Vec<bool>) -> (index: usize)
        requires
            executed@.len() > 0,
        ensures
            index == start_index(executed@, 0, executed@.len() as int),
            index <= executed@.len(),
            index == 0 || executed@[index - 1],
            index == executed@.len() || !executed@[index as int],
    {
        let len: usize = executed.len();
        let mut search = StartIndexSearch::new(len);
        proof {
            lemma_start_index_boundary(executed@, 0, len as int);
        }
        while search.size > 1
            invariant
                len == executed@.len(),
                0 < search.size,
                search.base + search.size <= len,
                start_index(executed@, search.base as int, search.size as int) == start_index(
                    executed@,
                    0,
                    len as int,
                ),
            decreases search.size,
        {
            let place: usize = search.probe();
            let found: Option<usize> = search.answer(executed[place]);
        }
        if executed[search.base] {
            search.base + 1
        } else {
            search.base
        }
    }

    /// The blocks from the pivot chain down to `me`, with the height at which
    /// they leave the chain.
    pub fn fork_chain(&self, me: usize) -> (r: (Vec<usize>, usize))
        requires
            self.readable(),
            me < self.size(),
        ensures
            ({
                let par = self.parents();
                let height = depth(par, me as int);
                &&& r.1 == fork_place(*self, me as int)
                &&& r.1 <= height
                &&& r.1 < self.pivot_chain@.len()
                &&& r.0@ == path_to(par, me as int).skip(r.1 as int)
                &&& self.pivot_chain@[r.1 as int] == ancestor_at_depth(par, me as int, r.1 as nat)
                &&& forall|h: int|
                    r.1 < h <= height && h < self.pivot_chain@.len()
                        ==> #[trigger] self.pivot_chain@[h] != ancestor_at_depth(
                        par,
                        me as int,
                        h as nat,
                    )
            }),
    {
        let ghost nodes = self.nodes();
        let ghost par = self.parents();
        let ghost chain = self.pivot_chain@;
        let ghost path = path_to(par, me as int);
        let ghost height = depth(par, me as int) as int;
        proof {
            lemma_node(nodes, me as int);
            lemma_depth_bounded(par, me as int);
            lemma_path(par, me as int, height);
            lemma_ancestor_unique(par, me as int, me as int);
            lemma_path(par, me as int, 0);
            lemma_ancestor_at_depth(par, me as int, 0);
            crate::dag::lemma_root_is_ancestor(par, me as int);
            lemma_ancestor_unique(par, 0, me as int);
        }
        let mut fork_height: usize = self.arena.get(me).height as usize;
        let mut down: Vec<usize> = Vec::new();
        let mut idx: usize = me;
        while fork_height > 0 && (fork_height >= self.pivot_chain.len()
            || self.pivot_chain[fork_height] != idx)
            invariant
                self.readable(),
                nodes == self.nodes(),
                par == self.parents(),
                chain == self.pivot_chain@,
                path == path_to(par, me as int),
                height == depth(par, me as int),
                path.len() == height + 1,
                crate::dag::rooted(par),
                me < nodes.len(),
                fork_height <= height,
                idx == path[fork_height as int],
                down@.len() == height - fork_height,
                forall|i: int|
                    0 <= i < down@.len() ==> #[trigger] down@[i] == path[height - i],
                forall|h: int|
                    fork_height < h <= height && h < chain.len() ==> #[trigger] chain[h]
                        != path[h],
            decreases fork_height,
        {
            proof {
                lemma_path(par, me as int, fork_height as int);
                lemma_node(nodes, idx as int);
            }
            down.push(idx);
            fork_height = fork_height - 1;
            idx = self.arena.get(idx).parent;
        }
        down.push(idx);
        let mut list: Vec<usize> = Vec::new();
        let mut left: usize = down.len();
        let ghost total = down@.len();
        proof {
            lemma_path(par, me as int, fork_height as int);
        }
        while left > 0
            invariant
                left <= down@.len(),
                total == down@.len(),
                list@.len() == total - left,
                forall|i: int| 0 <= i < list@.len() ==> #[trigger] list@[i] == down@[total - 1 - i],
            decreases left,
        {
            left = left - 1;
            list.push(down[left]);
        }
        proof {
            assert(list@ =~= path.skip(fork_height as int));
            assert forall|h: int|
                fork_height < h <= height && h < chain.len() implies #[trigger] chain[h]
                != ancestor_at_depth(par, me as int, h as nat) by {
                lemma_path(par, me as int, h);
            }
            lemma_fork_from(chain, par, me as int, height as nat, fork_height as nat);
        }
        (list, fork_height)
    }

    /// The path from the first block to `me`.
    pub fn path_of(&self, me: usize) -> (path: Vec<usize>)
        requires
            self.readable(),
            me < self.size(),
        ensures
            path@ == path_to(self.parents(), me as int),
    {
        let ghost nodes = self.nodes();
        let ghost par = self.parents();
        let ghost whole = path_to(par, me as int);
        let ghost height = depth(par, me as int) as int;
        proof {
            lemma_node(nodes, me as int);
            lemma_depth_bounded(par, me as int);
            lemma_path(par, me as int, height);
            lemma_ancestor_unique(par, me as int, me as int);
        }
        let mut at: usize = self.arena.get(me).height as usize;
        let mut idx: usize = me;
        let mut up: Vec<usize> = Vec::new();
        up.push(me);
        while at > 0
            invariant
                self.readable(),
                nodes == self.nodes(),
                par == self.parents(),
                whole == path_to(par, me as int),
                height == depth(par, me as int),
                whole.len() == height + 1,
                crate::dag::rooted(par),
                me < nodes.len(),
                at <= height,
                idx == whole[at as int],
                up@.len() == height - at + 1,
                forall|i: int| 0 <= i < up@.len() ==> #[trigger] up@[i] == whole[height - i],
            decreases at,
        {
            proof {
                lemma_path(par, me as int, at as int);
                lemma_node(nodes, idx as int);
            }
            idx = self.arena.get(idx).parent;
            at = at - 1;
            up.push(idx);
        }
        let mut path: Vec<usize> = Vec::new();
        let mut left: usize = up.len();
        let ghost total = up@.len();
        while left > 0
            invariant
                left <= up@.len(),
                total == up@.len(),
                path@.len() == total - left,
                forall|i: int| 0 <= i < path@.len() ==> #[trigger] path@[i] == up@[total - 1 - i],
            decreases left,
        {
            left = left - 1;
            path.push(up[left]);
        }
        assert(path@ =~= whole);
        path
    }

    /// A task to execute the epoch at a height of the chain.
    pub fn epoch_task(
        &self,
        chain: &Vec<usize>,
        height: usize,
        on_local_pivot: bool,
    ) -> (task: EpochExecutionTask)
        requires
            self.readable(),
            chain_ok(self.parents(), chain@),
            height < chain@.len(),
            payable_at(*self, chain@, height as int),
        ensures
            is_task_for(
                *self,
                chain@[height as int] as int,
                reward_index(chain@, height as int),
                on_local_pivot,
                false,
                task,
            ),
    {
        let epoch_index: usize = chain[height];
        assert(chain@[height as int] < self.parents().len());
        proof {
            lemma_rewardable(*self, chain@, height as int);
        }
        EpochExecutionTask {
            epoch_hash: self.arena.get(epoch_index).hash,
            epoch_block_hashes: self.get_epoch_block_hashes(epoch_index),
            reward_info: self.get_reward_execution_info(height, chain),
            on_local_pivot,
            debug_record: false,
        }
    }

    /// The tasks for the heights from `from` to before `to` of the chain.
    pub fn epoch_tasks(
        &self,
        chain: &Vec<usize>,
        from: usize,
        to: usize,
        on_local_pivot: bool,
    ) -> (tasks: Vec<EpochExecutionTask>)
        requires
            self.readable(),
            chain_ok(self.parents(), chain@),
            to <= chain@.len(),
            forall|h: int|
                from <= h < to ==> #[trigger] payable_at(*self, chain@, h),
        ensures
            are_tasks_for(*self, chain@, from as int, to as int, on_local_pivot, tasks@),
    {
        let mut tasks: Vec<EpochExecutionTask> = Vec::new();
        let mut at: usize = from;
        while at < to
            invariant
                self.readable(),
                chain_ok(self.parents(), chain@),
                to <= chain@.len(),
                from <= at,
                at <= to || at == from,
                tasks@.len() == at - from,
                forall|h: int|
                    from <= h < to ==> #[trigger] payable_at(*self, chain@, h),
                forall|i: int|
                    0 <= i < tasks@.len() ==> is_task_for(
                        *self,
                        chain@[from + i] as int,
                        reward_index(chain@, from + i),
                        on_local_pivot,
                        false,
                        #[trigger] tasks@[i],
                    ),
            decreases to - at,
        {
            assert(payable_at(*self, chain@, at as int));
            let task: EpochExecutionTask = self.epoch_task(chain, at, on_local_pivot);
            let ghost before = tasks@;
            tasks.push(task);
            at = at + 1;
            proof {
                assert forall|i: int| 0 <= i < tasks@.len() implies is_task_for(
                    *self,
                    chain@[from + i] as int,
                    reward_index(chain@, from + i),
                    on_local_pivot,
                    false,
                    #[trigger] tasks@[i],
                ) by {
                    if i < before.len() {
                        assert(tasks@[i] == before[i]);
                    }
                }
            }
        }
        tasks
    }

    /// The tasks that compute the state of block `me`, when its branch, which
    /// left the pivot chain at `fork_height`, has been executed up to before
    /// `start_index`.
    pub fn compute_state_tasks(
        &self,
        me: usize,
        fork_height: usize,
        start_index: usize,
    ) -> (tasks: Vec<EpochExecutionTask>)
        requires
            self.readable(),
            me < self.size(),
            fork_height <= depth(self.parents(), me as int),
            fork_height < self.pivot_chain@.len(),
            start_index <= depth(self.parents(), me as int) - fork_height + 1,
            state_payable(*self, me as int, fork_height as int, start_index as int),
        ensures
            ({
                let path = path_to(self.parents(), me as int);
                let resume = if start_index != 0 {
                    last_state_height(self.pivot_chain@.len() as int) + 1
                } else {
                    fork_height + 1
                };
                let first = if resume <= fork_height {
                    fork_height + 1 - resume
                } else {
                    0
                };
                &&& first <= tasks@.len()
                &&& are_tasks_for(
                    *self,
                    path,
                    resume,
                    fork_height + 1,
                    false,
                    tasks@.take(first),
                )
                &&& are_tasks_for(
                    *self,
                    path,
                    fork_height + start_index,
                    path.len() as int,
                    false,
                    tasks@.skip(first),
                )
            }),
            are_state_tasks(
                *self,
                me as int,
                fork_height as int,
                start_index as int,
                tasks@,
            ),
    {
        let ghost par = self.parents();
        proof {
            lemma_node(self.nodes(), me as int);
            lemma_depth_bounded(par, me as int);
        }
        let path: Vec<usize> = self.path_of(me);
        let len: usize = path.len();
        proof {
            self.lemma_path_is_chain(me as int);
        }
        let resume: usize = if start_index != 0 {
            let pivot_len: usize = self.pivot_chain.len();
            if pivot_len > DEFERRED_STATE_EPOCH_COUNT as usize {
                pivot_len - DEFERRED_STATE_EPOCH_COUNT as usize + 1
            } else {
                1
            }
        } else {
            fork_height + 1
        };
        let mut tasks: Vec<EpochExecutionTask> = self.epoch_tasks(
            &path,
            resume,
            fork_height + 1,
            false,
        );
        let ghost a = tasks@;
        let rest: Vec<EpochExecutionTask> = self.epoch_tasks(
            &path,
            fork_height + start_index,
            len,
            false,
        );
        let ghost b = rest@;
        let mut rest = rest;
        tasks.append(&mut rest);
        proof {
            let whole = path_to(par, me as int);
            assert(tasks@.take(a.len() as int) =~= a);
            assert(tasks@.skip(a.len() as int) =~= b);
            assert(are_tasks_for(*self, whole, resume as int, fork_height + 1, false, a));
            assert(are_tasks_for(
                *self,
                whole,
                fork_height + start_index,
                whole.len() as int,
                false,
                b,
            ));
        }
        tasks
    }

    /// The path to a block is a chain.
    pub proof fn lemma_path_is_chain(&self, me: int)
        requires
            links_ok(self.nodes()),
            0 <= me < self.size(),
        ensures
            chain_ok(self.parents(), path_to(self.parents(), me)),
            path_to(self.parents(), me).len() <= self.size(),
    {
        let par = self.parents();
        let path = path_to(par, me);
        lemma_node(self.nodes(), me);
        lemma_depth_bounded(par, me);
        assert forall|i: int| 0 <= i < path.len() implies (#[trigger] path[i]) < par.len() by {
            lemma_path(par, me, i);
        }
        assert forall|i: int, j: int|
            #![trigger path[i], path[j]]
            0 <= i && j == i + 1 && j < path.len() implies par[path[j] as int] == path[i] by {
            lemma_path(par, me, j);
        }
        crate::dag::lemma_root_is_ancestor(par, me);
        lemma_ancestor_unique(par, 0, me);
        lemma_path(par, me, 0);
    }

    /// The ancestor of `block` up to `delay` heights up, but not beyond the
    /// first block.
    pub fn deferred_block(&self, block: usize, delay: usize) -> (idx: usize)
        requires
            self.readable(),
            block < self.size(),
        ensures
            idx == ancestor_at_depth(
                self.parents(),
                block as int,
                (if depth(self.parents(), block as int) > delay {
                    depth(self.parents(), block as int) - delay
                } else {
                    0
                }) as nat,
            ),
            idx < self.size(),
            idx == deferred_place(self.parents(), block as int, delay as int),
    {
        let ghost nodes = self.nodes();
        let ghost par = self.parents();
        let ghost path = path_to(par, block as int);
        let ghost height = depth(par, block as int) as int;
        proof {
            lemma_node(nodes, block as int);
            lemma_path(par, block as int, height);
            lemma_ancestor_unique(par, block as int, block as int);
        }
        let mut idx: usize = block;
        let mut i: usize = 0;
        let mut going: bool = true;
        while going && i < delay
            invariant
                self.readable(),
                nodes == self.nodes(),
                par == self.parents(),
                path == path_to(par, block as int),
                height == depth(par, block as int),
                path.len() == height + 1,
                crate::dag::rooted(par),
                block < nodes.len(),
                i <= delay,
                idx < nodes.len(),
                i <= height,
                idx == path[height - i],
                !going ==> i == height,
            decreases (if going {
                delay - i + 1
            } else {
                0
            }),
        {
            proof {
                lemma_path(par, block as int, height - i);
                lemma_node(nodes, idx as int);
            }
            if idx == self.genesis_block_index {
                proof {
                    assert(depth(par, 0) == 0);
                }
                going = false;
            } else {
                proof {
                    assert(idx > 0);
                    assert(depth(par, idx as int) > 0);
                }
                idx = self.arena.get(idx).parent;
                i = i + 1;
            }
        }
        proof {
            lemma_path(par, block as int, height - i);
        }
        idx
    }

    /// What to execute to trace how the epoch of a block was computed.
    pub fn log_debug_epoch_computation(&self, epoch_index: usize) -> (plan: DebugEpochPlan)
        requires
            self.readable(),
            0 < epoch_index < self.size(),
            debug_reward_index(*self, epoch_index as int) matches Some(r) ==> payable(
                *self,
                r.0 as int,
            ),
        ensures
            is_task_for(
                *self,
                epoch_index as int,
                debug_reward_index(*self, epoch_index as int),
                false,
                true,
                plan.task,
            ),
            Some(plan.parent_block_hash) == hash_up(*self, epoch_index as int, 1),
            plan.reward_epoch_hash == hash_up(
                *self,
                epoch_index as int,
                REWARD_EPOCH_COUNT as int,
            ),
            plan.anticone_penalty_cutoff_epoch_hash == hash_up(
                *self,
                epoch_index as int,
                REWARD_EPOCH_COUNT - ANTICONE_PENALTY_UPPER_EPOCH_COUNT,
            ),
            is_debug_plan(*self, epoch_index as int, plan),
    {
        let ghost nodes = self.nodes();
        let ghost par = self.parents();
        let ghost x = epoch_index as int;
        let ghost height = depth(par, x) as int;
        proof {
            lemma_node(nodes, x);
            lemma_ancestor_unique(par, x, x);
            assert(height > 0);
        }
        let parent_index: usize = self.climb(epoch_index, epoch_index, 0, 1);
        proof {
            lemma_ancestor_at_depth(par, x, (height - 1) as nat);
        }
        let cut: usize = (REWARD_EPOCH_COUNT - ANTICONE_PENALTY_UPPER_EPOCH_COUNT) as usize;
        let cutoff: usize = self.climb(epoch_index, parent_index, 1, cut - 1);
        let reward: usize = self.climb(
            epoch_index,
            cutoff,
            cut,
            ANTICONE_PENALTY_UPPER_EPOCH_COUNT as usize,
        );
        proof {
            if height >= 2 {
                lemma_ancestor_at_depth(par, x, (height - 2) as nat);
            }
            if height >= 12 {
                lemma_ancestor_at_depth(par, x, (height - 12) as nat);
                lemma_ancestors_chain(par, reward as int, cutoff as int, x);
                lemma_ancestor_is_reached(self.dag(), reward as int, cutoff as int);
            }
        }
        let index: Option<(usize, usize)> = if reward == NULL {
            None
        } else {
            Some((reward, cutoff))
        };
        let reward_epoch_hash: Option<H256> = if reward != NULL {
            Some(self.arena.get(reward).hash)
        } else {
            None
        };
        let cutoff_hash: Option<H256> = if cutoff != NULL {
            Some(self.arena.get(cutoff).hash)
        } else {
            None
        };
        let task = EpochExecutionTask {
            epoch_hash: self.arena.get(epoch_index).hash,
            epoch_block_hashes: self.get_epoch_block_hashes(epoch_index),
            reward_info: self.get_reward_execution_info_from_index(index),
            on_local_pivot: false,
            debug_record: true,
        };
        DebugEpochPlan {
            parent_block_hash: self.arena.get(parent_index).hash,
            reward_epoch_hash,
            anticone_penalty_cutoff_epoch_hash: cutoff_hash,
            task,
        }
    }

    /// Climbs `steps` parents from `at`, which lies `up` heights above `from`,
    /// or ends at `NULL` beyond the first block.
    fn climb(&self, from: usize, at: usize, up: usize, steps: usize) -> (above: usize)
        requires
            self.readable(),
            from < self.size(),
            up + steps < NULL,
            depth(self.parents(), from as int) >= up ==> at == ancestor_at_depth(
                self.parents(),
                from as int,
                (depth(self.parents(), from as int) - up) as nat,
            ),
            depth(self.parents(), from as int) < up ==> at == NULL,
        ensures
            depth(self.parents(), from as int) >= up + steps ==> above == ancestor_at_depth(
                self.parents(),
                from as int,
                (depth(self.parents(), from as int) - up - steps) as nat,
            ) && above < self.size(),
            depth(self.parents(), from as int) < up + steps ==> above == NULL,
    {
        let ghost nodes = self.nodes();
        let ghost par = self.parents();
        let ghost height = depth(par, from as int) as int;
        proof {
            lemma_node(nodes, from as int);
        }
        let mut above: usize = at;
        let mut i: usize = 0;
        while i < steps
            invariant
                self.readable(),
                nodes == self.nodes(),
                par == self.parents(),
                height == depth(par, from as int),
                crate::dag::rooted(par),
                from < nodes.len() < NULL,
                i <= steps,
                up + steps < NULL,
                height >= up + i ==> above == ancestor_at_depth(
                    par,
                    from as int,
                    (height - up - i) as nat,
                ),
                height < up + i ==> above == NULL,
            decreases steps - i,
        {
            proof {
                if height >= up + i {
                    lemma_path(par, from as int, height - up - i);
                }
            }
            if above != NULL {
                proof {
                    lemma_node(nodes, above as int);
                    if height - up - i > 0 {
                        lemma_path(par, from as int, height - up - i - 1);
                        lemma_ancestor_at_depth(par, from as int, (height - up - i - 1) as nat);
                        let path = path_to(par, from as int);
                        assert(above == path[height - up - i]);
                        assert(par[above as int] == path[height - up - i - 1]);
                    } else {
                        assert(above == 0) by {
                            if above > 0 {
                                assert(par[above as int] < above);
                            }
                        }
                    }
                }
                above = self.arena.get(above).parent;
            }
            i = i + 1;
        }
        proof {
            if height >= up + steps {
                lemma_ancestor_at_depth(par, from as int, (height - up - steps) as nat);
            }
        }
        above
    }
}

/// The ancestor of `x` so many heights up, but not beyond the first block.
pub open spec fn deferred_place(par: Seq<usize>, x: int, delay: int) -> int {
    ancestor_at_depth(
        par,
        x,
        (if depth(par, x) > delay {
            depth(par, x) - delay
        } else {
            0
        }) as nat,
    )
}

/// The last height whose state is due on a pivot chain of the given length.
pub open spec fn last_state_height(len: int) -> int {
    if len > DEFERRED_STATE_EPOCH_COUNT {
        len - DEFERRED_STATE_EPOCH_COUNT
    } else {
        0
    }
}

/// The epoch at a height is executed for the state of a block whose branch left
/// the pivot chain at `fork` and was executed up to before `start_index`.
pub open spec fn is_run(len: int, fork: int, start_index: int, h: int) -> bool {
    ||| fork + start_index <= h
    ||| start_index != 0 && last_state_height(len) < h <= fork
}

/// The rewards that fall due in the epochs executed for the state of `x` can be
/// worked out.
pub open spec fn state_payable(
    inner: ConsensusGraphInner,
    x: int,
    fork: int,
    start_index: int,
) -> bool {
    forall|h: int|
        0 <= h <= depth(inner.parents(), x) && is_run(
            inner.pivot_chain@.len() as int,
            fork,
            start_index,
            h,
        ) ==> #[trigger] payable_at(inner, path_to(inner.parents(), x), h)
}

/// One task for each height from `from` to before `to` of the chain.
pub open spec fn are_tasks_for(
    inner: ConsensusGraphInner,
    chain: Seq<usize>,
    from: int,
    to: int,
    on_local_pivot: bool,
    tasks: Seq<EpochExecutionTask>,
) -> bool {
    &&& tasks.len() == (if from < to {
        to - from
    } else {
        0
    })
    &&& forall|i: int|
        0 <= i < tasks.len() ==> is_task_for(
            inner,
            chain[from + i] as int,
            reward_index(chain, from + i),
            on_local_pivot,
            false,
            #[trigger] tasks[i],
        )
}

/// The tasks that compute the state of `x`, whose branch left the pivot chain at
/// `fork` and was executed up to before `start`: first the epochs of the pivot
/// chain that are not due yet, if the branch itself rests on executed ones, and
/// then those of the branch.
pub open spec fn are_state_tasks(
    inner: ConsensusGraphInner,
    x: int,
    fork: int,
    start: int,
    tasks: Seq<EpochExecutionTask>,
) -> bool {
    let path = path_to(inner.parents(), x);
    let resume = if start != 0 {
        last_state_height(inner.pivot_chain@.len() as int) + 1
    } else {
        fork + 1
    };
    let first = if resume <= fork {
        fork + 1 - resume
    } else {
        0
    };
    &&& first <= tasks.len()
    &&& are_tasks_for(inner, path, resume, fork + 1, false, tasks.take(first))
    &&& are_tasks_for(inner, path, fork + start, path.len() as int, false, tasks.skip(first))
}

} // verus!
