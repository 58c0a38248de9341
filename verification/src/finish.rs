//! The last step of taking a block in: its flags, its weight, the pivot chain
//! and all that hangs on it.

use vstd::prelude::*;
use std::collections::HashSet;
use crate::anticone::records_past_pivot;
use crate::arena::{dag_of, set_to_vec, ConsensusGraphNode, ConsensusGraphNodeData,
    ConsensusGraphPivotData};
use crate::bits::BlockSet;
#[allow(unused_imports)]
use crate::bits::index_limit;
use crate::dag::{ancestor_at_depth, depth};
#[allow(unused_imports)]
use crate::dag::{lemma_ancestor_at_depth, lemma_ancestor_depth, lemma_ancestor_earlier,
    lemma_reaches_earlier};
use crate::epochs::same_but_epochs;
use crate::frames::{same_origins, same_places, same_recorded, same_weights};
#[allow(unused_imports)]
use crate::frames::{lemma_frame_cache, lemma_frame_chain, lemma_frame_past, lemma_frame_subtree,
    lemma_frame_tail, lemma_frame_trees};
#[allow(unused_imports)]
use crate::insert::{lemma_indices_same, lemma_terminals_same, lemma_views_same};
use crate::metadata::{is_late_pivot, is_recomputed, lists_recomputed, lists_sound,
    pivots_recomputed, records_moved, same_but_pivots};
#[allow(unused_imports)]
use crate::metadata::{lemma_chain_distinct, lemma_records_moved};
use crate::model::{chain_ok, epoch_ok, epochs_ok, last_pivots_ok, limits_ok, links_ok, metadata_ok,
    parents_of, tip_ok, weight_cap, weight_limit, weight_of};
#[allow(unused_imports)]
use crate::order::{lemma_indices_distinct, lemma_push_contains};
use crate::path_tree::is_lowest_common_ancestor;
use crate::pivot::{is_heaviest_child, is_heaviest_path, pivot_step, pivot_step_at,
    subtree_weights};
#[allow(unused_imports)]
use crate::pivot::lemma_chain_length;
use crate::state::{sequence_ok, ConsensusGraphInner};
#[allow(unused_imports)]
use crate::state::{lemma_node, lemma_weight_bounds};
#[allow(unused_imports)]
use crate::validity::lemma_chain_index;
#[allow(unused_imports)]
use crate::views::{lemma_same_links, same_links};

verus! {

broadcast use vstd::std_specs::hash::group_hash_axioms;

/// What a new block did to the pivot chain.
pub struct PivotUpdate {
    /// How long the chain was.
    pub old_len: usize,
    /// The place from which on the chain is new.
    pub fork_at: usize,
    /// Whether the chain grew by the new block alone.
    pub extended: bool,
    /// The weight of the new block.
    pub weight: i128,
}

/// The node with its flags decided.
pub open spec fn flagged(
    node: ConsensusGraphNode,
    stable: bool,
    adaptive: bool,
    partial_invalid: bool,
) -> ConsensusGraphNode {
    ConsensusGraphNode {
        stable,
        adaptive,
        data: ConsensusGraphNodeData { partial_invalid, ..node.data },
        ..node
    }
}

/// The nodes differ in their places relative to the pivot chain alone.
pub open spec fn same_but_places(a: Seq<ConsensusGraphNode>, b: Seq<ConsensusGraphNode>) -> bool {
    &&& a.len() == b.len()
    &&& forall|i: int|
        0 <= i < a.len() ==> #[trigger] b[i] == (ConsensusGraphNode {
            last_pivot_in_past: b[i].last_pivot_in_past,
            data: ConsensusGraphNodeData {
                epoch_number: b[i].data.epoch_number,
                ..a[i].data
            },
            ..a[i]
        })
}

/// The newest block and the blocks listed with a pivot block from `update_at`
/// on.
pub open spec fn outdated(
    lists: Seq<ConsensusGraphPivotData>,
    me: int,
    update_at: int,
) -> Set<int> {
    Set::new(
        |x: int|
            x == me || exists|i: int|
                update_at <= i < lists.len() && 0 <= x < me
                    && #[trigger] lists[i].last_pivot_in_past_blocks@.contains(x as usize),
    )
}

/// How the records and lists of last pivot blocks moved with a new block. A block
/// that the chain grew by records itself and begins a list. Otherwise the records
/// from before the change of the chain on are recomputed.
#[verifier::opaque]
pub open spec fn records_settled(
    a: Seq<ConsensusGraphNode>,
    b: Seq<ConsensusGraphNode>,
    m: Seq<ConsensusGraphPivotData>,
    n: Seq<ConsensusGraphPivotData>,
    chain: Seq<usize>,
    me: int,
    r: PivotUpdate,
) -> bool {
    if r.extended {
        &&& b[me].last_pivot_in_past == chain.len() - 1
        &&& forall|x: int|
            0 <= x < me ==> (#[trigger] b[x]).last_pivot_in_past == a[x].last_pivot_in_past
        &&& n.len() == m.len() + 1
        &&& n.drop_last() == m
        &&& n.last().last_pivot_in_past_blocks@ == set![me as usize]
    } else {
        records_moved(a, b, m, n, chain, r.fork_at as int, outdated(m, me, r.fork_at - 1))
    }
}

/// The part of the state that speaks of neither the chain nor the trees stays
/// right when places or the flags of the newest block change.
proof fn lemma_graph_kept(before: ConsensusGraphInner, after: ConsensusGraphInner)
    requires
        before.base_ok(),
        after.arena.wf(),
        after.indices == before.indices,
        after.inner_conf == before.inner_conf,
        after.genesis_block_index == before.genesis_block_index,
        after.terminal_hashes == before.terminal_hashes,
        after.sequence_number_of_block_entrance == before.sequence_number_of_block_entrance,
        same_links(before.nodes(), after.nodes()),
        before.size() > 0,
        same_weights(before.nodes(), after.nodes(), (before.size() - 1) as nat),
        same_recorded(before.nodes(), after.nodes(), before.size()),
        forall|i: int|
            #![trigger after.nodes()[i]]
            0 <= i < before.size() ==> {
                &&& before.nodes()[i].difficulty == after.nodes()[i].difficulty
                &&& before.nodes()[i].data.blockset_in_own_view_of_epoch
                    == after.nodes()[i].data.blockset_in_own_view_of_epoch
                &&& before.nodes()[i].data.ordered_epoch_blocks
                    == after.nodes()[i].data.ordered_epoch_blocks
                &&& before.nodes()[i].data.min_epoch_in_other_views
                    == after.nodes()[i].data.min_epoch_in_other_views
                &&& before.nodes()[i].data.max_epoch_in_other_views
                    == after.nodes()[i].data.max_epoch_in_other_views
            },
    ensures
        links_ok(after.nodes()),
        dag_of(after.nodes()) == dag_of(before.nodes()),
        crate::model::indices_ok(after.nodes(), after.indices@),
        crate::model::views_ok(after.nodes(), after.size()),
        limits_ok(after.inner_conf, after.nodes()),
        crate::model::past_weights_ok(after.inner_conf, after.nodes(), after.size()),
        crate::model::terminals_ok(after.nodes(), after.terminal_hashes@),
        sequence_ok(after.nodes(), after.sequence_number_of_block_entrance),
{
    let a = before.nodes();
    let b = after.nodes();
    lemma_same_links(a, b);
    lemma_indices_same(a, b, before.indices@);
    lemma_views_same(a, b, a.len());
    lemma_terminals_same(a, b, before.terminal_hashes@);
    assert(same_origins(a, b, a.len()));
    lemma_frame_past(before.inner_conf, a, b, a.len());
    assert(limits_ok(after.inner_conf, b)) by {
        reveal(limits_ok);
        let ca = |i: int| weight_cap(before.inner_conf)(a[i]);
        let cb = |i: int| weight_cap(before.inner_conf)(b[i]);
        assert forall|i: int| 0 <= i < a.len() implies #[trigger] ca(i) == cb(i) by {
            assert(b[i].difficulty == a[i].difficulty);
        }
        crate::sums::lemma_sum_congruent(ca, cb, a.len());
        assert forall|i: int| 0 <= i < b.len() implies (
        #[trigger] b[i]).difficulty.fits_weight() by {
            assert(a[i].difficulty.fits_weight());
        }
    }
    assert forall|i: int| 0 <= i < b.len() implies (#[trigger] b[i]).data.sequence_number
        < after.sequence_number_of_block_entrance by {
        assert(a[i].data.sequence_number == b[i].data.sequence_number);
    }
}

/// The chain step is the same for nodes that differ in their places alone.
proof fn lemma_pivot_step_same(
    conf: crate::config::ConsensusInnerConfig,
    a: Seq<ConsensusGraphNode>,
    b: Seq<ConsensusGraphNode>,
    chain: Seq<usize>,
    me: int,
    fully_valid: bool,
    next: Seq<usize>,
    fork_at: int,
)
    requires
        links_ok(a),
        same_but_places(a, b),
        0 < me == a.len() - 1,
        chain_ok(parents_of(a), chain),
        chain_ok(parents_of(a), next),
        pivot_step(a, subtree_weights(conf, a, a.len()), chain, me, fully_valid, next, fork_at),
    ensures
        pivot_step(b, subtree_weights(conf, b, b.len()), chain, me, fully_valid, next, fork_at),
{
    let n = a.len();
    let u = subtree_weights(conf, a, n);
    let w = subtree_weights(conf, b, n);
    assert(same_links(a, b));
    lemma_same_links(a, b);
    assert(same_origins(a, b, n));
    assert(same_weights(a, b, n));
    assert forall|x: int| #[trigger] u(x) == w(x) by {
        lemma_frame_subtree(conf, a, b, n, x);
    }
    assert(u =~= w);
    assert(b[me].parent == a[me].parent);
    let par = parents_of(a);
    if fully_valid && a[me].parent != chain.last() {
        let lca = choose|lca: int| #[trigger]
            is_lowest_common_ancestor(par, chain.last() as int, me, lca) && pivot_step_at(
                a,
                u,
                chain,
                me,
                next,
                fork_at,
                lca,
            );
        lemma_node(a, me);
        lemma_ancestor_earlier(par, lca, me);
        lemma_ancestor_depth(par, lca, me);
        let at = depth(par, lca) + 1;
        if lca == me {
            assert(chain[chain.len() - 1] < par.len());
            lemma_ancestor_earlier(par, me, chain.last() as int);
            lemma_chain_index(par, chain, chain.len() - 1);
            assert(at < chain.len());
            assert(depth(par, chain.last() as int) == chain.len() - 1);
            assert(chain.last() == me);
        }
        lemma_ancestor_at_depth(par, me, at);
        let new = ancestor_at_depth(par, me, at);
        let prev = chain[at as int] as int;
        assert(a[new].hash == b[new].hash);
        assert(chain[at as int] < par.len());
        assert(a[prev].hash == b[prev].hash);
        let tail = next.skip(at as int);
        if is_heaviest_path(a, u, tail) && at < next.len() {
            assert forall|i: int| 0 <= i < tail.len() implies (#[trigger] tail[i]) < n by {
                assert(tail[i] == next[i + at]);
            }
            lemma_heaviest_path_kept(a, b, u, tail);
        }
        assert(pivot_step_at(b, w, chain, me, next, fork_at, lca));
    }
}

pub proof fn lemma_heaviest_path_kept(
    a: Seq<ConsensusGraphNode>,
    b: Seq<ConsensusGraphNode>,
    w: spec_fn(int) -> int,
    list: Seq<usize>,
)
    requires
        links_ok(a),
        same_links(a, b),
        is_heaviest_path(a, w, list),
        forall|i: int| 0 <= i < list.len() ==> (#[trigger] list[i]) < a.len(),
    ensures
        is_heaviest_path(b, w, list),
{
    assert forall|i: int, j: int|
        #![trigger list[i], list[j]]
        0 <= i && j == i + 1 && j < list.len() implies is_heaviest_child(
        b,
        w,
        list[i] as int,
        list[j],
    ) by {
        let p = list[i] as int;
        let c = list[j];
        assert(is_heaviest_child(a, w, p, c));
        assert(a[p].children == b[p].children);
        assert(a[c as int].hash == b[c as int].hash);
        assert forall|d: usize| #[trigger]
            b[p].children@.contains(d) && d != c implies crate::validity::heavier(
            w(c as int),
            b[c as int].hash,
            w(d as int),
            b[d as int].hash,
        ) by {
            assert(a[p].children@.contains(d));
            lemma_node(a, p);
            let k = a[p].children@.index_of(d);
            assert(a[p].children@[k] == d);
            assert(a[d as int].hash == b[d as int].hash);
        }
    }
    let l = list[list.len() - 1] as int;
    assert(a[l].children == b[l].children);
}

/// The recorded last pivot block of the first block is the first block.
proof fn lemma_root_record(nodes: Seq<ConsensusGraphNode>, chain: Seq<usize>)
    requires
        links_ok(nodes),
        chain_ok(parents_of(nodes), chain),
        nodes.len() > 0,
        records_past_pivot(nodes, chain, 0),
    ensures
        nodes[0].last_pivot_in_past == 0,
{
    lemma_node(nodes, 0);
    let l = nodes[0].last_pivot_in_past as int;
    lemma_reaches_earlier(dag_of(nodes), 0, chain[l] as int);
    if l != 0 {
        lemma_chain_distinct(parents_of(nodes), chain, l, 0);
    }
}

impl ConsensusGraphInner {
    /// Decides the flags of the newest block.
    fn set_flags(&mut self, me: usize, stable: bool, adaptive: bool, fully_valid: bool)
        requires
            old(self).linked(me as int),
        ensures
            *final(self) == (ConsensusGraphInner { arena: final(self).arena, ..*old(self) }),
            final(self).base_ok(),
            final(self).is_newest(me as int),
            final(self).trees_hold(me as nat + 1, me as nat),
            final(self).cache_holds(me as nat + 1),
            old(self).tail_holds(me as nat) ==> final(self).tail_holds(me as nat),
            final(self).nodes() == old(self).nodes().update(
                me as int,
                flagged(old(self).nodes()[me as int], stable, adaptive, !fully_valid),
            ),
    {
        let ghost start = *self;
        let node = self.arena.get_mut(me);
        node.stable = stable;
        node.adaptive = adaptive;
        node.data.partial_invalid = !fully_valid;
        proof {
            let a = start.nodes();
            let b = self.nodes();
            let chain = self.pivot_chain@;
            let k = me as nat;
            assert(b =~= a.update(
                me as int,
                flagged(a[me as int], stable, adaptive, !fully_valid),
            ));
            assert(same_links(a, b));
            assert(same_origins(a, b, a.len()));
            lemma_graph_kept(start, *self);
            lemma_frame_chain(a, b, chain, a.len());
            assert(epochs_ok(b, chain)) by {
                reveal(epochs_ok);
                assert forall|x: int| 0 <= x < b.len() implies epoch_ok(
                    dag_of(b),
                    chain,
                    x,
                    (#[trigger] b[x]).data.epoch_number,
                ) by {
                    assert(epoch_ok(dag_of(a), chain, x, a[x].data.epoch_number));
                }
            }
            assert(last_pivots_ok(b, chain)) by {
                assert forall|x: int| 0 <= x < b.len() implies (
                #[trigger] b[x]).last_pivot_in_past < chain.len() && dag_of(b).reaches(
                    x,
                    chain[b[x].last_pivot_in_past as int] as int,
                ) by {
                    assert(a[x].last_pivot_in_past < chain.len());
                }
            }
            assert(same_origins(a, b, k + 1));
            assert(same_origins(a, b, k));
            assert(same_weights(a, b, k));
            assert(same_places(a, b, k));
            lemma_frame_trees(self.inner_conf, a, b, self.trees, k + 1, k);
            lemma_frame_cache(a, b, self.anticone_cache@, k + 1);
            if start.tail_holds(k) {
                lemma_frame_tail(a, b, self.pivot_chain_metadata@, chain, k);
            }
        }
    }

    /// The newest block and the blocks that record a pivot block from
    /// `update_at` on.
    fn outdated_blocks(&self, me: usize, update_at: usize) -> (set: BlockSet)
        requires
            links_ok(self.nodes()),
            me < self.size(),
            metadata_ok(
                self.nodes(),
                self.pivot_chain_metadata@,
                self.pivot_chain@,
                me as nat,
            ),
        ensures
            set.wf(),
            set@ == outdated(self.pivot_chain_metadata@, me as int, update_at as int),
            forall|x: int| #[trigger]
                set@.contains(x) <==> x == me || exists|i: int|
                    update_at <= i < self.pivot_chain_metadata@.len() && 0 <= x < me
                        && #[trigger] self.pivot_chain_metadata@[i].last_pivot_in_past_blocks@
                        .contains(x as usize),
    {
        let ghost lists = self.pivot_chain_metadata@;
        proof {
            lemma_node(self.nodes(), me as int);
        }
        let mut set = BlockSet::new();
        set.add(me);
        let mut i: usize = update_at;
        while i < self.pivot_chain_metadata.len()
            invariant
                links_ok(self.nodes()),
                me < self.size(),
                me < index_limit(),
                lists == self.pivot_chain_metadata@,
                metadata_ok(self.nodes(), lists, self.pivot_chain@, me as nat),
                update_at <= i,
                set.wf(),
                forall|x: int| #[trigger]
                    set@.contains(x) <==> x == me || exists|k: int|
                        update_at <= k < i && k < lists.len() && 0 <= x < me
                            && #[trigger] lists[k].last_pivot_in_past_blocks@.contains(x as usize),
            decreases lists.len() - i,
        {
            let items: Vec<usize> = set_to_vec(
                &self.pivot_chain_metadata[i].last_pivot_in_past_blocks,
            );
            let ghost members = lists[i as int].last_pivot_in_past_blocks@;
            let ghost before = set@;
            proof {
                assert forall|j: int| 0 <= j < items@.len() implies (#[trigger] items@[j])
                    < me by {
                    assert(items@.contains(items@[j]));
                    assert(members.contains(items@[j]));
                    reveal(metadata_ok);
                }
            }
            let mut j: usize = 0;
            while j < items.len()
                invariant
                    me < index_limit(),
                    set.wf(),
                    j <= items@.len(),
                    forall|k: int| 0 <= k < items@.len() ==> (#[trigger] items@[k]) < me,
                    forall|x: int| #[trigger]
                        set@.contains(x) <==> before.contains(x) || (0 <= x < me && items@.take(
                            j as int,
                        ).contains(x as usize)),
                decreases items@.len() - j,
            {
                let x: usize = items[j];
                assert(items@[j as int] < me);
                set.add(x);
                j = j + 1;
                proof {
                    assert(items@.take(j as int) =~= items@.take(j - 1).push(x));
                    assert forall|y: int| #[trigger] set@.contains(y) <==> before.contains(y) || (0
                        <= y < me && items@.take(j as int).contains(y as usize)) by {
                        lemma_push_contains(items@.take(j - 1), x, y as usize);
                    }
                }
            }
            i = i + 1;
            proof {
                assert(items@.take(items@.len() as int) =~= items@);
                assert forall|x: int| #[trigger] set@.contains(x) <==> x == me || exists|k: int|
                    update_at <= k < i && k < lists.len() && 0 <= x < me
                        && #[trigger] lists[k].last_pivot_in_past_blocks@.contains(x as usize) by {
                    let inside = |z: int, b: int|
                        exists|k: int|
                            update_at <= k < b && k < lists.len() && 0 <= z < me
                                && #[trigger] lists[k].last_pivot_in_past_blocks@.contains(
                                z as usize,
                            );
                    if set@.contains(x) && x != me {
                        if before.contains(x) {
                            let k = choose|k: int|
                                update_at <= k < i - 1 && k < lists.len() && 0 <= x < me
                                    && #[trigger] lists[k].last_pivot_in_past_blocks@.contains(
                                    x as usize,
                                );
                            assert(lists[k].last_pivot_in_past_blocks@.contains(x as usize));
                        } else {
                            assert(lists[i - 1].last_pivot_in_past_blocks@.contains(x as usize));
                        }
                    }
                    if inside(x, i as int) {
                        let k = choose|k: int|
                            update_at <= k < i && k < lists.len() && 0 <= x < me
                                && #[trigger] lists[k].last_pivot_in_past_blocks@.contains(
                                x as usize,
                            );
                        if k < i - 1 {
                            assert(inside(x, i - 1));
                            assert(before.contains(x));
                        } else {
                            assert(items@.contains(x as usize));
                        }
                    }
                }
            }
        }
        set
    }

    /// Records the newest block as the new end of the chain.
    fn record_extension(&mut self, me: usize)
        requires
            old(self).arena.wf(),
            links_ok(old(self).nodes()),
            old(self).is_newest(me as int),
            chain_ok(old(self).parents(), old(self).pivot_chain@),
            old(self).pivot_chain@.last() == me,
            last_pivots_ok(
                old(self).nodes().take(me as int),
                old(self).pivot_chain@.drop_last(),
            ),
            metadata_ok(
                old(self).nodes(),
                old(self).pivot_chain_metadata@,
                old(self).pivot_chain@.drop_last(),
                me as nat,
            ),
        ensures
            final(self).arena.wf(),
            *final(self) == (ConsensusGraphInner {
                arena: final(self).arena,
                pivot_chain_metadata: final(self).pivot_chain_metadata,
                ..*old(self)
            }),
            same_but_pivots(old(self).nodes(), final(self).nodes()),
            final(self).nodes()[me as int].last_pivot_in_past == old(self).pivot_chain@.len() - 1,
            forall|x: int|
                0 <= x < me ==> (#[trigger] final(self).nodes()[x]).last_pivot_in_past
                    == old(self).nodes()[x].last_pivot_in_past,
            final(self).pivot_chain_metadata@.len() == old(self).pivot_chain_metadata@.len() + 1,
            final(self).pivot_chain_metadata@.drop_last() == old(self).pivot_chain_metadata@,
            final(self).pivot_chain_metadata@.last().last_pivot_in_past_blocks@ == set![me],
            last_pivots_ok(final(self).nodes(), old(self).pivot_chain@),
            metadata_ok(
                final(self).nodes(),
                final(self).pivot_chain_metadata@,
                old(self).pivot_chain@,
                old(self).size(),
            ),
    {
        let ghost a = self.nodes();
        let ghost chain = self.pivot_chain@;
        let ghost lists = self.pivot_chain_metadata@;
        let ghost g = self.dag();
        proof {
            lemma_node(a, me as int);
            lemma_chain_index(self.parents(), chain, chain.len() - 1);
            crate::state::lemma_depth_bounded(self.parents(), me as int);
        }
        let height: usize = self.arena.get(me).height as usize;
        let node = self.arena.get_mut(me);
        node.last_pivot_in_past = height;
        let mut blocks: HashSet<usize> = HashSet::new();
        blocks.insert(me);
        self.pivot_chain_metadata.push(
            ConsensusGraphPivotData { last_pivot_in_past_blocks: blocks },
        );
        proof {
            let b = self.nodes();
            assert(same_links(a, b));
            lemma_same_links(a, b);
            let short = chain.drop_last();
            assert(last_pivots_ok(b, chain)) by {
                assert forall|x: int| 0 <= x < b.len() implies (
                #[trigger] b[x]).last_pivot_in_past < chain.len() && dag_of(b).reaches(
                    x,
                    chain[b[x].last_pivot_in_past as int] as int,
                ) by {
                    if x < me {
                        let t = a.take(me as int);
                        assert(t[x] == a[x] && b[x] == a[x]);
                        let l = t[x].last_pivot_in_past as int;
                        assert(l < short.len() && dag_of(t).reaches(x, short[l] as int));
                        assert(short[l] == chain[l]);
                        assert(same_origins(t, a, me as nat));
                        crate::frames::lemma_same_below(t, a, me as nat);
                        assert(dag_of(a).reaches(x, chain[l] as int));
                    } else {
                        assert(g.reaches(x, x));
                    }
                }
            }
            reveal(metadata_ok);
            let n = self.pivot_chain_metadata@;
            assert forall|x: int| 0 <= x < b.len() implies n[(
            #[trigger] b[x]).last_pivot_in_past as int].last_pivot_in_past_blocks@.contains(
                x as usize,
            ) by {
                if x < me {
                    assert(b[x] == a[x]);
                    let l = a[x].last_pivot_in_past as int;
                    assert(a.take(me as int)[x] == a[x]);
                    assert(lists[l].last_pivot_in_past_blocks@.contains(x as usize));
                    assert(n[l] == lists[l]);
                }
            }
            assert forall|i: int, x: usize|
                0 <= i < n.len() implies (#[trigger] n[i].last_pivot_in_past_blocks@.contains(
                x,
            ) <==> x < b.len() && b[x as int].last_pivot_in_past == i) by {
                if i < lists.len() {
                    assert(n[i] == lists[i]);
                    assert(lists[i].last_pivot_in_past_blocks@.contains(x) <==> x < me && a[x as int]
                        .last_pivot_in_past == i);
                } else if x < me {
                    assert(a.take(me as int)[x as int] == a[x as int]);
                }
            }
        }
    }
}

/// The lists stay right while the records do not change.
proof fn lemma_lists_same(
    b: Seq<ConsensusGraphNode>,
    c: Seq<ConsensusGraphNode>,
    lists: Seq<ConsensusGraphPivotData>,
    chain: Seq<usize>,
    k: nat,
)
    requires
        metadata_ok(b, lists, chain, k),
        k <= b.len(),
        same_but_epochs(b, c),
    ensures
        metadata_ok(c, lists, chain, k),
{
    reveal(metadata_ok);
    assert forall|x: int| 0 <= x < k implies (#[trigger] c[x]).last_pivot_in_past
        == b[x].last_pivot_in_past by {}
    assert forall|x: int| 0 <= x < k implies lists[(
    #[trigger] c[x]).last_pivot_in_past as int].last_pivot_in_past_blocks@.contains(
        x as usize,
    ) by {
        assert(b[x].last_pivot_in_past == c[x].last_pivot_in_past);
    }
    assert forall|i: int, x: usize| 0 <= i < lists.len() implies (
    #[trigger] lists[i].last_pivot_in_past_blocks@.contains(x) <==> x < k && c[x as int]
        .last_pivot_in_past == i) by {
        if x < k {
            assert(b[x as int].last_pivot_in_past == c[x as int].last_pivot_in_past);
        }
    }
}

/// What right lists hold records the pivot block that lists it.
proof fn lemma_lists_sound(
    nodes: Seq<ConsensusGraphNode>,
    lists: Seq<ConsensusGraphPivotData>,
    chain: Seq<usize>,
    k: nat,
    start_at: int,
)
    requires
        metadata_ok(nodes, lists, chain, k),
        k <= nodes.len(),
    ensures
        lists_sound(nodes, lists, start_at),
{
    reveal(metadata_ok);
}

/// The lists of the pivot blocks are right after recomputing.
proof fn lemma_lists_ok(
    a: Seq<ConsensusGraphNode>,
    b: Seq<ConsensusGraphNode>,
    m: Seq<ConsensusGraphPivotData>,
    n: Seq<ConsensusGraphPivotData>,
    chain: Seq<usize>,
    next: Seq<usize>,
    start_at: int,
    set: Set<int>,
    me: int,
)
    requires
        0 < me == a.len() - 1,
        links_ok(a),
        chain_ok(parents_of(a), next),
        0 < start_at,
        metadata_ok(a, m, chain, me as nat),
        pivots_recomputed(a, b, next, start_at, set),
        lists_recomputed(m, n, b, next, start_at, set),
        last_pivots_ok(b, next),
        set.contains(me),
        forall|x: int| #[trigger] set.contains(x) ==> 0 <= x <= me,
        forall|x: int|
            0 <= x < me && !set.contains(x) ==> (#[trigger] a[x]).last_pivot_in_past < start_at,
        forall|x: int| 0 <= x < me ==> (#[trigger] a[x]).last_pivot_in_past < m.len(),
        a[0].last_pivot_in_past == 0,
    ensures
        metadata_ok(b, n, next, a.len()),
{
    reveal(metadata_ok);
    lemma_node(a, me);
    assert forall|x: int| 0 <= x < a.len() implies n[(
    #[trigger] b[x]).last_pivot_in_past as int].last_pivot_in_past_blocks@.contains(
        x as usize,
    ) by {
        let l = b[x].last_pivot_in_past as int;
        assert(l < next.len());
        if is_late_pivot(next, start_at, x) {
            let i = choose|i: int| start_at <= i < next.len() && 0 <= i && #[trigger] next[i] == x;
            assert(b[next[i] as int].last_pivot_in_past == i);
            assert(n[i].last_pivot_in_past_blocks@.contains(x as usize));
        } else if is_recomputed(next, start_at, set, x) {
            assert(n[l].last_pivot_in_past_blocks@.contains(x as usize));
        } else {
            assert(b[x].last_pivot_in_past == a[x].last_pivot_in_past);
            assert(x != me);
            assert(m[a[x].last_pivot_in_past as int].last_pivot_in_past_blocks@.contains(
                x as usize,
            ));
            assert(l < start_at);
            assert(n[l].last_pivot_in_past_blocks@.contains(x as usize));
        }
    }
    assert forall|i: int, x: usize|
        0 <= i < n.len() implies (#[trigger] n[i].last_pivot_in_past_blocks@.contains(x) <==> x
        < a.len() && b[x as int].last_pivot_in_past == i) by {
        if n[i].last_pivot_in_past_blocks@.contains(x) {
            if i >= start_at && x == next[i] {
                assert(next[i] < parents_of(a).len());
                assert(b[next[i] as int].last_pivot_in_past == i);
            } else if is_recomputed(next, start_at, set, x as int) {
                assert(set.contains(x as int));
            } else {
                assert(m[i].last_pivot_in_past_blocks@.contains(x));
                assert(b[x as int].last_pivot_in_past == a[x as int].last_pivot_in_past);
            }
        }
    }
}

impl ConsensusGraphInner {
    /// Settles the newest block: sets its flags and, if it is fully valid,
    /// counts its weight and moves the pivot chain, the epochs and the records
    /// along.
    #[verifier::spinoff_prover]
    #[verifier::rlimit(100)]
    pub fn finish_block(
        &mut self,
        me: usize,
        stable: bool,
        adaptive: bool,
        fully_valid: bool,
    ) -> (r: PivotUpdate)
        requires
            old(self).linked(me as int),
            old(self).tail_holds(me as nat),
            fully_valid
                ==> !old(self).nodes()[old(self).nodes()[me as int].parent as int].data.partial_invalid,
        ensures
            final(self).wf(),
            *final(self) == (ConsensusGraphInner {
                arena: final(self).arena,
                pivot_chain: final(self).pivot_chain,
                pivot_chain_metadata: final(self).pivot_chain_metadata,
                trees: final(self).trees,
                ..*old(self)
            }),
            same_but_places(
                old(self).nodes().update(
                    me as int,
                    flagged(old(self).nodes()[me as int], stable, adaptive, !fully_valid),
                ),
                final(self).nodes(),
            ),
            pivot_step(
                final(self).nodes(),
                subtree_weights(
                    final(self).inner_conf,
                    final(self).nodes(),
                    final(self).size(),
                ),
                old(self).pivot_chain@,
                me as int,
                fully_valid,
                final(self).pivot_chain@,
                r.fork_at as int,
            ),
            r.old_len == old(self).pivot_chain@.len(),
            0 < r.fork_at <= old(self).pivot_chain@.len() + 1,
            fully_valid ==> r.fork_at <= old(self).pivot_chain@.len(),
            r.extended == (fully_valid && old(self).nodes()[me as int].parent
                == old(self).pivot_chain@.last()),
            records_settled(
                old(self).nodes(),
                final(self).nodes(),
                old(self).pivot_chain_metadata@,
                final(self).pivot_chain_metadata@,
                final(self).pivot_chain@,
                me as int,
                r,
            ),
            r.weight == weight_of(final(self).inner_conf, final(self).nodes()[me as int]),
            0 <= r.weight <= weight_limit(),
    {
        let ghost start = *self;
        let ghost chain = self.pivot_chain@;
        let ghost lists = self.pivot_chain_metadata@;
        let ghost n = self.size();
        let ghost k = me as nat;
        proof {
            lemma_node(self.nodes(), me as int);
        }
        let parent: usize = self.arena.get(me).parent;
        let old_len: usize = self.pivot_chain.len();
        self.set_flags(me, stable, adaptive, fully_valid);
        let ghost b = self.nodes();
        let ghost par = self.parents();
        proof {
            lemma_node(b, me as int);
            lemma_chain_length(par, chain);
            lemma_indices_distinct(b, self.indices@);
            lemma_root_record(b, chain);
            lemma_newest_off_chain(*self, me as int);
            lemma_weight_bounds(self.inner_conf, b, me as int);
            assert(lists.len() == old_len) by {
                reveal(metadata_ok);
            }
        }
        if !fully_valid {
            proof {
                self.lemma_trees_without(me as int);
            }
            let ghost flagged_state = *self;
            let set: BlockSet = self.outdated_blocks(me, old_len);
            let ghost s = set@;
            proof {
                assert forall|x: int|
                    0 <= x < n && !is_recomputed(chain, old_len + 1, s, x)
                        && !is_late_pivot(
                        chain,
                        old_len + 1,
                        x,
                    ) implies #[trigger] records_past_pivot(b, chain, x) by {
                    assert(b[x].last_pivot_in_past < chain.len());
                }
            }
            proof {
                lemma_lists_sound(b, lists, chain, me as nat, old_len + 1);
            }
            self.recompute_metadata(old_len + 1, set);
            proof {
                let d = self.nodes();
                lemma_lists_ok(
                    b,
                    d,
                    lists,
                    self.pivot_chain_metadata@,
                    chain,
                    chain,
                    old_len + 1,
                    s,
                    me as int,
                );
                lemma_records_moved(
                    start.nodes(),
                    b,
                    d,
                    lists,
                    self.pivot_chain_metadata@,
                    chain,
                    old_len + 1,
                    s,
                );
                assert(same_but_epochs(b, b));
                lemma_settled(flagged_state, *self, b);
                lemma_pivot_step_same(
                    self.inner_conf,
                    b,
                    d,
                    chain,
                    me as int,
                    false,
                    chain,
                    old_len + 1,
                );
            }
            let r = PivotUpdate { old_len, fork_at: old_len + 1, extended: false, weight: 0 };
            proof {
                reveal(records_settled);
            }
            return r;
        }
        let weight: i128 = self.update_lcts_finalize(me, stable);
        let ghost counted = *self;
        let r: (Vec<usize>, usize) = self.next_pivot_chain(me);
        let next: Vec<usize> = r.0;
        let fork_at: usize = r.1;
        let extended: bool = parent == self.pivot_chain[old_len - 1];
        let ghost w = subtree_weights(self.inner_conf, b, n);
        let set: BlockSet = self.outdated_blocks(me, fork_at - 1);
        let ghost s = set@;
        if fork_at < old_len {
            self.clear_epochs(fork_at);
        } else {
            assert(chain.take(old_len as int) =~= chain);
        }
        let ghost cleared = self.nodes();
        proof {
            if fork_at >= old_len {
                assert(same_but_epochs(b, cleared));
            }
            assert(same_links(b, cleared));
            lemma_same_links(b, cleared);
        }
        let ghost moved = next@;
        self.pivot_chain = next;
        self.assign_epochs(fork_at);
        let ghost c = self.nodes();
        proof {
            crate::epochs::lemma_same_but_epochs_transitive(b, cleared, c);
            assert(same_links(b, c));
            lemma_same_links(b, c);
        }
        if extended {
            proof {
                assert(moved == chain.push(me));
                assert(moved.drop_last() =~= chain);
                assert(last_pivots_ok(c.take(me as int), chain)) by {
                    let t = c.take(me as int);
                    assert(same_origins(t, b, k));
                    crate::frames::lemma_same_below(t, b, k);
                    assert forall|x: int| 0 <= x < t.len() implies (
                    #[trigger] t[x]).last_pivot_in_past < chain.len() && dag_of(t).reaches(
                        x,
                        chain[t[x].last_pivot_in_past as int] as int,
                    ) by {
                        assert(t[x] == c[x]);
                        assert(b[x].last_pivot_in_past < chain.len());
                    }
                }
                lemma_lists_same(b, c, lists, chain, k);
            }
            self.record_extension(me);
        } else {
            proof {
                assert forall|x: int|
                    0 <= x < n && !is_recomputed(moved, fork_at as int, s, x)
                        && !is_late_pivot(
                        moved,
                        fork_at as int,
                        x,
                    ) implies #[trigger] records_past_pivot(c, moved, x) by {
                    assert(b[x].last_pivot_in_past == c[x].last_pivot_in_past);
                    lemma_prefix_place(chain, moved, fork_at as int, 0);
                    assert(dag_of(b).reaches(0, 0));
                    if x != 0 {
                        assert(!s.contains(x));
                        lemma_recent_record(b, lists, chain, s, fork_at - 1, me as int, x);
                        lemma_prefix_place(
                            chain,
                            moved,
                            fork_at as int,
                            b[x].last_pivot_in_past as int,
                        );
                    }
                }
            }
            proof {
                lemma_lists_same(b, c, lists, chain, k);
                lemma_lists_sound(c, lists, chain, k, fork_at as int);
            }
            self.recompute_metadata(fork_at, set);
            proof {
                assert forall|x: int| 0 <= x < me && !s.contains(x) implies (
                #[trigger] c[x]).last_pivot_in_past < fork_at by {
                    assert(b[x].last_pivot_in_past == c[x].last_pivot_in_past);
                    lemma_recent_record(b, lists, chain, s, fork_at - 1, me as int, x);
                }
                assert forall|x: int| 0 <= x < me implies (#[trigger] c[x]).last_pivot_in_past
                    < lists.len() by {
                    assert(b[x].last_pivot_in_past == c[x].last_pivot_in_past);
                }
                assert forall|x: int| 0 <= x < n implies (#[trigger] c[x]).last_pivot_in_past
                    == start.nodes()[x].last_pivot_in_past by {
                    assert(b[x].last_pivot_in_past == c[x].last_pivot_in_past);
                    assert(b[x].last_pivot_in_past == start.nodes()[x].last_pivot_in_past);
                }
                lemma_records_moved(
                    start.nodes(),
                    c,
                    self.nodes(),
                    lists,
                    self.pivot_chain_metadata@,
                    moved,
                    fork_at as int,
                    s,
                );
                lemma_lists_ok(
                    c,
                    self.nodes(),
                    lists,
                    self.pivot_chain_metadata@,
                    chain,
                    moved,
                    fork_at as int,
                    s,
                    me as int,
                );
            }
        }
        proof {
            let d = self.nodes();
            lemma_settled(counted, *self, c);
            lemma_pivot_step_same(
                self.inner_conf,
                b,
                d,
                chain,
                me as int,
                true,
                moved,
                fork_at as int,
            );
        }
        let r = PivotUpdate { old_len, fork_at, extended, weight };
        proof {
            reveal(records_settled);
        }
        r
    }

    /// Takes the decision on the newest block into the graph and its trees, and
    /// leaves the pivot chain for later.
    pub fn finish_construction(
        &mut self,
        me: usize,
        stable: bool,
        adaptive: bool,
        fully_valid: bool,
    )
        requires
            old(self).linked(me as int),
        ensures
            final(self).ready(),
            *final(self) == (ConsensusGraphInner {
                arena: final(self).arena,
                trees: final(self).trees,
                ..*old(self)
            }),
            final(self).nodes() == old(self).nodes().update(
                me as int,
                flagged(old(self).nodes()[me as int], stable, adaptive, !fully_valid),
            ),
    {
        self.set_flags(me, stable, adaptive, fully_valid);
        if fully_valid {
            let _weight: i128 = self.update_lcts_finalize(me, stable);
        } else {
            proof {
                self.lemma_trees_without(me as int);
            }
        }
    }
}

/// The newest block, which is in no epoch, is not on the chain.
proof fn lemma_newest_off_chain(inner: ConsensusGraphInner, me: int)
    requires
        inner.base_ok(),
        inner.is_newest(me),
        inner.nodes()[me].data.epoch_number == crate::dag::NULL,
    ensures
        forall|i: int|
            0 <= i < inner.pivot_chain@.len() ==> (#[trigger] inner.pivot_chain@[i]) != me,
{
    let g = inner.dag();
    let chain = inner.pivot_chain@;
    lemma_node(inner.nodes(), me);
    assert(epoch_ok(g, chain, me, inner.nodes()[me].data.epoch_number)) by {
        reveal(epochs_ok);
    }
    assert forall|i: int| 0 <= i < chain.len() implies (#[trigger] chain[i]) != me by {
        crate::anticone::lemma_chain_sees(g, chain, i, chain.len() - 1);
    }
}

/// Two chains with the same beginning agree on its places.
proof fn lemma_prefix_place(a: Seq<usize>, b: Seq<usize>, at: int, i: int)
    requires
        0 <= i < at <= a.len(),
        at <= b.len(),
        b.take(at) == a.take(at),
    ensures
        a[i] == b[i],
{
    assert(a.take(at)[i] == a[i]);
    assert(b.take(at)[i] == b[i]);
}

/// A block that is not outdated records an early pivot block.
proof fn lemma_recent_record(
    nodes: Seq<ConsensusGraphNode>,
    lists: Seq<ConsensusGraphPivotData>,
    chain: Seq<usize>,
    set: Set<int>,
    update_at: int,
    me: int,
    x: int,
)
    requires
        0 <= x < me < nodes.len(),
        metadata_ok(nodes, lists, chain, me as nat),
        nodes[x].last_pivot_in_past < chain.len(),
        !set.contains(x),
        forall|y: int| #[trigger]
            set.contains(y) <==> y == me || exists|i: int|
                update_at <= i < lists.len() && 0 <= y < me
                    && #[trigger] lists[i].last_pivot_in_past_blocks@.contains(y as usize),
    ensures
        nodes[x].last_pivot_in_past < update_at,
{
    reveal(metadata_ok);
    let l = nodes[x].last_pivot_in_past as int;
    assert(lists[l].last_pivot_in_past_blocks@.contains(x as usize));
    if l >= update_at {
        assert(set.contains(x));
    }
}

/// The state is in order once the places have been settled.
pub proof fn lemma_settled(
    before: ConsensusGraphInner,
    after: ConsensusGraphInner,
    c: Seq<ConsensusGraphNode>,
)
    requires
        before.base_ok(),
        before.trees_hold(before.size(), before.size()),
        before.cache_holds(before.size()),
        after.arena.wf(),
        after == (ConsensusGraphInner {
            arena: after.arena,
            pivot_chain: after.pivot_chain,
            pivot_chain_metadata: after.pivot_chain_metadata,
            ..before
        }),
        same_but_epochs(before.nodes(), c),
        same_but_pivots(c, after.nodes()),
        chain_ok(before.parents(), after.pivot_chain@),
        epochs_ok(c, after.pivot_chain@),
        last_pivots_ok(after.nodes(), after.pivot_chain@),
        metadata_ok(
            after.nodes(),
            after.pivot_chain_metadata@,
            after.pivot_chain@,
            before.size(),
        ),
        tip_ok(before.nodes(), after.pivot_chain@, before.size()),
    ensures
        after.wf(),
        same_but_places(before.nodes(), after.nodes()),
{
    let a = before.nodes();
    let d = after.nodes();
    let chain = after.pivot_chain@;
    let n = before.size();
    assert forall|i: int| 0 <= i < a.len() implies #[trigger] d[i] == (ConsensusGraphNode {
        last_pivot_in_past: d[i].last_pivot_in_past,
        data: ConsensusGraphNodeData { epoch_number: d[i].data.epoch_number, ..a[i].data },
        ..a[i]
    }) by {
        assert(c[i] == (ConsensusGraphNode {
            data: ConsensusGraphNodeData { epoch_number: c[i].data.epoch_number, ..a[i].data },
            ..a[i]
        }));
    }
    assert(same_links(a, d));
    assert(same_links(c, d));
    assert(same_links(a, c));
    lemma_same_links(c, d);
    lemma_same_links(a, c);
    assert(before.pivot_chain@[0] < n);
    assert(same_weights(a, d, (n - 1) as nat));
    assert(same_weights(a, d, n));
    assert(same_origins(a, d, n));
    lemma_graph_kept(before, after);
    lemma_frame_trees(before.inner_conf, a, d, after.trees, n, n);
    assert(epochs_ok(d, chain)) by {
        reveal(epochs_ok);
        assert forall|x: int| 0 <= x < d.len() implies epoch_ok(
            dag_of(d),
            chain,
            x,
            (#[trigger] d[x]).data.epoch_number,
        ) by {
            assert(epoch_ok(dag_of(c), chain, x, c[x].data.epoch_number));
            assert(d[x].data.epoch_number == c[x].data.epoch_number);
        }
    }
    assert(tip_ok(d, chain, n)) by {
        assert forall|x: int|
            0 <= x < n && #[trigger] crate::dag::ancestor(
                parents_of(d),
                chain.last() as int,
                x,
            ) && x != chain.last() implies d[x].data.partial_invalid by {
            assert(crate::dag::ancestor(parents_of(a), chain.last() as int, x));
            assert(a[x].data.partial_invalid);
        }
    }
}

} // verus!
