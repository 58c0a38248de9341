//! The last pivot block in the past of each block.

use vstd::prelude::*;
use std::collections::HashSet;
use crate::anticone::{is_last_pivot_below, records_past_pivot};
#[allow(unused_imports)]
use crate::anticone::lemma_pivot_below_sound;
use crate::arena::{dag_of, ConsensusGraphNode, ConsensusGraphPivotData};
use crate::bits::BlockSet;
#[allow(unused_imports)]
use crate::bits::index_limit;
use crate::dag::rooted;
use crate::model::{chain_ok, last_pivots_ok, links_ok, parents_of};
use crate::state::ConsensusGraphInner;
#[allow(unused_imports)]
use crate::state::lemma_node;
#[allow(unused_imports)]
use crate::validity::lemma_chain_index;
#[allow(unused_imports)]
use crate::views::{lemma_same_links, same_links};

verus! {

broadcast use vstd::std_specs::hash::group_hash_axioms;

/// The nodes differ in the recorded last pivot blocks alone.
pub open spec fn same_but_pivots(a: Seq<ConsensusGraphNode>, b: Seq<ConsensusGraphNode>) -> bool {
    &&& a.len() == b.len()
    &&& forall|i: int|
        0 <= i < a.len() ==> #[trigger] b[i] == (ConsensusGraphNode {
            last_pivot_in_past: b[i].last_pivot_in_past,
            ..a[i]
        })
}

/// `x` is the block of the chain at its height, from `start_at` on.
pub open spec fn is_late_pivot(chain: Seq<usize>, start_at: int, x: int) -> bool {
    exists|i: int| start_at <= i < chain.len() && 0 <= i && #[trigger] chain[i] == x
}

/// `x` is to be recomputed and is neither the first block nor on the chain
/// from `start_at` on.
pub open spec fn is_recomputed(
    chain: Seq<usize>,
    start_at: int,
    to_update: Set<int>,
    x: int,
) -> bool {
    to_update.contains(x) && x != 0 && !is_late_pivot(chain, start_at, x)
}

/// The records `b` after recomputing `to_update` in the records `a`: late pivot
/// blocks record themselves, the recomputed blocks the largest record below
/// them, and the others what they did.
pub open spec fn pivots_recomputed(
    a: Seq<ConsensusGraphNode>,
    b: Seq<ConsensusGraphNode>,
    chain: Seq<usize>,
    start_at: int,
    to_update: Set<int>,
) -> bool {
    &&& same_but_pivots(a, b)
    &&& forall|i: int|
        start_at <= i < chain.len() && 0 <= i ==> b[#[trigger] chain[i] as int].last_pivot_in_past
            == i
    &&& forall|x: int| #[trigger]
        is_recomputed(chain, start_at, to_update, x) ==> is_last_pivot_below(
            b,
            x,
            b[x].last_pivot_in_past,
        )
    &&& forall|x: int|
        0 <= x < a.len() && !is_recomputed(chain, start_at, to_update, x) && !is_late_pivot(
            chain,
            start_at,
            x,
        ) ==> (#[trigger] b[x]).last_pivot_in_past == a[x].last_pivot_in_past
}

/// The lists of the pivot blocks after recomputing: those from `start_at` on
/// begin anew with the pivot block, the recomputed blocks and the late pivot
/// blocks leave the others, and every recomputed block joins the list of the
/// pivot block that it records.
pub open spec fn lists_recomputed(
    m: Seq<ConsensusGraphPivotData>,
    n: Seq<ConsensusGraphPivotData>,
    b: Seq<ConsensusGraphNode>,
    chain: Seq<usize>,
    start_at: int,
    to_update: Set<int>,
) -> bool {
    &&& n.len() == chain.len()
    &&& forall|i: int, x: usize|
        0 <= i < chain.len() ==> (#[trigger] n[i].last_pivot_in_past_blocks@.contains(x) <==> (
        i < start_at && i < m.len() && m[i].last_pivot_in_past_blocks@.contains(x)
            && !is_recomputed(chain, start_at, to_update, x as int) && !is_late_pivot(
            chain,
            start_at,
            x as int,
        )) || (i >= start_at && x == chain[i]) || (is_recomputed(
            chain,
            start_at,
            to_update,
            x as int,
        ) && b[x as int].last_pivot_in_past == i))
}

/// What the pivot blocks before `start_at` list records them.
pub open spec fn lists_sound(
    nodes: Seq<ConsensusGraphNode>,
    lists: Seq<ConsensusGraphPivotData>,
    start_at: int,
) -> bool {
    forall|i: int, x: usize|
        0 <= i < lists.len() && i < start_at
            && #[trigger] lists[i].last_pivot_in_past_blocks@.contains(x) ==> x < nodes.len()
            && nodes[x as int].last_pivot_in_past == i
}

/// The records and the lists of the pivot blocks moved from `a` and `m` to `b`
/// and `n` when `to_update` was recomputed on a chain that is new from
/// `start_at` on.
pub open spec fn records_moved(
    a: Seq<ConsensusGraphNode>,
    b: Seq<ConsensusGraphNode>,
    m: Seq<ConsensusGraphPivotData>,
    n: Seq<ConsensusGraphPivotData>,
    chain: Seq<usize>,
    start_at: int,
    to_update: Set<int>,
) -> bool {
    &&& forall|i: int|
        start_at <= i < chain.len() && 0 <= i ==> b[#[trigger] chain[i] as int].last_pivot_in_past
            == i
    &&& forall|x: int| #[trigger]
        is_recomputed(chain, start_at, to_update, x) ==> is_last_pivot_below(
            b,
            x,
            b[x].last_pivot_in_past,
        )
    &&& forall|x: int|
        0 <= x < a.len() && !is_recomputed(chain, start_at, to_update, x) && !is_late_pivot(
            chain,
            start_at,
            x,
        ) ==> (#[trigger] b[x]).last_pivot_in_past == a[x].last_pivot_in_past
    &&& lists_recomputed(m, n, b, chain, start_at, to_update)
}

/// Recomputing moves the records, whatever else changed before.
pub proof fn lemma_records_moved(
    a: Seq<ConsensusGraphNode>,
    c: Seq<ConsensusGraphNode>,
    b: Seq<ConsensusGraphNode>,
    m: Seq<ConsensusGraphPivotData>,
    n: Seq<ConsensusGraphPivotData>,
    chain: Seq<usize>,
    start_at: int,
    to_update: Set<int>,
)
    requires
        a.len() == c.len(),
        forall|x: int|
            0 <= x < a.len() ==> (#[trigger] c[x]).last_pivot_in_past == a[x].last_pivot_in_past,
        pivots_recomputed(c, b, chain, start_at, to_update),
        lists_recomputed(m, n, b, chain, start_at, to_update),
    ensures
        records_moved(a, b, m, n, chain, start_at, to_update),
{
    assert forall|x: int|
        0 <= x < a.len() && !is_recomputed(chain, start_at, to_update, x) && !is_late_pivot(
            chain,
            start_at,
            x,
        ) implies (#[trigger] b[x]).last_pivot_in_past == a[x].last_pivot_in_past by {
        assert(c[x].last_pivot_in_past == a[x].last_pivot_in_past);
    }
}

impl ConsensusGraphInner {
    /// Brings the lists of the pivot blocks to the length of the chain.
    fn resize_metadata(&mut self)
        ensures
            *final(self) == (ConsensusGraphInner {
                pivot_chain_metadata: final(self).pivot_chain_metadata,
                ..*old(self)
            }),
            final(self).pivot_chain_metadata@.len() == old(self).pivot_chain@.len(),
            forall|i: int|
                0 <= i < old(self).pivot_chain_metadata@.len() && i
                    < old(self).pivot_chain@.len() ==> #[trigger] final(self).pivot_chain_metadata@[i] == old(self).pivot_chain_metadata@[i],
            forall|i: int|
                old(self).pivot_chain_metadata@.len() <= i < old(self).pivot_chain@.len()
                    ==> #[trigger] final(self).pivot_chain_metadata@[i].last_pivot_in_past_blocks@ == Set::<usize>::empty(),
    {
        let ghost start = *self;
        let len: usize = self.pivot_chain.len();
        if self.pivot_chain_metadata.len() > len {
            self.pivot_chain_metadata.truncate(len);
        }
        while self.pivot_chain_metadata.len() < len
            invariant
                *self == (ConsensusGraphInner {
                    pivot_chain_metadata: self.pivot_chain_metadata,
                    ..start
                }),
                len == start.pivot_chain@.len(),
                self.pivot_chain_metadata@.len() <= len,
                self.pivot_chain_metadata@.len() >= start.pivot_chain_metadata@.len()
                    || self.pivot_chain_metadata@.len() == len,
                forall|i: int|
                    0 <= i < start.pivot_chain_metadata@.len() && i
                        < self.pivot_chain_metadata@.len()
                        ==> #[trigger] self.pivot_chain_metadata@[i]
                        == start.pivot_chain_metadata@[i],
                forall|i: int|
                    start.pivot_chain_metadata@.len() <= i < self.pivot_chain_metadata@.len()
                        ==> #[trigger] self.pivot_chain_metadata@[i].last_pivot_in_past_blocks@
                        == Set::<usize>::empty(),
            decreases len - self.pivot_chain_metadata@.len(),
        {
            self.pivot_chain_metadata.push(ConsensusGraphPivotData::default());
        }
    }

    /// Recomputes the last pivot block in the past of the given blocks, after
    /// the chain changed from `start_at` on.
    pub fn recompute_metadata(&mut self, start_at: usize, to_update: BlockSet)
        requires
            old(self).arena.wf(),
            links_ok(old(self).nodes()),
            chain_ok(old(self).parents(), old(self).pivot_chain@),
            lists_sound(
                old(self).nodes(),
                old(self).pivot_chain_metadata@,
                start_at as int,
            ),
            to_update.wf(),
            forall|x: int| #[trigger] to_update@.contains(x) ==> x < old(self).size(),
            forall|x: int|
                0 <= x < old(self).size() && !is_recomputed(
                    old(self).pivot_chain@,
                    start_at as int,
                    to_update@,
                    x,
                ) && !is_late_pivot(old(self).pivot_chain@, start_at as int, x)
                    ==> #[trigger] records_past_pivot(
                    old(self).nodes(),
                    old(self).pivot_chain@,
                    x,
                ),
        ensures
            final(self).arena.wf(),
            *final(self) == (ConsensusGraphInner {
                arena: final(self).arena,
                pivot_chain_metadata: final(self).pivot_chain_metadata,
                ..*old(self)
            }),
            pivots_recomputed(
                old(self).nodes(),
                final(self).nodes(),
                old(self).pivot_chain@,
                start_at as int,
                to_update@,
            ),
            lists_recomputed(
                old(self).pivot_chain_metadata@,
                final(self).pivot_chain_metadata@,
                final(self).nodes(),
                old(self).pivot_chain@,
                start_at as int,
                to_update@,
            ),
            last_pivots_ok(final(self).nodes(), old(self).pivot_chain@),
    {
        let ghost start = *self;
        let ghost a = self.nodes();
        let ghost par = self.parents();
        let ghost g = self.dag();
        let ghost chain = self.pivot_chain@;
        let ghost lists = self.pivot_chain_metadata@;
        let ghost wanted = to_update@;
        let mut left: BlockSet = to_update;
        self.resize_metadata();
        proof {
            assert(rooted(par) && a.len() <= index_limit()) by {
                reveal(links_ok);
            }
            left.lemma_members_bounded();
        }
        let mut i: usize = start_at;
        while i < self.pivot_chain.len()
            invariant
                self.arena.wf(),
                *self == (ConsensusGraphInner {
                    arena: self.arena,
                    pivot_chain_metadata: self.pivot_chain_metadata,
                    ..start
                }),
                a == start.nodes(),
                par == parents_of(a),
                chain == start.pivot_chain@,
                lists == start.pivot_chain_metadata@,
                lists_sound(a, lists, start_at as int),
                rooted(par),
                a.len() <= index_limit(),
                chain_ok(par, chain),
                start_at <= i,
                i <= chain.len() || i == start_at,
                left.wf(),
                forall|x: int| #[trigger]
                    left@.contains(x) <==> wanted.contains(x) && !is_late_pivot(
                        chain.take(if i <= chain.len() {
                            i as int
                        } else {
                            chain.len() as int
                        }),
                        start_at as int,
                        x,
                    ),
                same_but_pivots(a, self.nodes()),
                forall|k: int|
                    start_at <= k < i && k < chain.len()
                        ==> self.nodes()[#[trigger] chain[k] as int].last_pivot_in_past == k,
                forall|x: int|
                    0 <= x < a.len() && !is_late_pivot(
                        chain.take(if i <= chain.len() {
                            i as int
                        } else {
                            chain.len() as int
                        }),
                        start_at as int,
                        x,
                    ) ==> (#[trigger] self.nodes()[x]).last_pivot_in_past
                        == a[x].last_pivot_in_past,
                self.pivot_chain_metadata@.len() == chain.len(),
                forall|k: int, x: usize|
                    0 <= k < chain.len() && k < start_at ==> (
                    #[trigger] self.pivot_chain_metadata@[k].last_pivot_in_past_blocks@.contains(x)
                        <==> k < lists.len() && lists[k].last_pivot_in_past_blocks@.contains(x)
                        && !is_late_pivot(
                        chain.take(if i <= chain.len() {
                            i as int
                        } else {
                            chain.len() as int
                        }),
                        start_at as int,
                        x as int,
                    )),
                forall|k: int, x: usize|
                    start_at <= k < i && k < chain.len() ==> (
                    #[trigger] self.pivot_chain_metadata@[k].last_pivot_in_past_blocks@.contains(x)
                        <==> x == chain[k]),
            decreases chain.len() - i,
        {
            let me: usize = self.pivot_chain[i];
            let ghost before = self.nodes();
            let ghost had = self.pivot_chain_metadata@;
            let ghost seen = left@;
            proof {
                assert(chain[i as int] < par.len());
                assert(chain[chain.len() - 1] < par.len());
            }
            let last: usize = self.arena.get(me).last_pivot_in_past;
            proof {
                let t = chain.take(i as int);
                assert(!is_late_pivot(t, start_at as int, me as int)) by {
                    if is_late_pivot(t, start_at as int, me as int) {
                        let k = choose|k: int|
                            start_at <= k < t.len() && 0 <= k && #[trigger] t[k] == me;
                        lemma_chain_distinct(par, chain, k, i as int);
                    }
                }
                assert(last == a[me as int].last_pivot_in_past);
            }
            if last < start_at && last < self.pivot_chain_metadata.len() {
                let list = &mut self.pivot_chain_metadata[last];
                list.last_pivot_in_past_blocks.remove(&me);
            }
            let ghost left_out = self.pivot_chain_metadata@;
            let node = self.arena.get_mut(me);
            node.last_pivot_in_past = i;
            let mut blocks: HashSet<usize> = HashSet::new();
            blocks.insert(me);
            self.pivot_chain_metadata.set(
                i,
                ConsensusGraphPivotData { last_pivot_in_past_blocks: blocks },
            );
            left.remove(me);
            i = i + 1;
            proof {
                let now = self.nodes();
                assert forall|k: int| start_at <= k < i && k < chain.len() implies now[
                    #[trigger] chain[k] as int].last_pivot_in_past == k by {
                    if k < i - 1 {
                        lemma_chain_distinct(par, chain, k, i - 1);
                        assert(before[chain[k] as int].last_pivot_in_past == k);
                        assert(now[chain[k] as int] == before[chain[k] as int]);
                    }
                }
                assert forall|x: int| 0 <= x < a.len() implies #[trigger] now[x] == (
                ConsensusGraphNode { last_pivot_in_past: now[x].last_pivot_in_past, ..a[x] }) by {
                    assert(before[x] == (ConsensusGraphNode {
                        last_pivot_in_past: before[x].last_pivot_in_past,
                        ..a[x]
                    }));
                }
                let t = chain.take(i - 1);
                let u = chain.take(i as int);
                assert forall|x: int| #[trigger] left@.contains(x) <==> wanted.contains(x)
                    && !is_late_pivot(u, start_at as int, x) by {
                    if is_late_pivot(u, start_at as int, x) {
                        let k = choose|k: int|
                            start_at <= k < u.len() && 0 <= k && #[trigger] u[k] == x;
                        if k < i - 1 {
                            assert(t[k] == x);
                            assert(is_late_pivot(t, start_at as int, x));
                        } else {
                            assert(x == me);
                        }
                    }
                    if is_late_pivot(t, start_at as int, x) {
                        let k = choose|k: int|
                            start_at <= k < t.len() && 0 <= k && #[trigger] t[k] == x;
                        assert(u[k] == x);
                    }
                    if x == me {
                        assert(u[i - 1] == x);
                        assert(is_late_pivot(u, start_at as int, x));
                    }
                    assert(seen.contains(x) <==> wanted.contains(x) && !is_late_pivot(
                        t,
                        start_at as int,
                        x,
                    ));
                }
                assert forall|x: int| #[trigger] is_late_pivot(u, start_at as int, x)
                    <==> is_late_pivot(t, start_at as int, x) || x == me by {
                    if is_late_pivot(u, start_at as int, x) {
                        let k = choose|k: int|
                            start_at <= k < u.len() && 0 <= k && #[trigger] u[k] == x;
                        if k < i - 1 {
                            assert(t[k] == x);
                        }
                    }
                    if is_late_pivot(t, start_at as int, x) {
                        let k = choose|k: int|
                            start_at <= k < t.len() && 0 <= k && #[trigger] t[k] == x;
                        assert(u[k] == x);
                    }
                    if x == me {
                        assert(u[i - 1] == x);
                    }
                }
                assert forall|x: int|
                    0 <= x < a.len() && !is_late_pivot(u, start_at as int, x) implies (
                #[trigger] now[x]).last_pivot_in_past == a[x].last_pivot_in_past by {
                    assert(now[x] == before[x]);
                    assert(before[x].last_pivot_in_past == a[x].last_pivot_in_past);
                }
                assert forall|k: int, x: usize|
                    start_at <= k < i && k < chain.len() implies (
                #[trigger] self.pivot_chain_metadata@[k].last_pivot_in_past_blocks@.contains(x)
                    <==> x == chain[k]) by {
                    if k < i - 1 {
                        assert(left_out[k] == had[k]);
                        assert(had[k].last_pivot_in_past_blocks@.contains(x) <==> x == chain[k]);
                    }
                }
                assert forall|k: int, x: usize|
                    0 <= k < chain.len() && k < start_at implies (
                #[trigger] self.pivot_chain_metadata@[k].last_pivot_in_past_blocks@.contains(x)
                    <==> k < lists.len() && lists[k].last_pivot_in_past_blocks@.contains(x)
                    && !is_late_pivot(u, start_at as int, x as int)) by {
                    assert(self.pivot_chain_metadata@[k] == left_out[k]);
                    assert(had[k].last_pivot_in_past_blocks@.contains(x) <==> k < lists.len()
                        && lists[k].last_pivot_in_past_blocks@.contains(x) && !is_late_pivot(
                        t,
                        start_at as int,
                        x as int,
                    ));
                    if k == last {
                        assert(left_out[k].last_pivot_in_past_blocks@.contains(x)
                            <==> had[k].last_pivot_in_past_blocks@.contains(x) && x != me);
                    } else {
                        assert(left_out[k] == had[k]);
                        if k < lists.len() && lists[k].last_pivot_in_past_blocks@.contains(me) {
                            assert(a[me as int].last_pivot_in_past == k);
                        }
                    }
                }
            }
        }
        let ghost b = self.nodes();
        let ghost base = self.pivot_chain_metadata@;
        let items: Vec<usize> = left.to_vec();
        let ghost todo = left@;
        proof {
            let c = if i <= chain.len() {
                i as int
            } else {
                chain.len() as int
            };
            assert(chain.take(c) =~= chain);
            assert forall|x: int| #[trigger] todo.contains(x) <==> wanted.contains(x)
                && !is_late_pivot(chain, start_at as int, x) by {
                assert(left@.contains(x) <==> wanted.contains(x) && !is_late_pivot(
                    chain.take(c),
                    start_at as int,
                    x,
                ));
            }
            assert(same_links(a, b));
            lemma_same_links(a, b);
            assert forall|y: int|
                0 <= y < a.len() && !is_recomputed(
                    chain,
                    start_at as int,
                    wanted,
                    y,
                ) implies #[trigger] records_past_pivot(b, chain, y) by {
                if is_late_pivot(chain, start_at as int, y) {
                    let k = choose|k: int|
                        start_at <= k < chain.len() && 0 <= k && #[trigger] chain[k] == y;
                    assert(b[chain[k] as int].last_pivot_in_past == k);
                    assert(g.reaches(y, y));
                } else {
                    assert(records_past_pivot(a, chain, y));
                }
            }
            assert forall|j: int| 0 <= j < items@.len() implies (#[trigger] items@[j])
                < a.len() by {
                assert(todo.contains(items@[j] as int));
            }
            assert forall|k: int, x: usize|
                0 <= k < chain.len() && #[trigger] base[k].last_pivot_in_past_blocks@.contains(x)
                    && todo.contains(x as int) implies k < start_at && b[x as int]
                .last_pivot_in_past == k by {
                if k < start_at {
                    assert(lists[k].last_pivot_in_past_blocks@.contains(x));
                    assert(a[x as int].last_pivot_in_past == k);
                    assert(b[x as int].last_pivot_in_past == a[x as int].last_pivot_in_past);
                } else {
                    assert(x == chain[k]);
                    assert(is_late_pivot(chain, start_at as int, x as int));
                }
            }
        }
        let mut j: usize = 0;
        while j < items.len()
            invariant
                self.arena.wf(),
                *self == (ConsensusGraphInner {
                    arena: self.arena,
                    pivot_chain_metadata: self.pivot_chain_metadata,
                    ..start
                }),
                a == start.nodes(),
                g == dag_of(a),
                chain == start.pivot_chain@,
                links_ok(a),
                links_ok(b),
                same_but_pivots(a, b),
                same_but_pivots(a, self.nodes()),
                j <= items@.len(),
                forall|k: int|
                    0 <= k < items@.len() ==> (#[trigger] items@[k]) < a.len() && todo.contains(
                        items@[k] as int,
                    ),
                forall|k: int, l: int|
                    0 <= k < l < items@.len() ==> #[trigger] items@[k] < #[trigger] items@[l],
                forall|x: int| #[trigger]
                    todo.contains(x) <==> wanted.contains(x) && !is_late_pivot(
                        chain,
                        start_at as int,
                        x,
                    ),
                forall|x: int|
                    0 <= x < a.len() && !(items@.take(j as int).contains(x as usize) && x != 0)
                        ==> (#[trigger] self.nodes()[x]).last_pivot_in_past
                        == b[x].last_pivot_in_past,
                forall|y: int|
                    0 <= y < a.len() && (!is_recomputed(chain, start_at as int, wanted, y)
                        || items@.take(j as int).contains(y as usize))
                        ==> #[trigger] records_past_pivot(self.nodes(), chain, y),
                forall|k: int|
                    0 <= k < j && items@[k] != 0 ==> is_last_pivot_below(
                        self.nodes(),
                        #[trigger] items@[k] as int,
                        self.nodes()[items@[k] as int].last_pivot_in_past,
                    ),
                a.len() <= index_limit(),
                forall|y: int| #[trigger]
                    todo.contains(y) ==> 0 <= y < index_limit() && items@.contains(y as usize),
                base.len() == chain.len(),
                forall|k: int, x: usize|
                    0 <= k < chain.len()
                        && #[trigger] base[k].last_pivot_in_past_blocks@.contains(x)
                        && todo.contains(x as int) ==> k < start_at && b[x as int]
                        .last_pivot_in_past == k,
                self.pivot_chain_metadata@.len() == chain.len(),
                forall|k: int, x: usize|
                    0 <= k < chain.len() ==> (
                    #[trigger] self.pivot_chain_metadata@[k].last_pivot_in_past_blocks@.contains(x)
                        <==> (base[k].last_pivot_in_past_blocks@.contains(x) && !(items@.take(
                        j as int,
                    ).contains(x) && x != 0)) || (items@.take(j as int).contains(x) && x != 0
                        && self.nodes()[x as int].last_pivot_in_past == k)),
            decreases items@.len() - j,
        {
            let me: usize = items[j];
            let ghost before = self.nodes();
            let ghost had = self.pivot_chain_metadata@;
            let ghost done = items@.take(j as int);
            proof {
                assert(items@[j as int] < a.len());
                assert(items@.take(j + 1) =~= done.push(me));
                assert forall|x: usize| items@.take(j + 1).contains(x) <==> done.contains(x) || x
                    == me by {
                    crate::order::lemma_push_contains(done, me, x);
                }
                assert(!done.contains(me)) by {
                    if done.contains(me) {
                        let k = done.index_of(me);
                        assert(items@[k] == me);
                    }
                }
                assert(same_links(a, before));
                lemma_same_links(a, before);
            }
            if me != 0 {
                let last: usize = self.largest_pivot_below(me);
                proof {
                    assert forall|y: int|
                        0 <= y < me && #[trigger] dag_of(before).edge(
                            me as int,
                            y,
                        ) implies records_past_pivot(before, chain, y) by {
                        if is_recomputed(chain, start_at as int, wanted, y) {
                            assert(todo.contains(y));
                            let k = items@.index_of(y as usize);
                            assert(items@[k] == y);
                            if k >= j {
                                assert(items@[j as int] <= items@[k]);
                            }
                            assert(done[k] == y);
                            assert(done.contains(y as usize));
                        }
                    }
                    lemma_pivot_below_sound(before, chain, me as int, last);
                }
                let recorded: usize = self.arena.get(me).last_pivot_in_past;
                if recorded < start_at && recorded < self.pivot_chain_metadata.len() {
                    let list = &mut self.pivot_chain_metadata[recorded];
                    list.last_pivot_in_past_blocks.remove(&me);
                }
                let ghost left_out = self.pivot_chain_metadata@;
                let node = self.arena.get_mut(me);
                node.last_pivot_in_past = last;
                let list = &mut self.pivot_chain_metadata[last];
                list.last_pivot_in_past_blocks.insert(me);
                proof {
                    let now = self.nodes();
                    assert(now[me as int].last_pivot_in_past == last);
                    assert forall|x: int| 0 <= x < a.len() && x != me implies #[trigger] now[x]
                        == before[x] by {}
                    assert forall|x: int| 0 <= x < a.len() implies #[trigger] now[x] == (
                    ConsensusGraphNode {
                        last_pivot_in_past: now[x].last_pivot_in_past,
                        ..a[x]
                    }) by {
                        assert(before[x] == (ConsensusGraphNode {
                            last_pivot_in_past: before[x].last_pivot_in_past,
                            ..a[x]
                        }));
                    }
                    assert(same_links(a, now));
                    lemma_same_links(a, now);
                    assert forall|k: int|
                        0 <= k < j + 1 && items@[k] != 0 implies is_last_pivot_below(
                        now,
                        #[trigger] items@[k] as int,
                        now[items@[k] as int].last_pivot_in_past,
                    ) by {
                        let x = items@[k] as int;
                        if k < j {
                            assert(items@[k] < items@[j as int]);
                            assert(is_last_pivot_below(
                                before,
                                items@[k] as int,
                                before[x].last_pivot_in_past,
                            ));
                        }
                        lemma_below_untouched(before, now, x, me as int);
                    }
                    assert forall|k: int, x: usize| 0 <= k < chain.len() implies (
                    #[trigger] self.pivot_chain_metadata@[k].last_pivot_in_past_blocks@.contains(x)
                        <==> (base[k].last_pivot_in_past_blocks@.contains(x) && !(items@.take(
                        j + 1,
                    ).contains(x) && x != 0)) || (items@.take(j + 1).contains(x) && x != 0
                        && now[x as int].last_pivot_in_past == k)) by {
                        assert(had[k].last_pivot_in_past_blocks@.contains(x) <==> (
                        base[k].last_pivot_in_past_blocks@.contains(x) && !(done.contains(x) && x
                            != 0)) || (done.contains(x) && x != 0
                            && before[x as int].last_pivot_in_past == k));
                        assert(todo.contains(me as int));
                        assert(recorded == b[me as int].last_pivot_in_past);
                        if x == me {
                            assert(!left_out[k].last_pivot_in_past_blocks@.contains(x)) by {
                                if had[k].last_pivot_in_past_blocks@.contains(x) {
                                    assert(base[k].last_pivot_in_past_blocks@.contains(x));
                                    assert(k == recorded);
                                }
                            }
                        } else {
                            assert(left_out[k].last_pivot_in_past_blocks@.contains(x)
                                <==> had[k].last_pivot_in_past_blocks@.contains(x));
                        }
                        assert(items@.take(j + 1).contains(x) <==> done.contains(x) || x == me);
                        if done.contains(x) {
                            let l = done.index_of(x);
                            assert(items@[l] == x);
                            assert(x < a.len());
                        }
                    }
                    assert forall|y: int|
                        0 <= y < a.len() && (!is_recomputed(chain, start_at as int, wanted, y)
                            || items@.take(j + 1).contains(
                            y as usize,
                        )) implies #[trigger] records_past_pivot(now, chain, y) by {
                        assert(items@.take(j + 1).contains(y as usize) <==> done.contains(
                            y as usize,
                        ) || y as usize == me);
                        if y != me {
                            assert(records_past_pivot(before, chain, y));
                        }
                    }
                    assert forall|x: int|
                        0 <= x < a.len() && !(items@.take(j + 1).contains(x as usize) && x
                            != 0) implies (#[trigger] now[x]).last_pivot_in_past
                        == b[x].last_pivot_in_past by {
                        assert(items@.take(j + 1).contains(x as usize) <==> done.contains(
                            x as usize,
                        ) || x as usize == me);
                        if x != me {
                            assert(before[x].last_pivot_in_past == b[x].last_pivot_in_past);
                        }
                    }
                }
            } else {
                proof {
                    assert forall|y: int|
                        0 <= y < a.len() && (!is_recomputed(chain, start_at as int, wanted, y)
                            || items@.take(j + 1).contains(
                            y as usize,
                        )) implies #[trigger] records_past_pivot(before, chain, y) by {
                        assert(items@.take(j + 1).contains(y as usize) <==> done.contains(
                            y as usize,
                        ) || y as usize == me);
                        if y == 0 {
                            assert(!is_recomputed(chain, start_at as int, wanted, y));
                        }
                    }
                    assert forall|k: int, x: usize| 0 <= k < chain.len() implies (
                    #[trigger] had[k].last_pivot_in_past_blocks@.contains(x) <==> (
                    base[k].last_pivot_in_past_blocks@.contains(x) && !(items@.take(
                        j + 1,
                    ).contains(x) && x != 0)) || (items@.take(j + 1).contains(x) && x != 0
                        && before[x as int].last_pivot_in_past == k)) by {
                        assert(items@.take(j + 1).contains(x) <==> done.contains(x) || x == me);
                    }
                }
            }
            j = j + 1;
        }
        proof {
            assert(items@.take(items@.len() as int) =~= items@);
            let c = self.nodes();
            assert(same_links(a, c));
            lemma_same_links(a, c);
            assert forall|x: int| #[trigger]
                is_recomputed(chain, start_at as int, wanted, x) implies is_last_pivot_below(
                c,
                x,
                c[x].last_pivot_in_past,
            ) by {
                assert(todo.contains(x));
                let k = items@.index_of(x as usize);
                assert(items@[k] == x);
            }
            assert forall|x: int|
                0 <= x < a.len() && !is_recomputed(chain, start_at as int, wanted, x)
                    && !is_late_pivot(chain, start_at as int, x) implies (
            #[trigger] c[x]).last_pivot_in_past == a[x].last_pivot_in_past by {
                if items@.contains(x as usize) {
                    let k = items@.index_of(x as usize);
                    assert(todo.contains(items@[k] as int));
                }
                assert(c[x].last_pivot_in_past == b[x].last_pivot_in_past);
                assert(b[x].last_pivot_in_past == a[x].last_pivot_in_past);
            }
            assert forall|k: int|
                start_at <= k < chain.len() && 0 <= k implies c[
                #[trigger] chain[k] as int].last_pivot_in_past == k by {
                let x = chain[k] as int;
                assert(is_late_pivot(chain, start_at as int, x));
                assert(chain[k] < par.len());
                if items@.contains(x as usize) {
                    let l = items@.index_of(x as usize);
                    assert(todo.contains(items@[l] as int));
                }
                assert(c[x].last_pivot_in_past == b[x].last_pivot_in_past);
            }
            assert(last_pivots_ok(c, chain)) by {
                assert forall|x: int| 0 <= x < c.len() implies (#[trigger] c[x]).last_pivot_in_past
                    < chain.len() && dag_of(c).reaches(
                    x,
                    chain[c[x].last_pivot_in_past as int] as int,
                ) by {
                    if is_recomputed(chain, start_at as int, wanted, x) {
                        assert(todo.contains(x));
                    }
                    assert(records_past_pivot(c, chain, x));
                }
            }
            assert forall|k: int, x: usize| 0 <= k < chain.len() implies (
            #[trigger] self.pivot_chain_metadata@[k].last_pivot_in_past_blocks@.contains(x) <==> (
            k < start_at && k < lists.len() && lists[k].last_pivot_in_past_blocks@.contains(x)
                && !is_recomputed(chain, start_at as int, wanted, x as int) && !is_late_pivot(
                chain,
                start_at as int,
                x as int,
            )) || (k >= start_at && x == chain[k]) || (is_recomputed(
                chain,
                start_at as int,
                wanted,
                x as int,
            ) && c[x as int].last_pivot_in_past == k)) by {
                assert(items@.contains(x) && x != 0 <==> is_recomputed(
                    chain,
                    start_at as int,
                    wanted,
                    x as int,
                )) by {
                    if items@.contains(x) {
                        let l = items@.index_of(x);
                        assert(todo.contains(items@[l] as int));
                    }
                    if is_recomputed(chain, start_at as int, wanted, x as int) {
                        assert(todo.contains(x as int));
                    }
                }
                assert(base[k].last_pivot_in_past_blocks@.contains(x) <==> (k < start_at && k
                    < lists.len() && lists[k].last_pivot_in_past_blocks@.contains(x)
                    && !is_late_pivot(chain, start_at as int, x as int)) || (k >= start_at && x
                    == chain[k]));
                if k >= start_at && x == chain[k] {
                    assert(is_late_pivot(chain, start_at as int, x as int));
                }
            }
        }
    }
}

/// Two places of the chain hold different blocks.
pub proof fn lemma_chain_distinct(par: Seq<usize>, chain: Seq<usize>, i: int, j: int)
    requires
        rooted(par),
        chain_ok(par, chain),
        0 <= i < chain.len(),
        0 <= j < chain.len(),
        i != j,
    ensures
        chain[i] != chain[j],
{
    lemma_chain_index(par, chain, i);
    lemma_chain_index(par, chain, j);
}

/// A change of a record above `x` does not touch the records below `x`.
proof fn lemma_below_untouched(
    a: Seq<ConsensusGraphNode>,
    b: Seq<ConsensusGraphNode>,
    x: int,
    me: int,
)
    requires
        links_ok(a),
        links_ok(b),
        0 < x <= me < a.len(),
        same_links(a, b),
        forall|y: int| 0 <= y < a.len() && y != me ==> #[trigger] b[y] == a[y],
    ensures
        forall|l: usize| #[trigger]
            is_last_pivot_below(b, x, l) == is_last_pivot_below(a, x, l),
{
    lemma_node(a, x);
    lemma_node(b, x);
    assert(a[x].parent == b[x].parent && a[x].referees == b[x].referees);
    let p = a[x].parent as int;
    assert(b[p] == a[p]);
    let refs = a[x].referees@;
    assert forall|i: int| 0 <= i < refs.len() implies b[#[trigger] refs[i] as int]
        == a[refs[i] as int] by {
        assert(refs[i] < x);
    }
    assert forall|l: usize| #[trigger] is_last_pivot_below(b, x, l) == is_last_pivot_below(
        a,
        x,
        l,
    ) by {
        if is_last_pivot_below(b, x, l) && l != b[p].last_pivot_in_past {
            let i = choose|i: int|
                0 <= i < refs.len() && l == b[#[trigger] refs[i] as int].last_pivot_in_past;
            assert(a[refs[i] as int].last_pivot_in_past == l);
        }
        if is_last_pivot_below(a, x, l) && l != a[p].last_pivot_in_past {
            let i = choose|i: int|
                0 <= i < refs.len() && l == a[#[trigger] refs[i] as int].last_pivot_in_past;
            assert(b[refs[i] as int].last_pivot_in_past == l);
        }
    }
}

} // verus!
