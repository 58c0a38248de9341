//! The order of the blocks of an epoch.

use vstd::prelude::*;
use std::collections::HashSet;
use crate::arena::{dag_of, set_to_vec, ConsensusGraphNode};
use crate::dag::Dag;
use crate::model::{epoch_list_ok, in_own_epoch, indices_ok, links_ok};
use crate::state::{lemma_node, ConsensusGraphInner};
use crate::types::H256;

verus! {

broadcast use vstd::std_specs::hash::group_hash_axioms;

/// `m` is in the set and no block of the set refers to it.
pub open spec fn is_source(g: Dag, s: Set<usize>, m: usize) -> bool {
    &&& s.contains(m)
    &&& forall|c: usize| #[trigger] s.contains(c) ==> !g.edge(c as int, m as int)
}

/// `m` is the source with the largest hash.
pub open spec fn is_best_source(
    nodes: Seq<ConsensusGraphNode>,
    s: Set<usize>,
    m: usize,
) -> bool {
    &&& is_source(dag_of(nodes), s, m)
    &&& forall|c: usize| #[trigger]
        is_source(dag_of(nodes), s, c) ==> c == m || nodes[m as int].hash.exceeds(
            nodes[c as int].hash,
        )
}

/// The list holds the set, and from the end to the front each block is the
/// source with the largest hash among the blocks that are left.
pub open spec fn is_topological_order(
    nodes: Seq<ConsensusGraphNode>,
    s: Set<usize>,
    list: Seq<usize>,
) -> bool {
    &&& list.no_duplicates()
    &&& list.to_set() == s
    &&& forall|i: int|
        0 <= i < list.len() ==> is_best_source(
            nodes,
            list.take(i + 1).to_set(),
            #[trigger] list[i],
        )
}

/// The blocks of the own epoch of `x` stand in their order, with `x` behind them.
pub open spec fn ordered_by_hash(nodes: Seq<ConsensusGraphNode>, x: int) -> bool {
    is_topological_order(
        nodes,
        nodes[x].data.blockset_in_own_view_of_epoch@,
        nodes[x].data.ordered_epoch_blocks@.drop_last(),
    )
}

/// The order of a set rests on the hashes and the links of blocks up to its last.
pub proof fn lemma_order_carried(
    a: Seq<ConsensusGraphNode>,
    b: Seq<ConsensusGraphNode>,
    s: Set<usize>,
    list: Seq<usize>,
    k: nat,
)
    requires
        is_topological_order(a, s, list),
        forall|y: usize| #[trigger] s.contains(y) ==> y < k,
        k <= a.len(),
        k <= b.len(),
        forall|i: int|
            #![trigger a[i]]
            #![trigger b[i]]
            0 <= i < k ==> {
                &&& a[i].hash == b[i].hash
                &&& a[i].parent == b[i].parent
                &&& a[i].referees@ == b[i].referees@
            },
    ensures
        is_topological_order(b, s, list),
{
    let g = dag_of(a);
    let h = dag_of(b);
    assert forall|c: int, m: int| 0 <= c < k implies #[trigger] h.edge(c, m) == g.edge(c, m) by {
        assert(g.parent[c] == a[c].parent && h.parent[c] == b[c].parent);
        assert(g.referees[c] == a[c].referees@ && h.referees[c] == b[c].referees@);
    }
    assert forall|i: int| 0 <= i < list.len() implies is_best_source(
        b,
        list.take(i + 1).to_set(),
        #[trigger] list[i],
    ) by {
        let t = list.take(i + 1).to_set();
        assert forall|c: usize| #[trigger] t.contains(c) implies c < k by {
            let j = list.take(i + 1).index_of(c);
            assert(list[j] == c);
            assert(list.to_set().contains(c));
        }
        assert(is_best_source(a, t, list[i]));
        assert forall|c: usize| #[trigger] t.contains(c) implies !h.edge(
            c as int,
            list[i] as int,
        ) by {
            assert(!g.edge(c as int, list[i] as int));
        }
        assert forall|c: usize| #[trigger] is_source(h, t, c) implies c == list[i]
            || b[list[i] as int].hash.exceeds(b[c as int].hash) by {
            assert forall|d: usize| #[trigger] t.contains(d) implies !g.edge(
                d as int,
                c as int,
            ) by {
                assert(!h.edge(d as int, c as int));
            }
            assert(is_source(g, t, c));
            assert(a[c as int].hash == b[c as int].hash);
            assert(a[list[i] as int].hash == b[list[i] as int].hash);
        }
    }
}

/// No two blocks have the same hash.
pub open spec fn distinct_hashes(nodes: Seq<ConsensusGraphNode>) -> bool {
    forall|i: int, j: int|
        0 <= i < j < nodes.len() ==> (#[trigger] nodes[i]).hash != (#[trigger] nodes[j]).hash
}

pub proof fn lemma_indices_distinct(nodes: Seq<ConsensusGraphNode>, indices: Map<H256, usize>)
    requires
        indices_ok(nodes, indices),
    ensures
        distinct_hashes(nodes),
{
    assert forall|i: int, j: int| 0 <= i < j < nodes.len() implies (#[trigger] nodes[i]).hash != (
    #[trigger] nodes[j]).hash by {
        assert(indices[nodes[i].hash] == i);
        assert(indices[nodes[j].hash] == j);
    }
}

/// Children and referrers list the incoming edges, parent and referees the
/// outgoing ones.
pub proof fn lemma_edges_listed(nodes: Seq<ConsensusGraphNode>, c: int, m: int)
    requires
        links_ok(nodes),
        0 <= m < nodes.len(),
        0 <= c < nodes.len(),
    ensures
        dag_of(nodes).edge(c, m) <==> nodes[m].children@.contains(c as usize)
            || nodes[m].referrers@.contains(c as usize),
        dag_of(nodes).edge(c, m) <==> nodes[c].parent == m || nodes[c].referees@.contains(
            m as usize,
        ),
{
    let g = dag_of(nodes);
    lemma_node(nodes, c);
    lemma_node(nodes, m);
    reveal(links_ok);
    if nodes[c].parent == m {
        assert(c > 0);
        assert(nodes[nodes[c].parent as int].children@.contains(c as usize));
    }
    if nodes[c].referees@.contains(m as usize) {
        let j = nodes[c].referees@.index_of(m as usize);
        assert(nodes[c].referees@[j] == m);
        assert(nodes[nodes[c].referees@[j] as int].referrers@.contains(c as usize));
    }
    if nodes[m].children@.contains(c as usize) {
        let j = nodes[m].children@.index_of(c as usize);
        assert(nodes[m].children@[j] == c);
        assert(nodes[nodes[m].children@[j] as int].parent == m);
    }
    if nodes[m].referrers@.contains(c as usize) {
        let j = nodes[m].referrers@.index_of(c as usize);
        assert(nodes[m].referrers@[j] == c);
        assert(nodes[c].referees@.contains(m as usize));
        let k = nodes[c].referees@.index_of(m as usize);
        assert(nodes[c].referees@[k] == m);
    }
}

/// From every block of a set some source of the set is above it.
proof fn lemma_has_source(g: Dag, s: Set<usize>, x: usize) -> (m: usize)
    requires
        s.contains(x),
        forall|y: usize| #[trigger] s.contains(y) ==> y < g.len(),
    ensures
        is_source(g, s, m),
    decreases g.len() - x,
{
    if is_source(g, s, x) {
        x
    } else {
        let c = choose|c: usize| #[trigger] s.contains(c) && g.edge(c as int, x as int);
        lemma_has_source(g, s, c)
    }
}

/// A set has one topological order.
pub proof fn lemma_topological_order_unique(
    nodes: Seq<ConsensusGraphNode>,
    s: Set<usize>,
    a: Seq<usize>,
    b: Seq<usize>,
)
    requires
        is_topological_order(nodes, s, a),
        is_topological_order(nodes, s, b),
    ensures
        a == b,
    decreases a.len(),
{
    if a.len() == 0 {
        if b.len() > 0 {
            assert(b.to_set().contains(b[0]));
            assert(a.to_set().contains(b[0]));
        }
    } else {
        assert(a.to_set().contains(a[0]));
        assert(b.to_set().contains(a[0]));
        let la = a.last();
        let lb = b.last();
        assert(a.take(a.len() as int) =~= a);
        assert(b.take(b.len() as int) =~= b);
        assert(is_best_source(nodes, a.take(a.len() - 1 + 1).to_set(), a[a.len() - 1]));
        assert(is_best_source(nodes, b.take(b.len() - 1 + 1).to_set(), b[b.len() - 1]));
        assert(la == lb);
        let ra = a.drop_last();
        let rb = b.drop_last();
        assert forall|x: usize| ra.to_set().contains(x) <==> rb.to_set().contains(x) by {
            lemma_drop_last_contains(a, x);
            lemma_drop_last_contains(b, x);
            assert(a.to_set().contains(x) <==> b.to_set().contains(x));
        }
        assert(ra.to_set() =~= rb.to_set());
        assert forall|i: int| 0 <= i < ra.len() implies is_best_source(
            nodes,
            ra.take(i + 1).to_set(),
            #[trigger] ra[i],
        ) by {
            assert(ra.take(i + 1) =~= a.take(i + 1));
            assert(ra[i] == a[i]);
        }
        assert forall|i: int| 0 <= i < rb.len() implies is_best_source(
            nodes,
            rb.take(i + 1).to_set(),
            #[trigger] rb[i],
        ) by {
            assert(rb.take(i + 1) =~= b.take(i + 1));
            assert(rb[i] == b[i]);
        }
        lemma_topological_order_unique(nodes, ra.to_set(), ra, rb);
        assert(a =~= ra.push(la));
        assert(b =~= rb.push(lb));
    }
}

proof fn lemma_drop_last_contains(a: Seq<usize>, x: usize)
    requires
        a.len() > 0,
        a.no_duplicates(),
    ensures
        a.drop_last().contains(x) <==> a.contains(x) && x != a.last(),
{
    let r = a.drop_last();
    if r.contains(x) {
        let i = r.index_of(x);
        assert(r[i] == a[i]);
    }
    if a.contains(x) && x != a.last() {
        let i = a.index_of(x);
        assert(r[i] == a[i]);
    }
}

/// The order of the own epoch with the block itself behind it lists the epoch
/// of the block.
pub proof fn lemma_order_lists_epoch(
    nodes: Seq<ConsensusGraphNode>,
    x: usize,
    s: Set<usize>,
    list: Seq<usize>,
)
    requires
        is_topological_order(nodes, s, list),
        x < nodes.len(),
        forall|y: usize| #[trigger] s.contains(y) <==> in_own_epoch(dag_of(nodes), x as int, y as int),
        forall|y: usize| #[trigger] s.contains(y) ==> y < x,
    ensures
        epoch_list_ok(dag_of(nodes), x as int, list.push(x)),
{
    let g = dag_of(nodes);
    let all = list.push(x);
    assert forall|j: int| 0 <= j < list.len() implies s.contains(#[trigger] list[j]) by {
        assert(list.to_set().contains(list[j]));
    }
    assert forall|y: usize| #[trigger] all.contains(y) <==> (y == x || in_own_epoch(
        g,
        x as int,
        y as int,
    )) by {
        if all.contains(y) {
            let i = all.index_of(y);
            if i < list.len() {
                assert(all[i] == list[i]);
            }
        }
        if y == x {
            assert(all[list.len() as int] == x);
        } else if in_own_epoch(g, x as int, y as int) {
            assert(s.contains(y));
            assert(list.to_set().contains(y));
            let i = list.index_of(y);
            assert(all[i] == y);
        }
    }
    assert forall|i: int, j: int|
        0 <= i < all.len() && 0 <= j < all.len() && #[trigger] g.edge(
            all[i] as int,
            all[j] as int,
        ) implies j < i by {
        if j == list.len() {
            if i < list.len() {
                assert(all[i] == list[i]);
            }
        } else if j >= i {
            assert(all[j] == list[j]);
            assert(all[i] == list[i]);
            let prefix = list.take(j + 1);
            assert(is_best_source(nodes, prefix.to_set(), list[j]));
            assert(prefix[i] == list[i]);
            assert(prefix.to_set().contains(list[i]));
            assert(false);
        }
    }
}

impl ConsensusGraphInner {
    /// Whether a block of the set refers to `m`.
    fn is_referred_from(&self, m: usize, set: &HashSet<usize>) -> (referred: bool)
        requires
            self.arena.wf(),
            links_ok(self.nodes()),
            m < self.size(),
            forall|y: usize| #[trigger] set@.contains(y) ==> y < self.size(),
        ensures
            referred <==> exists|c: usize| #[trigger]
                set@.contains(c) && self.dag().edge(c as int, m as int),
    {
        let node = self.arena.get(m);
        let mut j: usize = 0;
        while j < node.children.len()
            invariant
                *node == self.nodes()[m as int],
                links_ok(self.nodes()),
                m < self.size(),
                forall|y: usize| #[trigger] set@.contains(y) ==> y < self.size(),
                j <= node.children@.len(),
                forall|k: int| 0 <= k < j ==> !set@.contains(#[trigger] node.children@[k]),
            decreases node.children@.len() - j,
        {
            let c: usize = node.children[j];
            if set.contains(&c) {
                proof {
                    assert(node.children@.contains(c));
                    lemma_edges_listed(self.nodes(), c as int, m as int);
                }
                return true;
            }
            j = j + 1;
        }
        let mut k: usize = 0;
        while k < node.referrers.len()
            invariant
                *node == self.nodes()[m as int],
                links_ok(self.nodes()),
                m < self.size(),
                forall|y: usize| #[trigger] set@.contains(y) ==> y < self.size(),
                k <= node.referrers@.len(),
                forall|i: int| 0 <= i < k ==> !set@.contains(#[trigger] node.referrers@[i]),
            decreases node.referrers@.len() - k,
        {
            let c: usize = node.referrers[k];
            if set.contains(&c) {
                proof {
                    assert(node.referrers@.contains(c));
                    lemma_edges_listed(self.nodes(), c as int, m as int);
                }
                return true;
            }
            k = k + 1;
        }
        proof {
            assert forall|c: usize| #[trigger] set@.contains(c) implies !self.dag().edge(
                c as int,
                m as int,
            ) by {
                lemma_edges_listed(self.nodes(), c as int, m as int);
                if node.children@.contains(c) {
                    let i = node.children@.index_of(c);
                    assert(node.children@[i] == c);
                }
                if node.referrers@.contains(c) {
                    let i = node.referrers@.index_of(c);
                    assert(node.referrers@[i] == c);
                }
            }
        }
        false
    }

    /// The candidate with the largest hash.
    fn best_candidate(&self, candidates: &Vec<usize>) -> (at: usize)
        requires
            self.arena.wf(),
            candidates@.len() > 0,
            candidates@.no_duplicates(),
            distinct_hashes(self.nodes()),
            forall|k: int| 0 <= k < candidates@.len() ==> (#[trigger] candidates@[k]) < self.size(),
        ensures
            at < candidates@.len(),
            forall|k: int|
                0 <= k < candidates@.len() && k != at
                    ==> self.nodes()[candidates@[at as int] as int].hash.exceeds(
                    self.nodes()[#[trigger] candidates@[k] as int].hash,
                ),
    {
        let mut best: usize = 0;
        let mut j: usize = 1;
        while j < candidates.len()
            invariant
                self.arena.wf(),
                candidates@.no_duplicates(),
                distinct_hashes(self.nodes()),
                forall|k: int|
                    0 <= k < candidates@.len() ==> (#[trigger] candidates@[k]) < self.size(),
                best < j <= candidates@.len(),
                forall|k: int|
                    0 <= k < j && k != best
                        ==> self.nodes()[candidates@[best as int] as int].hash.exceeds(
                        self.nodes()[#[trigger] candidates@[k] as int].hash,
                    ),
            decreases candidates@.len() - j,
        {
            proof {
                let a = candidates@[j as int] as int;
                let b = candidates@[best as int] as int;
                assert(a != b);
                assert(a < b ==> self.nodes()[a].hash != self.nodes()[b].hash);
                assert(b < a ==> self.nodes()[b].hash != self.nodes()[a].hash);
            }
            if self.arena.get(candidates[j]).hash.is_greater(
                &self.arena.get(candidates[best]).hash,
            ) {
                best = j;
            }
            j = j + 1;
        }
        best
    }

    /// The blocks of the set in topological order; among the blocks that may
    /// come last, the one with the largest hash does.
    pub fn topological_sort(&self, index_set: &HashSet<usize>) -> (list: Vec<usize>)
        requires
            self.arena.wf(),
            links_ok(self.nodes()),
            distinct_hashes(self.nodes()),
            forall|y: usize| #[trigger] index_set@.contains(y) ==> y < self.size(),
        ensures
            is_topological_order(self.nodes(), index_set@, list@),
    {
        let items: Vec<usize> = set_to_vec(index_set);
        let ghost nodes = self.nodes();
        let ghost g = self.dag();
        let ghost all = index_set@;
        let mut remaining: HashSet<usize> = HashSet::new();
        let mut j: usize = 0;
        while j < items.len()
            invariant
                j <= items@.len(),
                forall|y: usize| #[trigger]
                    remaining@.contains(y) <==> items@.take(j as int).contains(y),
            decreases items@.len() - j,
        {
            proof {
                assert(items@.take(j + 1) =~= items@.take(j as int).push(items@[j as int]));
                assert forall|y: usize|
                    items@.take(j + 1).contains(y) <==> items@.take(j as int).contains(y) || y
                        == items@[j as int] by {
                    lemma_push_contains(items@.take(j as int), items@[j as int], y);
                }
            }
            remaining.insert(items[j]);
            j = j + 1;
        }
        proof {
            assert(items@.take(items@.len() as int) =~= items@);
            assert(remaining@ =~= all);
        }
        let mut candidates: Vec<usize> = Vec::new();
        j = 0;
        while j < items.len()
            invariant
                self.arena.wf(),
                links_ok(nodes),
                nodes == self.nodes(),
                g == dag_of(nodes),
                all == remaining@,
                forall|y: usize| #[trigger] all.contains(y) ==> y < nodes.len(),
                forall|y: usize| #[trigger] items@.contains(y) <==> all.contains(y),
                items@.no_duplicates(),
                j <= items@.len(),
                candidates@.no_duplicates(),
                forall|y: usize| #[trigger]
                    candidates@.contains(y) <==> items@.take(j as int).contains(y) && is_source(
                        g,
                        all,
                        y,
                    ),
            decreases items@.len() - j,
        {
            let me: usize = items[j];
            proof {
                assert(items@.contains(me));
                assert(all.contains(me));
                assert(items@.take(j + 1) =~= items@.take(j as int).push(me));
                assert(!items@.take(j as int).contains(me)) by {
                    if items@.take(j as int).contains(me) {
                        let i = items@.take(j as int).index_of(me);
                        assert(items@[i] == me);
                    }
                }
            }
            let ghost seen = items@.take(j as int);
            let ghost base = candidates@;
            if !self.is_referred_from(me, &remaining) {
                candidates.push(me);
            }
            j = j + 1;
            proof {
                assert(base.push(me).len() != base.len());
                assert(!base.contains(me));
                assert forall|y: usize| #[trigger]
                    candidates@.contains(y) <==> items@.take(j as int).contains(y) && is_source(
                        g,
                        all,
                        y,
                    ) by {
                    lemma_push_contains(seen, me, y);
                    lemma_push_contains(base, me, y);
                }
            }
        }
        proof {
            assert(items@.take(items@.len() as int) =~= items@);
            assert forall|y: usize| #[trigger]
                candidates@.contains(y) <==> is_source(g, all, y) by {
                assert(items@.contains(y) <==> all.contains(y));
            }
        }
        let mut reversed_indices: Vec<usize> = Vec::new();
        while candidates.len() > 0
            invariant
                self.arena.wf(),
                links_ok(nodes),
                distinct_hashes(nodes),
                nodes == self.nodes(),
                g == dag_of(nodes),
                forall|y: usize| #[trigger] all.contains(y) ==> y < nodes.len(),
                remaining@.finite(),
                candidates@.no_duplicates(),
                forall|y: usize| #[trigger] candidates@.contains(y) <==> is_source(
                    g,
                    remaining@,
                    y,
                ),
                reversed_indices@.no_duplicates(),
                forall|y: usize| #[trigger]
                    remaining@.contains(y) <==> all.contains(y) && !reversed_indices@.contains(y),
                forall|y: usize| #[trigger] reversed_indices@.contains(y) ==> all.contains(y),
                forall|i: int|
                    0 <= i < reversed_indices@.len() ==> is_best_source(
                        nodes,
                        all.difference(reversed_indices@.take(i).to_set()),
                        #[trigger] reversed_indices@[i],
                    ),
            decreases remaining@.len(),
        {
            proof {
                assert forall|k: int| 0 <= k < candidates@.len() implies (
                #[trigger] candidates@[k]) < self.size() by {
                    assert(candidates@.contains(candidates@[k]));
                    assert(all.contains(candidates@[k]));
                }
            }
            let at: usize = self.best_candidate(&candidates);
            let ghost before = candidates@;
            let ghost left = remaining@;
            let ghost rev = reversed_indices@;
            let me: usize = candidates.swap_remove(at);
            proof {
                lemma_swap_remove(before, at as int, candidates@);
                assert(before.contains(me));
                assert(is_source(g, left, me));
                assert(left =~= all.difference(rev.to_set()));
                assert(is_best_source(nodes, left, me)) by {
                    assert forall|c: usize| #[trigger] is_source(g, left, c) implies c == me
                        || nodes[me as int].hash.exceeds(nodes[c as int].hash) by {
                        assert(before.contains(c));
                        let k = before.index_of(c);
                        assert(before[k] == c);
                    }
                }
            }
            remaining.remove(&me);
            reversed_indices.push(me);
            proof {
                let now = reversed_indices@;
                assert forall|y: usize| now.contains(y) <==> rev.contains(y) || y == me by {
                    lemma_push_contains(rev, me, y);
                }
                assert forall|i: int| 0 <= i < now.len() implies is_best_source(
                    nodes,
                    all.difference(now.take(i).to_set()),
                    #[trigger] now[i],
                ) by {
                    if i < rev.len() {
                        assert(now.take(i) =~= rev.take(i));
                        assert(now[i] == rev[i]);
                    } else {
                        assert(now.take(i) =~= rev);
                    }
                }
                assert(remaining@ =~= left.remove(me));
            }
            let ghost base = candidates@;
            proof {
                assert forall|y: usize| #[trigger] base.contains(y) implies is_source(
                    g,
                    remaining@,
                    y,
                ) by {
                    assert(is_source(g, left, y));
                }
                assert(is_source(g, left, me));
                assert forall|y: usize| #[trigger] is_source(g, remaining@, y) && !base.contains(
                    y,
                ) implies g.edge(me as int, y as int) by {
                    if !g.edge(me as int, y as int) {
                        assert(is_source(g, left, y)) by {
                            assert forall|c: usize| #[trigger] left.contains(c) implies !g.edge(
                                c as int,
                                y as int,
                            ) by {
                                assert(c == me || remaining@.contains(c));
                            }
                        }
                        assert(before.contains(y));
                    }
                }
            }
            let parent: usize = self.arena.get(me).parent;
            let mut edges: Vec<usize> = Vec::new();
            edges.push(parent);
            let mut e: usize = 0;
            while e < self.arena.get(me).referees.len()
                invariant
                    self.arena.wf(),
                    me < self.size(),
                    e <= self.nodes()[me as int].referees@.len(),
                    edges@ == seq![self.nodes()[me as int].parent].add(
                        self.nodes()[me as int].referees@.take(e as int),
                    ),
                decreases self.nodes()[me as int].referees@.len() - e,
            {
                edges.push(self.arena.get(me).referees[e]);
                e = e + 1;
                proof {
                    let r = self.nodes()[me as int].referees@;
                    assert(r.take(e as int) =~= r.take(e - 1).push(r[e - 1]));
                }
            }
            proof {
                let r = nodes[me as int].referees@;
                assert(r.take(r.len() as int) =~= r);
                assert forall|y: usize| g.edge(me as int, y as int) implies edges@.contains(y) by {
                    lemma_edges_listed(nodes, me as int, y as int);
                    if nodes[me as int].parent == y {
                        assert(edges@[0] == y);
                    } else {
                        let i = r.index_of(y);
                        assert(edges@[i + 1] == y);
                    }
                }
            }
            e = 0;
            while e < edges.len()
                invariant
                    self.arena.wf(),
                    links_ok(nodes),
                    nodes == self.nodes(),
                    g == dag_of(nodes),
                    forall|y: usize| #[trigger] remaining@.contains(y) ==> y < nodes.len(),
                    candidates@.no_duplicates(),
                    forall|y: usize| #[trigger]
                        candidates@.contains(y) <==> is_source(g, remaining@, y) && (
                        base.contains(y) || edges@.take(e as int).contains(y)),
                    e <= edges@.len(),
                decreases edges@.len() - e,
            {
                let x: usize = edges[e];
                proof {
                    assert(edges@.take(e + 1) =~= edges@.take(e as int).push(x));
                }
                let ghost seen = edges@.take(e as int);
                let ghost held = candidates@;
                if remaining.contains(&x) {
                    if !self.is_referred_from(x, &remaining) {
                        if !list_holds(&candidates, x) {
                            candidates.push(x);
                        }
                    }
                }
                e = e + 1;
                proof {
                    assert forall|y: usize| #[trigger]
                        candidates@.contains(y) <==> is_source(g, remaining@, y) && (
                        base.contains(y) || edges@.take(e as int).contains(y)) by {
                        lemma_push_contains(seen, x, y);
                        lemma_push_contains(held, x, y);
                    }
                }
            }
            proof {
                assert(edges@.take(edges@.len() as int) =~= edges@);
                assert forall|y: usize| #[trigger] candidates@.contains(y) <==> is_source(
                    g,
                    remaining@,
                    y,
                ) by {
                    if is_source(g, remaining@, y) && !base.contains(y) {
                        assert(g.edge(me as int, y as int));
                        assert(edges@.contains(y));
                    }
                }
            }
        }
        let ghost rev = reversed_indices@;
        proof {
            assert forall|y: usize| !(#[trigger] remaining@.contains(y)) by {
                if remaining@.contains(y) {
                    let m = lemma_has_source(g, remaining@, y);
                    assert(candidates@.contains(m));
                    let i = candidates@.index_of(m);
                    assert(candidates@[i] == m);
                }
            }
        }
        let mut list: Vec<usize> = Vec::new();
        let mut left: usize = reversed_indices.len();
        while left > 0
            invariant
                left <= reversed_indices@.len(),
                rev == reversed_indices@,
                list@.len() == rev.len() - left,
                forall|i: int|
                    0 <= i < list@.len() ==> #[trigger] list@[i] == rev[rev.len() - 1 - i],
            decreases left,
        {
            left = left - 1;
            list.push(reversed_indices[left]);
        }
        proof {
            let l = list@;
            let n = rev.len();
            assert forall|y: usize| l.contains(y) <==> rev.contains(y) by {
                if l.contains(y) {
                    let i = l.index_of(y);
                    assert(rev[n - 1 - i] == y);
                }
                if rev.contains(y) {
                    let i = rev.index_of(y);
                    assert(l[n - 1 - i] == y);
                }
            }
            assert(l.to_set() =~= all) by {
                assert forall|y: usize| l.to_set().contains(y) <==> all.contains(y) by {
                    assert(!remaining@.contains(y));
                    assert(reversed_indices@.contains(y) <==> all.contains(y));
                }
            }
            assert forall|i: int| 0 <= i < l.len() implies is_best_source(
                nodes,
                l.take(i + 1).to_set(),
                #[trigger] l[i],
            ) by {
                let k = n - 1 - i;
                assert(l[i] == rev[k]);
                assert(is_best_source(nodes, all.difference(rev.take(k).to_set()), rev[k]));
                assert(l.take(i + 1).to_set() =~= all.difference(rev.take(k).to_set())) by {
                    assert forall|y: usize|
                        l.take(i + 1).contains(y) <==> all.contains(y) && !rev.take(k).contains(
                            y,
                        ) by {
                        if l.take(i + 1).contains(y) {
                            let a = l.take(i + 1).index_of(y);
                            assert(l[a] == y);
                            assert(l.contains(y));
                            assert(rev[n - 1 - a] == y);
                            assert(rev.contains(y));
                            if rev.take(k).contains(y) {
                                let b = rev.take(k).index_of(y);
                                assert(rev[b] == y);
                                assert(b < k <= n - 1 - a);
                                assert(false);
                            }
                        }
                        if all.contains(y) && !rev.take(k).contains(y) {
                            assert(!remaining@.contains(y));
                            assert(rev.contains(y));
                            let b = rev.index_of(y);
                            if b < k {
                                assert(rev.take(k)[b] == y);
                            }
                            assert(l[n - 1 - b] == y);
                            assert(l.take(i + 1)[n - 1 - b] == y);
                        }
                    }
                }
            }
        }
        list
    }
}

pub proof fn lemma_push_contains(s: Seq<usize>, x: usize, y: usize)
    ensures
        s.push(x).contains(y) <==> s.contains(y) || y == x,
{
    if s.contains(y) {
        let i = s.index_of(y);
        assert(s.push(x)[i] == y);
    }
    if y == x {
        assert(s.push(x)[s.len() as int] == y);
    }
    if s.push(x).contains(y) {
        let i = s.push(x).index_of(y);
        if i < s.len() {
            assert(s[i] == y);
        }
    }
}

/// What is left when the last item takes the place of item `at`.
proof fn lemma_swap_remove(a: Seq<usize>, at: int, b: Seq<usize>)
    requires
        0 <= at < a.len(),
        a.no_duplicates(),
        b == a.update(at, a.last()).drop_last(),
    ensures
        b.no_duplicates(),
        forall|y: usize| #[trigger] b.contains(y) <==> a.contains(y) && y != a[at],
{
    assert forall|y: usize| #[trigger] b.contains(y) <==> a.contains(y) && y != a[at] by {
        if b.contains(y) {
            let i = b.index_of(y);
            if i == at {
                assert(a[a.len() - 1] == y);
            } else {
                assert(a[i] == y);
            }
        }
        if a.contains(y) && y != a[at] {
            let i = a.index_of(y);
            if i == a.len() - 1 {
                assert(b[at] == y);
            } else {
                assert(b[i] == y);
            }
        }
    }
}

/// Whether the list holds `x`.
pub fn list_holds(list: &Vec<usize>, x: usize) -> (found: bool)
    ensures
        found == list@.contains(x),
{
    let mut j: usize = 0;
    while j < list.len()
        invariant
            j <= list@.len(),
            forall|k: int| 0 <= k < j ==> #[trigger] list@[k] != x,
        decreases list@.len() - j,
    {
        if list[j] == x {
            return true;
        }
        j = j + 1;
    }
    false
}

} // verus!
