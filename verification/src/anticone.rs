//! The blocks that a block neither sees nor is seen by.

use vstd::prelude::*;
use std::collections::HashSet;
use crate::arena::{dag_of, set_to_vec, ConsensusGraphNode};
use crate::bits::BlockSet;
#[allow(unused_imports)]
use crate::bits::index_limit;
use crate::dag::{Dag, NULL};
#[allow(unused_imports)]
use crate::dag::{lemma_closed_set_holds_reached, lemma_reaches_antisymmetric, lemma_reaches_earlier,
    lemma_reaches_step, lemma_reaches_transitive};
use crate::model::{cache_ok, chain_ok, epoch_ok, epochs_ok, last_pivots_ok, links_ok};
#[allow(unused_imports)]
use crate::order::{lemma_edges_listed, lemma_push_contains};
use crate::state::ConsensusGraphInner;
#[allow(unused_imports)]
use crate::state::lemma_node;
#[allow(unused_imports)]
use crate::views::lemma_distinct_below;

verus! {

broadcast use vstd::std_specs::hash::group_hash_axioms;

/// The blocks unrelated to `me`.
pub open spec fn anticone_of(g: Dag, me: int) -> Set<int> {
    Set::new(|x: int| 0 <= x < g.len() && g.unrelated(me, x))
}

/// The blocks of the anticone whose parent is outside it.
pub open spec fn barrier_of(g: Dag, me: int) -> Set<int> {
    Set::new(
        |x: int|
            anticone_of(g, me).contains(x) && !anticone_of(g, me).contains(g.parent[x] as int),
    )
}

/// Every block has an epoch number or none, and a block never has a later one
/// than a block that refers to it.
pub proof fn lemma_epoch_monotone(
    nodes: Seq<ConsensusGraphNode>,
    chain: Seq<usize>,
    a: int,
    b: int,
)
    requires
        links_ok(nodes),
        chain_ok(dag_of(nodes).parent, chain),
        epochs_ok(nodes, chain),
        0 <= a < nodes.len(),
        dag_of(nodes).reaches(a, b),
    ensures
        nodes[a].data.epoch_number != NULL ==> nodes[b].data.epoch_number
            <= nodes[a].data.epoch_number,
{
    reveal(epochs_ok);
    let g = dag_of(nodes);
    lemma_node(nodes, a);
    lemma_reaches_earlier(g, a, b);
    assert(epoch_ok(g, chain, a, nodes[a].data.epoch_number));
    assert(epoch_ok(g, chain, b, nodes[b].data.epoch_number));
    if nodes[a].data.epoch_number != NULL {
        let e = nodes[a].data.epoch_number as int;
        lemma_reaches_transitive(g, chain[e] as int, a, b);
        lemma_chain_sees(g, chain, e, chain.len() - 1);
        lemma_reaches_transitive(g, chain.last() as int, chain[e] as int, b);
        assert(nodes[b].data.epoch_number != NULL);
        let f = nodes[b].data.epoch_number as int;
        if f > e {
            lemma_chain_sees(g, chain, e, f - 1);
            lemma_reaches_transitive(g, chain[f - 1] as int, chain[e] as int, b);
        }
    }
}

/// Later blocks of the chain see the earlier ones.
pub proof fn lemma_chain_sees(g: Dag, chain: Seq<usize>, i: int, j: int)
    requires
        g.well_formed(),
        chain_ok(g.parent, chain),
        0 <= i <= j < chain.len(),
    ensures
        g.reaches(chain[j] as int, chain[i] as int),
    decreases j,
{
    if i < j {
        lemma_chain_sees(g, chain, i, j - 1);
        let c = chain[j] as int;
        assert(g.parent[c] == chain[j - 1]);
        assert(c > 0) by {
            if c == 0 {
                assert(chain[j - 1] < g.parent.len());
            }
        }
        assert(g.edge(c, chain[j - 1] as int));
        lemma_reaches_step(g, c, chain[j - 1] as int, chain[i] as int);
    }
}

/// A block has an epoch number up to `l` if and only if the pivot block of
/// that epoch sees it.
pub proof fn lemma_epoch_up_to(
    nodes: Seq<ConsensusGraphNode>,
    chain: Seq<usize>,
    x: int,
    l: int,
)
    requires
        links_ok(nodes),
        chain_ok(dag_of(nodes).parent, chain),
        epochs_ok(nodes, chain),
        0 <= x < nodes.len(),
        0 <= l < chain.len(),
    ensures
        nodes[x].data.epoch_number <= l <==> dag_of(nodes).reaches(chain[l] as int, x),
{
    reveal(epochs_ok);
    lemma_node(nodes, x);
    let g = dag_of(nodes);
    let e = nodes[x].data.epoch_number;
    assert(epoch_ok(g, chain, x, e));
    if e != NULL && e <= l {
        lemma_chain_sees(g, chain, e as int, l);
        lemma_reaches_transitive(g, chain[l] as int, chain[e as int] as int, x);
    }
    if g.reaches(chain[l] as int, x) {
        lemma_chain_sees(g, chain, l, chain.len() - 1);
        lemma_reaches_transitive(g, chain.last() as int, chain[l] as int, x);
        assert(e != NULL);
        if e > l {
            lemma_chain_sees(g, chain, l, e - 1);
            lemma_reaches_transitive(g, chain[e - 1] as int, chain[l] as int, x);
        }
    }
}

/// The blocks that a search may enter.
pub enum Region<'a> {
    /// The blocks of later epochs, or of none.
    AfterEpoch(usize),
    /// The blocks of the two sets.
    Either(&'a HashSet<usize>, &'a BlockSet),
}

impl<'a> Region<'a> {
    pub open spec fn holds(self, nodes: Seq<ConsensusGraphNode>, x: int) -> bool {
        match self {
            Region::AfterEpoch(l) => nodes[x].data.epoch_number > l,
            Region::Either(s, t) => s@.contains(x as usize) || t@.contains(x),
        }
    }

    /// The sets of the region can be searched.
    pub open spec fn wf(self) -> bool {
        self matches Region::Either(_, t) ==> t.wf()
    }
}

impl ConsensusGraphInner {
    fn region_holds(&self, region: &Region, x: usize) -> (holds: bool)
        requires
            self.arena.wf(),
            region.wf(),
            x < self.size(),
        ensures
            holds == region.holds(self.nodes(), x as int),
    {
        match region {
            Region::AfterEpoch(l) => self.arena.get(x).data.epoch_number > *l,
            Region::Either(s, t) => s.contains(&x) || t.contains(x),
        }
    }

    /// Queues `x` if the search has not met it.
    fn enqueue(&self, x: usize, queue: &mut Vec<usize>, visited: &mut BlockSet)
        requires
            links_ok(self.nodes()),
            x < self.size(),
            old(visited).wf(),
            search_ok(old(queue)@, old(visited)@, self.size()),
        ensures
            final(visited).wf(),
            search_ok(final(queue)@, final(visited)@, self.size()),
            final(visited)@ == old(visited)@.insert(x as int),
            final(queue)@.len() >= old(queue)@.len(),
            final(queue)@.take(old(queue)@.len() as int) == old(queue)@,
            forall|y: usize| #[trigger]
                final(queue)@.contains(y) <==> old(queue)@.contains(y) || y == x,
    {
        let ghost before = queue@;
        proof {
            lemma_node(self.nodes(), x as int);
        }
        if !visited.contains(x) {
            visited.add(x);
            queue.push(x);
        }
        proof {
            assert(queue@.take(before.len() as int) =~= before);
            assert forall|y: usize| #[trigger] queue@.contains(y) <==> before.contains(y) || y
                == x by {
                lemma_push_contains(before, x, y);
            }
            assert(visited@ =~= old(visited)@.insert(x as int));
        }
    }

    /// What `from` sees of the region, and `from` itself.
    pub fn past_within(&self, from: usize, region: &Region) -> (visited: BlockSet)
        requires
            self.arena.wf(),
            links_ok(self.nodes()),
            region.wf(),
            from < self.size(),
            forall|a: int, b: int|
                #[trigger] self.dag().edge(a, b) && a != from && !region.holds(self.nodes(), a)
                    ==> !region.holds(self.nodes(), b),
        ensures
            visited.wf(),
            forall|x: int| #[trigger]
                visited@.contains(x) <==> x == from || (self.dag().reaches(from as int, x)
                    && region.holds(self.nodes(), x)),
    {
        let ghost g = self.dag();
        let ghost nodes = self.nodes();
        let ghost n = nodes.len();
        proof {
            lemma_node(nodes, from as int);
        }
        let mut visited = BlockSet::new();
        let mut queue: Vec<usize> = Vec::new();
        self.enqueue(from, &mut queue, &mut visited);
        let mut at: usize = 0;
        while at < queue.len()
            invariant
                self.arena.wf(),
                links_ok(nodes),
                nodes == self.nodes(),
                n == nodes.len(),
                g == self.dag(),
                region.wf(),
                from < n,
                visited.wf(),
                at <= queue@.len(),
                search_ok(queue@, visited@, n),
                visited@.contains(from as int),
                forall|x: int| #[trigger]
                    visited@.contains(x) ==> x == from || (g.reaches(from as int, x)
                        && region.holds(nodes, x)),
                forall|i: int, b: int|
                    0 <= i < at && #[trigger] g.edge(queue@[i] as int, b) && region.holds(nodes, b)
                        ==> visited@.contains(b),
            decreases n - at,
        {
            let index: usize = queue[at];
            proof {
                lemma_search(queue@, visited@, n, at as int);
                lemma_node(nodes, index as int);
                assert(g.reaches(from as int, index as int));
            }
            let ghost before = queue@;
            let ghost seen = visited@;
            let parent: usize = self.arena.get(index).parent;
            if parent != NULL {
                proof {
                    lemma_edges_listed(nodes, index as int, parent as int);
                    lemma_reaches_step(g, index as int, parent as int, parent as int);
                    lemma_reaches_transitive(g, from as int, index as int, parent as int);
                }
                if self.region_holds(region, parent) {
                    self.enqueue(parent, &mut queue, &mut visited);
                }
            }
            let ghost refs = nodes[index as int].referees@;
            let mut r: usize = 0;
            while r < self.arena.get(index).referees.len()
                invariant
                    self.arena.wf(),
                    links_ok(nodes),
                    nodes == self.nodes(),
                    n == nodes.len(),
                    g == self.dag(),
                    region.wf(),
                    from < n,
                    index < n,
                    g.reaches(from as int, index as int),
                    refs == nodes[index as int].referees@,
                    r <= refs.len(),
                    visited.wf(),
                    search_ok(queue@, visited@, n),
                    before.len() <= queue@.len(),
                    queue@.take(before.len() as int) == before,
                    seen.subset_of(visited@),
                    parent == nodes[index as int].parent,
                    parent != NULL && region.holds(nodes, parent as int) ==> visited@.contains(
                        parent as int,
                    ),
                    forall|x: int| #[trigger]
                        visited@.contains(x) ==> x == from || (g.reaches(from as int, x)
                            && region.holds(nodes, x)),
                    forall|i: int|
                        0 <= i < r && region.holds(nodes, refs[i] as int) ==> visited@.contains(
                            #[trigger] refs[i] as int,
                        ),
                decreases refs.len() - r,
            {
                let referee: usize = self.arena.get(index).referees[r];
                proof {
                    assert(refs.contains(referee));
                    lemma_node(nodes, index as int);
                    lemma_edges_listed(nodes, index as int, referee as int);
                    lemma_reaches_step(g, index as int, referee as int, referee as int);
                    lemma_reaches_transitive(g, from as int, index as int, referee as int);
                }
                let ghost held = queue@;
                if self.region_holds(region, referee) {
                    self.enqueue(referee, &mut queue, &mut visited);
                    proof {
                        assert(queue@.take(before.len() as int) =~= held.take(
                            before.len() as int,
                        )) by {
                            assert(queue@.take(held.len() as int) =~= held);
                            assert forall|i: int| 0 <= i < before.len() implies queue@[i]
                                == held[i] by {
                                assert(queue@.take(held.len() as int)[i] == held[i]);
                            }
                        }
                    }
                }
                r = r + 1;
            }
            at = at + 1;
            proof {
                assert forall|i: int, b: int|
                    0 <= i < at && #[trigger] g.edge(queue@[i] as int, b) && region.holds(
                        nodes,
                        b,
                    ) implies visited@.contains(b) by {
                    assert(queue@.take(before.len() as int)[i] == before[i]);
                    if i < at - 1 {
                        assert(g.edge(before[i] as int, b));
                    } else {
                        lemma_edges_listed(nodes, index as int, b);
                        if parent != b {
                            let j = refs.index_of(b as usize);
                            assert(refs[j] == b);
                        }
                    }
                }
            }
        }
        proof {
            assert forall|x: int| #[trigger] visited@.contains(x) <==> x == from || (g.reaches(
                from as int,
                x,
            ) && region.holds(nodes, x)) by {
                if g.reaches(from as int, x) && region.holds(nodes, x) && x != from {
                    let s = Set::new(
                        |z: int| visited@.contains(z) || (z != from && !region.holds(nodes, z)),
                    );
                    assert forall|a: int, b: int|
                        s.contains(a) && #[trigger] g.edge(a, b) implies s.contains(b) by {
                        if visited@.contains(a) {
                            let i = lemma_searched(queue@, visited@, n, a);
                            assert(g.edge(queue@[i] as int, b));
                        }
                    }
                    lemma_closed_set_holds_reached(g, s, from as int, x);
                }
            }
        }
        visited
    }

    /// What sees `from` within the given blocks, and `from` itself.
    pub fn future_within(&self, from: usize, within: Option<&BlockSet>) -> (visited: BlockSet)
        requires
            self.arena.wf(),
            links_ok(self.nodes()),
            from < self.size(),
            within matches Some(s) ==> s.wf() && forall|x: int, z: int|
                s@.contains(x) && #[trigger] self.dag().reaches(x, z) && self.dag().reaches(
                    z,
                    from as int,
                ) && z != from ==> s@.contains(z),
        ensures
            visited.wf(),
            forall|x: int| #[trigger]
                visited@.contains(x) <==> x == from || (0 <= x < self.size() && self.dag().reaches(
                    x,
                    from as int,
                ) && (within matches Some(s) ==> s@.contains(x))),
    {
        let ghost g = self.dag();
        let ghost nodes = self.nodes();
        let ghost n = nodes.len();
        let ghost inside = |x: int| within matches Some(s) ==> s@.contains(x);
        proof {
            lemma_node(nodes, from as int);
        }
        let mut visited = BlockSet::new();
        let mut queue: Vec<usize> = Vec::new();
        self.enqueue(from, &mut queue, &mut visited);
        let mut at: usize = 0;
        while at < queue.len()
            invariant
                self.arena.wf(),
                links_ok(nodes),
                nodes == self.nodes(),
                n == nodes.len(),
                g == self.dag(),
                from < n,
                within matches Some(s) ==> s.wf(),
                inside == (|x: int| within matches Some(s) ==> s@.contains(x)),
                visited.wf(),
                at <= queue@.len(),
                search_ok(queue@, visited@, n),
                visited@.contains(from as int),
                forall|x: int| #[trigger]
                    visited@.contains(x) ==> x == from || (g.reaches(x, from as int) && inside(x)),
                forall|i: int, b: int|
                    0 <= i < at && #[trigger] g.edge(b, queue@[i] as int) && inside(b)
                        ==> visited@.contains(b),
            decreases n - at,
        {
            let index: usize = queue[at];
            proof {
                lemma_search(queue@, visited@, n, at as int);
                lemma_node(nodes, index as int);
                assert(g.reaches(index as int, from as int));
            }
            let ghost before = queue@;
            let ghost seen = visited@;
            let ghost kids = nodes[index as int].children@;
            let mut c: usize = 0;
            while c < self.arena.get(index).children.len()
                invariant
                    self.arena.wf(),
                    links_ok(nodes),
                    nodes == self.nodes(),
                    n == nodes.len(),
                    g == self.dag(),
                    from < n,
                    index < n,
                    within matches Some(s) ==> s.wf(),
                    inside == (|x: int| within matches Some(s) ==> s@.contains(x)),
                    g.reaches(index as int, from as int),
                    kids == nodes[index as int].children@,
                    c <= kids.len(),
                    visited.wf(),
                    search_ok(queue@, visited@, n),
                    before.len() <= queue@.len(),
                    queue@.take(before.len() as int) == before,
                    seen.subset_of(visited@),
                    forall|x: int| #[trigger]
                        visited@.contains(x) ==> x == from || (g.reaches(x, from as int) && inside(
                            x,
                        )),
                    forall|i: int|
                        0 <= i < c && inside(kids[i] as int) ==> visited@.contains(
                            #[trigger] kids[i] as int,
                        ),
                decreases kids.len() - c,
            {
                let child: usize = self.arena.get(index).children[c];
                proof {
                    assert(kids.contains(child));
                    lemma_node(nodes, index as int);
                    assert(kids[c as int] == child);
                    lemma_edges_listed(nodes, child as int, index as int);
                    lemma_reaches_step(g, child as int, index as int, from as int);
                }
                let ghost held = queue@;
                let enter: bool = match within {
                    Some(s) => s.contains(child),
                    None => true,
                };
                if enter {
                    self.enqueue(child, &mut queue, &mut visited);
                    proof {
                        lemma_prefix_kept(before, held, queue@);
                    }
                }
                c = c + 1;
            }
            let ghost refs = nodes[index as int].referrers@;
            let mut r: usize = 0;
            while r < self.arena.get(index).referrers.len()
                invariant
                    self.arena.wf(),
                    links_ok(nodes),
                    nodes == self.nodes(),
                    n == nodes.len(),
                    g == self.dag(),
                    from < n,
                    index < n,
                    within matches Some(s) ==> s.wf(),
                    inside == (|x: int| within matches Some(s) ==> s@.contains(x)),
                    g.reaches(index as int, from as int),
                    kids == nodes[index as int].children@,
                    refs == nodes[index as int].referrers@,
                    r <= refs.len(),
                    visited.wf(),
                    search_ok(queue@, visited@, n),
                    before.len() <= queue@.len(),
                    queue@.take(before.len() as int) == before,
                    seen.subset_of(visited@),
                    forall|x: int| #[trigger]
                        visited@.contains(x) ==> x == from || (g.reaches(x, from as int) && inside(
                            x,
                        )),
                    forall|i: int|
                        0 <= i < kids.len() && inside(kids[i] as int) ==> visited@.contains(
                            #[trigger] kids[i] as int,
                        ),
                    forall|i: int|
                        0 <= i < r && inside(refs[i] as int) ==> visited@.contains(
                            #[trigger] refs[i] as int,
                        ),
                decreases refs.len() - r,
            {
                let referrer: usize = self.arena.get(index).referrers[r];
                proof {
                    assert(refs.contains(referrer));
                    lemma_node(nodes, index as int);
                    assert(refs[r as int] == referrer);
                    lemma_edges_listed(nodes, referrer as int, index as int);
                    lemma_reaches_step(g, referrer as int, index as int, from as int);
                }
                let ghost held = queue@;
                let enter: bool = match within {
                    Some(s) => s.contains(referrer),
                    None => true,
                };
                if enter {
                    self.enqueue(referrer, &mut queue, &mut visited);
                    proof {
                        lemma_prefix_kept(before, held, queue@);
                    }
                }
                r = r + 1;
            }
            at = at + 1;
            proof {
                assert forall|i: int, b: int|
                    0 <= i < at && #[trigger] g.edge(b, queue@[i] as int) && inside(
                        b,
                    ) implies visited@.contains(b) by {
                    assert(queue@.take(before.len() as int)[i] == before[i]);
                    if i < at - 1 {
                        assert(g.edge(b, before[i] as int));
                    } else {
                        lemma_edges_listed(nodes, b, index as int);
                        if kids.contains(b as usize) {
                            let j = kids.index_of(b as usize);
                            assert(kids[j] == b);
                        } else {
                            let j = refs.index_of(b as usize);
                            assert(refs[j] == b);
                        }
                    }
                }
            }
        }
        proof {
            assert forall|x: int| #[trigger] visited@.contains(x) <==> x == from || (0 <= x < n
                && g.reaches(x, from as int) && inside(x)) by {
                if visited@.contains(x) {
                    let i = lemma_searched(queue@, visited@, n, x);
                }
                if 0 <= x < n && g.reaches(x, from as int) && inside(x) && x != from {
                    self.lemma_future_found(queue@, visited@, from as int, inside, x);
                }
            }
        }
        visited
    }

    /// A block that leads to `from` through the region has been met.
    proof fn lemma_future_found(
        &self,
        queue: Seq<usize>,
        visited: Set<int>,
        from: int,
        inside: spec_fn(int) -> bool,
        x: int,
    )
        requires
            links_ok(self.nodes()),
            search_ok(queue, visited, self.size()),
            visited.contains(from),
            0 <= x < self.size(),
            inside(x),
            self.dag().reaches(x, from),
            forall|z: int|
                #[trigger] self.dag().reaches(x, z) && self.dag().reaches(z, from) && z != from
                    ==> inside(z),
            forall|i: int, b: int|
                0 <= i < queue.len() && #[trigger] self.dag().edge(b, queue[i] as int) && inside(b)
                    ==> visited.contains(b),
        ensures
            visited.contains(x),
        decreases x,
    {
        let g = self.dag();
        if x != from {
            let c = choose|c: int| #[trigger] g.edge(x, c) && 0 <= c < x && g.reaches(c, from);
            assert forall|z: int|
                #[trigger] g.reaches(c, z) && g.reaches(z, from) && z != from implies inside(
                z,
            ) by {
                lemma_reaches_step(g, x, c, z);
            }
            if c != from {
                lemma_reaches_step(g, x, c, c);
                assert(inside(c));
                self.lemma_future_found(queue, visited, from, inside, c);
            }
            let i = lemma_searched(queue, visited, self.size(), c);
            assert(g.edge(x, queue[i] as int));
        }
    }

    /// The largest last pivot block that the parent and the referees of `me`
    /// record.
    pub fn largest_pivot_below(&self, me: usize) -> (last: usize)
        requires
            self.arena.wf(),
            links_ok(self.nodes()),
            0 < me < self.size(),
        ensures
            is_last_pivot_below(self.nodes(), me as int, last),
    {
        let ghost nodes = self.nodes();
        proof {
            lemma_node(nodes, me as int);
        }
        let parent: usize = self.arena.get(me).parent;
        let mut last: usize = self.arena.get(parent).last_pivot_in_past;
        let ghost refs = nodes[me as int].referees@;
        let mut r: usize = 0;
        while r < self.arena.get(me).referees.len()
            invariant
                self.arena.wf(),
                links_ok(nodes),
                nodes == self.nodes(),
                0 < me < nodes.len(),
                parent == nodes[me as int].parent,
                refs == nodes[me as int].referees@,
                r <= refs.len(),
                nodes[parent as int].last_pivot_in_past <= last,
                last == nodes[parent as int].last_pivot_in_past || exists|i: int|
                    0 <= i < r && last == nodes[#[trigger] refs[i] as int].last_pivot_in_past,
                forall|i: int|
                    0 <= i < r ==> nodes[#[trigger] refs[i] as int].last_pivot_in_past <= last,
            decreases refs.len() - r,
        {
            let referee: usize = self.arena.get(me).referees[r];
            proof {
                assert(refs[r as int] == referee);
                lemma_node(nodes, me as int);
            }
            let x: usize = self.arena.get(referee).last_pivot_in_past;
            if x > last {
                last = x;
            }
            r = r + 1;
        }
        last
    }

    /// The last pivot block that the parent or a referee of `me` records in its
    /// past.
    pub fn last_pivot_below(&self, me: usize) -> (last: usize)
        requires
            self.arena.wf(),
            links_ok(self.nodes()),
            last_pivots_ok(self.nodes(), self.pivot_chain@),
            0 < me < self.size(),
        ensures
            is_last_pivot_below(self.nodes(), me as int, last),
            last < self.pivot_chain@.len(),
            self.dag().reaches(me as int, self.pivot_chain@[last as int] as int),
    {
        let last: usize = self.largest_pivot_below(me);
        proof {
            lemma_pivot_below_sound(self.nodes(), self.pivot_chain@, me as int, last);
        }
        last
    }

    /// The anticone of the newest block, by a search from the block down to the
    /// last pivot block in its past.
    fn compute_anticone_bruteforce(&self, me: usize) -> (anticone: BlockSet)
        requires
            self.inserted(me as int),
        ensures
            anticone.wf(),
            anticone@ == anticone_of(self.dag(), me as int),
    {
        let ghost g = self.dag();
        let ghost nodes = self.nodes();
        let ghost chain = self.pivot_chain@;
        let last: usize = self.last_pivot_below(me);
        let region = Region::AfterEpoch(last);
        proof {
            assert forall|a: int, b: int|
                #[trigger] g.edge(a, b) && !region.holds(nodes, a) implies !region.holds(
                nodes,
                b,
            ) by {
                lemma_reaches_step(g, a, b, b);
                lemma_epoch_monotone(nodes, chain, a, b);
                lemma_node(nodes, a);
                reveal(epochs_ok);
            }
        }
        let visited: BlockSet = self.past_within(me, &region);
        let mut anticone = BlockSet::new();
        let mut i: usize = 0;
        while i < self.arena.len()
            invariant
                self.arena.wf(),
                links_ok(nodes),
                nodes == self.nodes(),
                i <= nodes.len(),
                visited.wf(),
                anticone.wf(),
                forall|x: int| #[trigger]
                    anticone@.contains(x) <==> 0 <= x < i && nodes[x].data.epoch_number > last
                        && !visited@.contains(x),
            decreases nodes.len() - i,
        {
            proof {
                lemma_node(nodes, i as int);
            }
            if self.arena.get(i).data.epoch_number > last && !visited.contains(i) {
                anticone.add(i);
            }
            i = i + 1;
        }
        proof {
            assert forall|x: int| anticone@.contains(x) <==> anticone_of(g, me as int).contains(
                x,
            ) by {
                if 0 <= x < nodes.len() {
                    lemma_epoch_up_to(nodes, chain, x, last as int);
                    assert(visited@.contains(x) <==> x == me || (g.reaches(me as int, x)
                        && region.holds(nodes, x)));
                    if g.reaches(chain[last as int] as int, x) {
                        lemma_reaches_transitive(g, me as int, chain[last as int] as int, x);
                    }
                    if g.reaches(x, me as int) {
                        lemma_reaches_earlier(g, x, me as int);
                    }
                }
            }
            assert(anticone@ =~= anticone_of(g, me as int));
        }
        anticone
    }

    /// The anticone of the newest block from the anticone of its parent.
    fn compute_anticone_from_parent(
        &self,
        me: usize,
        parent_anticone: &HashSet<usize>,
    ) -> (anticone: BlockSet)
        requires
            self.inserted(me as int),
            forall|y: usize| #[trigger]
                parent_anticone@.contains(y) <==> y < me && self.dag().unrelated(
                    self.nodes()[me as int].parent as int,
                    y as int,
                ),
        ensures
            anticone.wf(),
            anticone@ == anticone_of(self.dag(), me as int),
    {
        let ghost g = self.dag();
        let ghost nodes = self.nodes();
        let ghost n = nodes.len();
        proof {
            lemma_node(nodes, me as int);
        }
        let parent: usize = self.arena.get(me).parent;
        let ghost p = parent as int;
        proof {
            lemma_edges_listed(nodes, me as int, p);
            lemma_reaches_step(g, me as int, p, p);
        }
        let mut anticone: BlockSet = self.future_within(parent, None);
        anticone.remove(parent);
        anticone.remove(me);
        let ghost futures = anticone@;
        let region = Region::Either(parent_anticone, &anticone);
        proof {
            assert forall|x: int| 0 <= x < n implies (region.holds(nodes, x) <==> x < me
                && !g.reaches(p, x)) by {
                if g.reaches(x, p) && g.reaches(p, x) {
                    lemma_reaches_antisymmetric(g, x, p);
                }
                if x == me && g.reaches(p, x) {
                    lemma_reaches_earlier(g, p, x);
                }
            }
            assert forall|a: int, b: int|
                #[trigger] g.edge(a, b) && a != me && !region.holds(nodes, a) implies
                !region.holds(nodes, b) by {
                assert(region.holds(nodes, a) <==> a < me && !g.reaches(p, a));
                assert(region.holds(nodes, b) <==> b < me && !g.reaches(p, b));
                lemma_reaches_step(g, a, b, b);
                lemma_reaches_transitive(g, p, a, b);
            }
        }
        let mut my_past: BlockSet = self.past_within(me, &region);
        my_past.remove(me);
        let items: Vec<usize> = set_to_vec(parent_anticone);
        proof {
            assert forall|j: int| 0 <= j < items@.len() implies (#[trigger] items@[j]) < me by {
                assert(items@.contains(items@[j]));
            }
        }
        let mut i: usize = 0;
        while i < items.len()
            invariant
                links_ok(nodes),
                nodes == self.nodes(),
                me < nodes.len(),
                anticone.wf(),
                i <= items@.len(),
                forall|j: int| 0 <= j < items@.len() ==> (#[trigger] items@[j]) < me,
                forall|x: int| #[trigger]
                    anticone@.contains(x) <==> futures.contains(x) || (0 <= x < me && items@.take(
                        i as int,
                    ).contains(x as usize)),
            decreases items@.len() - i,
        {
            let index: usize = items[i];
            proof {
                assert(items@[i as int] < me);
                lemma_node(nodes, index as int);
                assert(items@.take(i + 1) =~= items@.take(i as int).push(index));
            }
            anticone.add(index);
            i = i + 1;
            proof {
                assert forall|x: int| #[trigger]
                    anticone@.contains(x) <==> futures.contains(x) || (0 <= x < me && items@.take(
                        i as int,
                    ).contains(x as usize)) by {
                    lemma_push_contains(items@.take(i - 1), index, x as usize);
                }
            }
        }
        let seen: Vec<usize> = my_past.to_vec();
        let ghost all = anticone@;
        proof {
            assert(items@.take(items@.len() as int) =~= items@);
            my_past.lemma_members_bounded();
        }
        i = 0;
        while i < seen.len()
            invariant
                links_ok(nodes),
                nodes == self.nodes(),
                me < nodes.len(),
                anticone.wf(),
                i <= seen@.len(),
                forall|j: int| 0 <= j < seen@.len() ==> (#[trigger] seen@[j]) < index_limit(),
                forall|x: int| #[trigger]
                    anticone@.contains(x) <==> all.contains(x) && !(0 <= x < index_limit()
                        && seen@.take(i as int).contains(x as usize)),
            decreases seen@.len() - i,
        {
            let index: usize = seen[i];
            proof {
                assert(seen@[i as int] < index_limit());
                assert(seen@.take(i + 1) =~= seen@.take(i as int).push(index));
            }
            anticone.remove(index);
            i = i + 1;
            proof {
                assert forall|x: int| #[trigger]
                    anticone@.contains(x) <==> all.contains(x) && !(0 <= x < index_limit()
                        && seen@.take(i as int).contains(x as usize)) by {
                    lemma_push_contains(seen@.take(i - 1), index, x as usize);
                }
            }
        }
        proof {
            assert(seen@.take(seen@.len() as int) =~= seen@);
            assert forall|x: int| anticone@.contains(x) <==> anticone_of(g, me as int).contains(
                x,
            ) by {
                if 0 <= x < n {
                    assert(region.holds(nodes, x) <==> x < me && !g.reaches(p, x));
                    assert(my_past@.contains(x) <==> x != me && g.reaches(me as int, x)
                        && region.holds(nodes, x));
                    assert(items@.contains(x as usize) <==> parent_anticone@.contains(x as usize));
                    lemma_node(nodes, x);
                    if g.reaches(x, me as int) {
                        lemma_reaches_earlier(g, x, me as int);
                    }
                    if g.reaches(p, x) {
                        lemma_reaches_transitive(g, me as int, p, x);
                    }
                }
            }
            assert(anticone@ =~= anticone_of(g, me as int));
        }
        anticone
    }

    /// Computes the anticone of the newest block and caches it. Returns the
    /// blocks of the anticone whose parent is not in it.
    pub fn compute_anticone(&mut self, me: usize) -> (anticone_barrier: BlockSet)
        requires
            old(self).inserted(me as int),
        ensures
            final(self).located(me as int),
            *final(self) == (ConsensusGraphInner {
                anticone_cache: final(self).anticone_cache,
                ..*old(self)
            }),
            final(self).anticone_cache@.contains_key(me),
            anticone_barrier.wf(),
            anticone_barrier@ == barrier_of(final(self).dag(), me as int),
    {
        let ghost start = *self;
        let ghost g = self.dag();
        let ghost nodes = self.nodes();
        proof {
            lemma_node(nodes, me as int);
        }
        let parent: usize = self.arena.get(me).parent;
        let anticone: BlockSet = match self.anticone_cache.get(parent) {
            Some(parent_anticone) => self.compute_anticone_from_parent(me, parent_anticone),
            None => self.compute_anticone_bruteforce(me),
        };
        proof {
            anticone.lemma_members_bounded();
        }
        self.anticone_cache.update(me, &anticone);
        proof {
            lemma_cache_extended(g, start.anticone_cache@, self.anticone_cache@, me, anticone@);
        }
        let items: Vec<usize> = anticone.to_vec();
        let mut anticone_barrier = BlockSet::new();
        let mut i: usize = 0;
        while i < items.len()
            invariant
                self.arena.wf(),
                links_ok(nodes),
                nodes == self.nodes(),
                g == self.dag(),
                anticone.wf(),
                anticone@ == anticone_of(g, me as int),
                i <= items@.len(),
                forall|j: int|
                    0 <= j < items@.len() ==> anticone@.contains(#[trigger] items@[j] as int),
                anticone_barrier.wf(),
                forall|x: int| #[trigger]
                    anticone_barrier@.contains(x) <==> 0 <= x < nodes.len() && items@.take(
                        i as int,
                    ).contains(x as usize) && !anticone@.contains(g.parent[x] as int),
            decreases items@.len() - i,
        {
            let index: usize = items[i];
            proof {
                assert(anticone@.contains(items@[i as int] as int));
                lemma_node(nodes, index as int);
                assert(items@.take(i + 1) =~= items@.take(i as int).push(index));
            }
            let above: usize = self.arena.get(index).parent;
            if !anticone.contains(above) {
                anticone_barrier.add(index);
            }
            i = i + 1;
            proof {
                assert forall|x: int| #[trigger]
                    anticone_barrier@.contains(x) <==> 0 <= x < nodes.len() && items@.take(
                        i as int,
                    ).contains(x as usize) && !anticone@.contains(g.parent[x] as int) by {
                    lemma_push_contains(items@.take(i - 1), index, x as usize);
                }
            }
        }
        proof {
            assert(items@.take(items@.len() as int) =~= items@);
            assert(anticone_barrier@ =~= barrier_of(g, me as int)) by {
                assert forall|x: int| anticone_barrier@.contains(x) <==> barrier_of(
                    g,
                    me as int,
                ).contains(x) by {
                    if 0 <= x < nodes.len() {
                        lemma_node(nodes, x);
                        assert(anticone@.contains(x) <==> 0 <= x < index_limit()
                            && items@.contains(x as usize));
                    }
                }
            }
        }
        anticone_barrier
    }
}

/// The queue of a search holds each visited block once.
pub open spec fn search_ok(queue: Seq<usize>, visited: Set<int>, n: nat) -> bool {
    &&& queue.no_duplicates()
    &&& n <= usize::MAX
    &&& forall|i: int|
        0 <= i < queue.len() ==> (#[trigger] queue[i]) < n && visited.contains(queue[i] as int)
    &&& forall|x: int| #[trigger]
        visited.contains(x) ==> 0 <= x < n && queue.contains(x as usize)
}

proof fn lemma_search(queue: Seq<usize>, visited: Set<int>, n: nat, at: int)
    requires
        search_ok(queue, visited, n),
        0 <= at < queue.len(),
    ensures
        queue[at] < n,
        visited.contains(queue[at] as int),
        queue.len() <= n,
{
    lemma_distinct_below(queue, n);
}

proof fn lemma_searched(queue: Seq<usize>, visited: Set<int>, n: nat, x: int) -> (i: int)
    requires
        search_ok(queue, visited, n),
        visited.contains(x),
    ensures
        0 <= i < queue.len(),
        queue[i] == x,
        0 <= x < n,
{
    queue.index_of(x as usize)
}

proof fn lemma_prefix_kept(before: Seq<usize>, held: Seq<usize>, now: Seq<usize>)
    requires
        before.len() <= held.len() <= now.len(),
        held.take(before.len() as int) == before,
        now.take(held.len() as int) == held,
    ensures
        now.take(before.len() as int) == before,
{
    assert forall|i: int| 0 <= i < before.len() implies now[i] == before[i] by {
        assert(now.take(held.len() as int)[i] == held[i]);
        assert(held.take(before.len() as int)[i] == before[i]);
    }
    assert(now.take(before.len() as int) =~= before);
}

/// `last` is the largest recorded last pivot block of the parent and the
/// referees.
pub open spec fn is_last_pivot_below(
    nodes: Seq<ConsensusGraphNode>,
    me: int,
    last: usize,
) -> bool {
    &&& nodes[nodes[me].parent as int].last_pivot_in_past <= last
    &&& forall|i: int|
        0 <= i < nodes[me].referees@.len()
            ==> nodes[#[trigger] nodes[me].referees@[i] as int].last_pivot_in_past <= last
    &&& last == nodes[nodes[me].parent as int].last_pivot_in_past || exists|i: int|
        0 <= i < nodes[me].referees@.len() && last
            == nodes[#[trigger] nodes[me].referees@[i] as int].last_pivot_in_past
}

/// What the block records as the last pivot block in its past is in its past.
pub open spec fn records_past_pivot(
    nodes: Seq<ConsensusGraphNode>,
    chain: Seq<usize>,
    x: int,
) -> bool {
    &&& nodes[x].last_pivot_in_past < chain.len()
    &&& dag_of(nodes).reaches(x, chain[nodes[x].last_pivot_in_past as int] as int)
}

/// The largest record below a block is in the past of the block.
pub proof fn lemma_pivot_below_sound(
    nodes: Seq<ConsensusGraphNode>,
    chain: Seq<usize>,
    me: int,
    last: usize,
)
    requires
        links_ok(nodes),
        0 < me < nodes.len(),
        is_last_pivot_below(nodes, me, last),
        forall|y: int|
            0 <= y < me && #[trigger] dag_of(nodes).edge(me, y) ==> records_past_pivot(
                nodes,
                chain,
                y,
            ),
    ensures
        last < chain.len(),
        dag_of(nodes).reaches(me, chain[last as int] as int),
{
    let g = dag_of(nodes);
    lemma_node(nodes, me);
    let p = nodes[me].parent as int;
    let refs = nodes[me].referees@;
    if last == nodes[p].last_pivot_in_past {
        lemma_edges_listed(nodes, me, p);
        assert(g.edge(me, p));
        lemma_reaches_step(g, me, p, chain[last as int] as int);
    } else {
        let i = choose|i: int|
            0 <= i < refs.len() && last == nodes[#[trigger] refs[i] as int].last_pivot_in_past;
        let r = refs[i] as int;
        assert(refs.contains(refs[i]));
        lemma_edges_listed(nodes, me, r);
        assert(g.edge(me, r));
        lemma_reaches_step(g, me, r, chain[last as int] as int);
    }
}

/// The cache is right for one more block.
proof fn lemma_cache_extended(
    g: Dag,
    before: Map<usize, Set<usize>>,
    after: Map<usize, Set<usize>>,
    me: usize,
    anticone: Set<int>,
)
    requires
        cache_ok(g, before, me as nat),
        me == g.len() - 1,
        anticone == anticone_of(g, me as int),
        after.contains_key(me),
        after[me] == Set::new(|y: usize| anticone.contains(y as int)),
        forall|x: usize| #[trigger]
            after.contains_key(x) && x != me ==> before.contains_key(x) && after[x] == (
            if anticone.contains(x as int) {
                before[x].insert(me)
            } else {
                before[x]
            }),
    ensures
        cache_ok(g, after, me as nat + 1),
{
    assert forall|x: usize| #[trigger] after.contains_key(x) implies x < me + 1 && forall|y: usize|
        #[trigger] after[x].contains(y) <==> y < me + 1 && g.unrelated(x as int, y as int) by {
        if x != me {
            assert(before.contains_key(x));
            assert forall|y: usize| #[trigger] after[x].contains(y) <==> y < me + 1
                && g.unrelated(x as int, y as int) by {
                assert(before[x].contains(y) <==> y < me && g.unrelated(x as int, y as int));
                assert(anticone.contains(x as int) <==> g.unrelated(me as int, x as int));
            }
        } else {
            assert forall|y: usize| #[trigger] after[x].contains(y) <==> y < me + 1
                && g.unrelated(x as int, y as int) by {
                assert(anticone.contains(y as int) <==> y < g.len() && g.unrelated(
                    me as int,
                    y as int,
                ));
            }
        }
    }
}

} // verus!
