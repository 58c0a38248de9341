//! The own epoch of a block.

use vstd::prelude::*;
use std::collections::HashSet;
use crate::arena::dag_of;
use crate::dag::ancestor;
#[allow(unused_imports)]
use crate::dag::{lemma_all_reach_root, lemma_ancestor_at_depth, lemma_ancestor_depth,
    lemma_ancestor_earlier, lemma_ancestors_chain, lemma_closed_set_holds_reached,
    lemma_reaches_earlier, lemma_reaches_step, lemma_reaches_transitive};
use crate::model::{in_own_epoch, links_ok, min_epoch_attained, sees_as_own, tree_shape, views_ok};
#[allow(unused_imports)]
use crate::order::{distinct_hashes, is_topological_order, lemma_edges_listed,
    lemma_order_carried, lemma_order_lists_epoch, lemma_push_contains, ordered_by_hash};
#[allow(unused_imports)]
use crate::state::{lemma_node, ConsensusGraphInner};
use crate::views::{epoch_holder, same_links, seen_at, with_own_view};
#[allow(unused_imports)]
use crate::views::{lemma_ancestor_sees, lemma_ancestor_step, lemma_distinct_below,
    lemma_epoch_holder, lemma_order_same, lemma_same_links, lemma_views_extended};

verus! {

broadcast use vstd::std_specs::hash::group_hash_axioms;

impl ConsensusGraphInner {
    /// Whether `p` sees `index`, found by walking up from `p` through the
    /// epochs in which `index` may be.
    fn in_old_epoch(&self, p: usize, index: usize, Ghost(k): Ghost<nat>) -> (old_epoch: bool)
        requires
            self.arena.wf(),
            links_ok(self.nodes()),
            views_ok(self.nodes(), k),
            tree_shape(self.trees.weight_tree, self.parents(), k),
            k <= self.size(),
            p < k,
            index < k,
        ensures
            old_epoch == self.dag().reaches(p as int, index as int),
    {
        let ghost g = self.dag();
        let ghost nodes = self.nodes();
        let ghost holder = epoch_holder(g, p as int, index as int);
        proof {
            lemma_node(nodes, p as int);
            lemma_node(nodes, index as int);
            if g.reaches(p as int, index as int) {
                lemma_epoch_holder(g, p as int, index as int);
                lemma_node(nodes, holder);
                lemma_reaches_earlier(g, holder, index as int);
                assert(nodes[index as int].data.min_epoch_in_other_views <= nodes[holder].height
                    <= nodes[index as int].data.max_epoch_in_other_views) by {
                    reveal(views_ok);
                }
            }
        }
        let max_epoch: u64 = self.arena.get(index).data.max_epoch_in_other_views;
        let min_epoch: u64 = self.arena.get(index).data.min_epoch_in_other_views;
        let sequence: u64 = self.arena.get(index).data.sequence_number;
        let mut parent: usize = p;
        if self.arena.get(p).height > max_epoch {
            proof {
                self.lemma_tree_ancestor(p as int, max_epoch as nat);
                lemma_ancestor_at_depth(g.parent, p as int, max_epoch as nat);
            }
            parent = self.trees.weight_tree.ancestor_at(p, max_epoch as usize);
            proof {
                if g.reaches(p as int, index as int) {
                    lemma_ancestors_chain(g.parent, holder, parent as int, p as int);
                }
            }
        }
        loop
            invariant
                self.arena.wf(),
                links_ok(nodes),
                views_ok(nodes, k),
                nodes == self.nodes(),
                g == self.dag(),
                k <= self.size(),
                p < k,
                index < k,
                parent < k,
                parent <= p,
                sequence == nodes[index as int].data.sequence_number,
                min_epoch == nodes[index as int].data.min_epoch_in_other_views,
                ancestor(g.parent, parent as int, p as int),
                holder == epoch_holder(g, p as int, index as int),
                g.reaches(p as int, index as int) ==> ancestor(g.parent, holder, parent as int)
                    && min_epoch <= nodes[holder].height && sees_as_own(g, holder, index as int)
                    && 0 <= index <= holder < k,
            decreases parent,
        {
            proof {
                lemma_node(nodes, parent as int);
                lemma_node(nodes, index as int);
            }
            if self.arena.get(parent).height < min_epoch || sequence > self.arena.get(
                parent,
            ).data.sequence_number {
                proof {
                    if g.reaches(p as int, index as int) {
                        lemma_node(nodes, holder);
                        lemma_ancestor_depth(g.parent, holder, parent as int);
                        lemma_ancestor_earlier(g.parent, holder, parent as int);
                        assert(nodes[index as int].data.sequence_number
                            <= nodes[parent as int].data.sequence_number) by {
                            reveal(links_ok);
                        }
                    }
                }
                return false;
            }
            if parent == index || self.arena.get(
                parent,
            ).data.blockset_in_own_view_of_epoch.contains(&index) {
                proof {
                    assert(sees_as_own(g, parent as int, index as int)) by {
                        reveal(views_ok);
                    }
                    lemma_ancestor_sees(g, parent as int, p as int, index as int);
                }
                return true;
            }
            proof {
                assert(!sees_as_own(g, parent as int, index as int)) by {
                    reveal(views_ok);
                }
                if parent == 0 {
                    reveal(views_ok);
                    assert(min_epoch_attained(nodes, k, index as int));
                    let x = choose|x: int|
                        0 <= x < k && #[trigger] sees_as_own(g, x, index as int)
                            && nodes[index as int].data.min_epoch_in_other_views
                            == nodes[x].height;
                    lemma_node(nodes, x);
                    lemma_node(nodes, 0);
                    if x > 0 {
                        lemma_node(nodes, nodes[x].parent as int);
                    }
                    assert(x == 0);
                    lemma_reaches_earlier(g, 0, index as int);
                    assert(false);
                }
                lemma_ancestor_step(g.parent, parent as int, p as int);
            }
            parent = self.arena.get(parent).parent;
        }
    }

    /// The blocks that `pivot` sees and its parent does not, each once.
    fn own_view(&self, pivot: usize) -> (members: Vec<usize>)
        requires
            self.arena.wf(),
            links_ok(self.nodes()),
            pivot == self.size() - 1,
            views_ok(self.nodes(), pivot as nat),
            tree_shape(self.trees.weight_tree, self.parents(), pivot as nat),
        ensures
            members@.no_duplicates(),
            forall|y: usize| #[trigger]
                members@.contains(y) <==> in_own_epoch(self.dag(), pivot as int, y as int),
    {
        let ghost g = self.dag();
        let ghost nodes = self.nodes();
        let ghost n = nodes.len();
        let mut queue: Vec<usize> = Vec::new();
        let mut visited: HashSet<usize> = HashSet::new();
        proof {
            lemma_node(nodes, pivot as int);
        }
        let p: usize = self.arena.get(pivot).parent;
        let ghost refs = nodes[pivot as int].referees@;
        let mut j: usize = 0;
        while j < self.arena.get(pivot).referees.len()
            invariant
                self.arena.wf(),
                links_ok(nodes),
                nodes == self.nodes(),
                g == self.dag(),
                pivot == nodes.len() - 1,
                refs == nodes[pivot as int].referees@,
                j <= refs.len(),
                queue@.no_duplicates(),
                forall|y: usize| #[trigger] visited@.contains(y) <==> queue@.contains(y),
                forall|y: usize| #[trigger] queue@.contains(y) <==> refs.take(j as int).contains(y),
            decreases refs.len() - j,
        {
            let referee: usize = self.arena.get(pivot).referees[j];
            let ghost held = queue@;
            if !visited.contains(&referee) {
                visited.insert(referee);
                queue.push(referee);
            }
            j = j + 1;
            proof {
                assert(refs.take(j as int) =~= refs.take(j - 1).push(referee));
                assert forall|y: usize| #[trigger] queue@.contains(y) <==> refs.take(
                    j as int,
                ).contains(y) by {
                    lemma_push_contains(refs.take(j - 1), referee, y);
                    lemma_push_contains(held, referee, y);
                }
                assert forall|y: usize| #[trigger] visited@.contains(y) <==> queue@.contains(
                    y,
                ) by {
                    lemma_push_contains(held, referee, y);
                }
            }
        }
        proof {
            assert(refs.take(refs.len() as int) =~= refs);
            assert forall|y: usize| #[trigger] queue@.contains(y) implies y < pivot && g.reaches(
                pivot as int,
                y as int,
            ) && pivot > 0 by {
                let i = refs.index_of(y);
                assert(refs[i] == y);
                lemma_edges_listed(nodes, pivot as int, y as int);
                lemma_reaches_step(g, pivot as int, y as int, y as int);
            }
        }
        let mut members: Vec<usize> = Vec::new();
        let mut at: usize = 0;
        while at < queue.len()
            invariant
                self.arena.wf(),
                links_ok(nodes),
                nodes == self.nodes(),
                g == self.dag(),
                n == nodes.len(),
                pivot == n - 1,
                pivot < usize::MAX,
                p == nodes[pivot as int].parent,
                views_ok(nodes, pivot as nat),
                tree_shape(self.trees.weight_tree, self.parents(), pivot as nat),
                pivot > 0 ==> p < pivot,
                at <= queue@.len(),
                queue@.no_duplicates(),
                forall|y: usize| #[trigger] visited@.contains(y) <==> queue@.contains(y),
                forall|y: usize| #[trigger]
                    queue@.contains(y) ==> y < pivot && g.reaches(pivot as int, y as int) && pivot
                        > 0,
                forall|y: usize| refs.contains(y) ==> #[trigger] queue@.contains(y),
                forall|i: int, y: usize|
                    0 <= i < at && !g.reaches(p as int, queue@[i] as int) && #[trigger] g.edge(
                        queue@[i] as int,
                        y as int,
                    ) ==> queue@.contains(y),
                members@.no_duplicates(),
                forall|y: usize| #[trigger]
                    members@.contains(y) <==> queue@.take(at as int).contains(y) && !g.reaches(
                        p as int,
                        y as int,
                    ),
            decreases pivot - at,
        {
            let index: usize = queue[at];
            proof {
                assert(queue@.contains(index));
                assert forall|i: int| 0 <= i < queue@.len() implies (#[trigger] queue@[i])
                    < pivot by {
                    assert(queue@.contains(queue@[i]));
                }
                lemma_distinct_below(queue@, pivot as nat);
                assert(!queue@.take(at as int).contains(index)) by {
                    if queue@.take(at as int).contains(index) {
                        let i = queue@.take(at as int).index_of(index);
                        assert(queue@[i] == index);
                    }
                }
            }
            let ghost before = queue@;
            let ghost had = members@;
            if !self.in_old_epoch(p, index, Ghost(pivot as nat)) {
                proof {
                    lemma_node(nodes, p as int);
                    lemma_node(nodes, index as int);
                    if index == 0 {
                        lemma_all_reach_root(g, p as int);
                    }
                }
                let parent: usize = self.arena.get(index).parent;
                self.visit(parent, &mut queue, &mut visited);
                proof {
                    lemma_edges_listed(nodes, index as int, parent as int);
                    lemma_reaches_step(g, index as int, parent as int, parent as int);
                    lemma_reaches_transitive(g, pivot as int, index as int, parent as int);
                }
                let mut r: usize = 0;
                while r < self.arena.get(index).referees.len()
                    invariant
                        self.arena.wf(),
                        links_ok(nodes),
                        nodes == self.nodes(),
                        g == self.dag(),
                        n == nodes.len(),
                        pivot == n - 1,
                        pivot > 0,
                        index < pivot,
                        g.reaches(pivot as int, index as int),
                        r <= nodes[index as int].referees@.len(),
                        at < before.len() <= queue@.len(),
                        queue@.take(before.len() as int) == before,
                        queue@.no_duplicates(),
                        forall|y: usize| #[trigger] visited@.contains(y) <==> queue@.contains(y),
                        forall|y: usize| #[trigger]
                            queue@.contains(y) ==> y < pivot && g.reaches(pivot as int, y as int),
                        forall|y: usize| before.contains(y) ==> #[trigger] queue@.contains(y),
                        queue@.contains(nodes[index as int].parent),
                        forall|i: int|
                            0 <= i < r ==> queue@.contains(
                                #[trigger] nodes[index as int].referees@[i],
                            ),
                    decreases nodes[index as int].referees@.len() - r,
                {
                    let referee: usize = self.arena.get(index).referees[r];
                    proof {
                        assert(nodes[index as int].referees@.contains(referee));
                        lemma_node(nodes, index as int);
                        lemma_edges_listed(nodes, index as int, referee as int);
                        lemma_reaches_step(g, index as int, referee as int, referee as int);
                        lemma_reaches_transitive(g, pivot as int, index as int, referee as int);
                    }
                    let ghost held = queue@;
                    self.visit(referee, &mut queue, &mut visited);
                    proof {
                        assert(queue@.take(before.len() as int) =~= held.take(
                            before.len() as int,
                        ));
                    }
                    r = r + 1;
                }
                members.push(index);
                proof {
                    assert forall|y: usize| #[trigger]
                        g.edge(index as int, y as int) implies queue@.contains(y) by {
                        lemma_edges_listed(nodes, index as int, y as int);
                        let rs = nodes[index as int].referees@;
                        if nodes[index as int].parent != y {
                            let i = rs.index_of(y);
                            assert(rs[i] == y);
                        }
                    }
                }
            }
            at = at + 1;
            proof {
                assert(queue@.take(before.len() as int) =~= before);
                assert forall|i: int| 0 <= i < before.len() implies #[trigger] queue@[i]
                    == before[i] by {
                    assert(queue@.take(before.len() as int)[i] == before[i]);
                }
                assert(queue@.take(at as int) =~= before.take(at - 1).push(index));
                assert forall|y: usize| #[trigger]
                    members@.contains(y) <==> queue@.take(at as int).contains(y) && !g.reaches(
                        p as int,
                        y as int,
                    ) by {
                    lemma_push_contains(before.take(at - 1), index, y);
                    lemma_push_contains(had, index, y);
                }
                assert(!had.contains(index));
                assert forall|i: int, y: usize|
                    0 <= i < at && !g.reaches(p as int, queue@[i] as int) && #[trigger] g.edge(
                        queue@[i] as int,
                        y as int,
                    ) implies queue@.contains(y) by {
                    if i < at - 1 {
                        assert(queue@[i] == before[i]);
                        assert(before.contains(y));
                    } else {
                        assert(queue@[i] == index);
                    }
                }
            }
        }
        proof {
            assert(queue@.take(queue@.len() as int) =~= queue@);
            assert forall|y: usize| #[trigger] members@.contains(y) <==> in_own_epoch(
                g,
                pivot as int,
                y as int,
            ) by {
                if in_own_epoch(g, pivot as int, y as int) {
                    lemma_reaches_earlier(g, pivot as int, y as int);
                    let s = Set::new(
                        |z: int|
                            z == pivot || (0 <= z < n && queue@.contains(z as usize)) || g.reaches(
                                p as int,
                                z,
                            ),
                    );
                    assert forall|a: int, b: int|
                        s.contains(a) && #[trigger] g.edge(a, b) implies s.contains(b) by {
                        if a == pivot {
                            lemma_edges_listed(nodes, pivot as int, b);
                            if refs.contains(b as usize) {
                                assert(queue@.contains(b as usize));
                            }
                        } else if g.reaches(p as int, a) {
                            lemma_reaches_step(g, a, b, b);
                            lemma_reaches_transitive(g, p as int, a, b);
                        } else {
                            let i = queue@.index_of(a as usize);
                            assert(g.edge(queue@[i] as int, b as usize as int));
                        }
                    }
                    lemma_closed_set_holds_reached(g, s, pivot as int, y as int);
                    assert(queue@.contains(y));
                }
            }
        }
        members
    }

    /// Queues a block that has not been visited.
    fn visit(&self, x: usize, queue: &mut Vec<usize>, visited: &mut HashSet<usize>)
        requires
            old(queue)@.no_duplicates(),
            forall|y: usize| #[trigger] old(visited)@.contains(y) <==> old(queue)@.contains(y),
        ensures
            final(queue)@.no_duplicates(),
            forall|y: usize| #[trigger] final(visited)@.contains(y) <==> final(queue)@.contains(y),
            final(queue)@ == (if old(queue)@.contains(x) {
                old(queue)@
            } else {
                old(queue)@.push(x)
            }),
            forall|y: usize| #[trigger]
                final(queue)@.contains(y) <==> old(queue)@.contains(y) || y == x,
    {
        let ghost before = queue@;
        if !visited.contains(&x) {
            visited.insert(x);
            queue.push(x);
        }
        proof {
            assert forall|y: usize| #[trigger]
                queue@.contains(y) <==> before.contains(y) || y == x by {
                lemma_push_contains(before, x, y);
            }
        }
    }

    /// Computes the own epoch of the newest block, in which no block has seen
    /// it yet, and tells the blocks of it.
    pub fn collect_blockset_in_own_view_of_epoch(&mut self, pivot: usize)
        requires
            old(self).arena.wf(),
            links_ok(old(self).nodes()),
            distinct_hashes(old(self).nodes()),
            pivot == old(self).size() - 1,
            views_ok(old(self).nodes(), pivot as nat),
            tree_shape(old(self).trees.weight_tree, old(self).parents(), pivot as nat),
            old(self).nodes()[pivot as int].data.min_epoch_in_other_views
                == old(self).nodes()[pivot as int].height,
            old(self).nodes()[pivot as int].data.max_epoch_in_other_views
                == old(self).nodes()[pivot as int].height,
        ensures
            final(self).arena.wf(),
            *final(self) == (ConsensusGraphInner { arena: final(self).arena, ..*old(self) }),
            with_own_view(old(self).nodes(), final(self).nodes(), pivot as int),
            views_ok(final(self).nodes(), (pivot + 1) as nat),
            final(self).nodes()[pivot as int].data.ordered_epoch_blocks@.len() > 0,
            is_topological_order(
                old(self).nodes(),
                final(self).nodes()[pivot as int].data.blockset_in_own_view_of_epoch@,
                final(self).nodes()[pivot as int].data.ordered_epoch_blocks@.drop_last(),
            ),
    {
        let ghost start = *self;
        let ghost a = self.nodes();
        let ghost g = self.dag();
        let members: Vec<usize> = self.own_view(pivot);
        let height: u64 = self.arena.get(pivot).height;
        let mut set: HashSet<usize> = HashSet::new();
        let mut j: usize = 0;
        while j < members.len()
            invariant
                self.arena.wf(),
                pivot == a.len() - 1,
                height == a[pivot as int].height,
                *self == (ConsensusGraphInner { arena: self.arena, ..start }),
                a == start.nodes(),
                links_ok(a),
                g == dag_of(a),
                members@.no_duplicates(),
                forall|y: usize| #[trigger]
                    members@.contains(y) <==> in_own_epoch(g, pivot as int, y as int),
                j <= members@.len(),
                forall|y: usize| #[trigger]
                    set@.contains(y) <==> members@.take(j as int).contains(y),
                self.nodes().len() == a.len(),
                forall|i: int|
                    0 <= i < a.len() ==> #[trigger] self.nodes()[i] == (if members@.take(
                        j as int,
                    ).contains(i as usize) {
                        seen_at(a[i], height)
                    } else {
                        a[i]
                    }),
            decreases members@.len() - j,
        {
            let index: usize = members[j];
            let ghost before = self.nodes();
            proof {
                assert(members@.contains(index));
                lemma_node(a, pivot as int);
                lemma_reaches_earlier(g, pivot as int, index as int);
                assert(!members@.take(j as int).contains(index)) by {
                    if members@.take(j as int).contains(index) {
                        let i = members@.take(j as int).index_of(index);
                        assert(members@[i] == index);
                    }
                }
            }
            let node = self.arena.get_mut(index);
            if height < node.data.min_epoch_in_other_views {
                node.data.min_epoch_in_other_views = height;
            }
            if height > node.data.max_epoch_in_other_views {
                node.data.max_epoch_in_other_views = height;
            }
            set.insert(index);
            j = j + 1;
            proof {
                assert(members@.take(j as int) =~= members@.take(j - 1).push(index));
                assert forall|y: usize| #[trigger]
                    set@.contains(y) <==> members@.take(j as int).contains(y) by {
                    lemma_push_contains(members@.take(j - 1), index, y);
                }
                assert forall|i: int| 0 <= i < a.len() implies #[trigger] self.nodes()[i] == (
                if members@.take(j as int).contains(i as usize) {
                    seen_at(a[i], height)
                } else {
                    a[i]
                }) by {
                    lemma_push_contains(members@.take(j - 1), index, i as usize);
                    if i == index {
                        assert(before[i] == a[i]);
                        assert(self.nodes()[i] == seen_at(a[i], height));
                    } else {
                        assert(self.nodes()[i] == before[i]);
                    }
                }
            }
        }
        let ghost b = self.nodes();
        proof {
            assert(members@.take(members@.len() as int) =~= members@);
            lemma_node(a, pivot as int);
            assert(!in_own_epoch(g, pivot as int, pivot as int));
            assert(!members@.contains(pivot));
            assert(b[pivot as int] == a[pivot as int]);
            assert(same_links(a, b));
            lemma_same_links(a, b);
            assert forall|y: usize| #[trigger] set@.contains(y) implies y < pivot by {
                assert(members@.contains(y));
                lemma_reaches_earlier(g, pivot as int, y as int);
            }
        }
        let mut ordered: Vec<usize> = self.topological_sort(&set);
        let ghost order = ordered@;
        let ghost own = set@;
        ordered.push(pivot);
        proof {
            lemma_order_same(a, b, set@, order);
            lemma_order_lists_epoch(a, pivot, set@, order);
            assert(ordered@.drop_last() =~= order);
        }
        let node = self.arena.get_mut(pivot);
        node.data.blockset_in_own_view_of_epoch = set;
        node.data.ordered_epoch_blocks = ordered;
        proof {
            let c = self.nodes();
            assert forall|i: int| 0 <= i < a.len() && i != pivot implies #[trigger] c[i] == (
            if in_own_epoch(dag_of(a), pivot as int, i) {
                seen_at(a[i], a[pivot as int].height)
            } else {
                a[i]
            }) by {
                assert(c[i] == b[i]);
                assert(members@.contains(i as usize) <==> in_own_epoch(g, pivot as int, i));
            }
            assert(same_links(a, c));
            lemma_order_carried(a, c, own, order, a.len());
            assert(ordered_by_hash(c, pivot as int));
            lemma_views_extended(a, c, pivot);
        }
    }
}

} // verus!
