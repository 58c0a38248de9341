//! Whether a block chose the right parent.

use vstd::prelude::*;
use crate::adaptive::weights_without;
use crate::anticone::is_last_pivot_below;
use crate::arena::{dag_of, set_to_vec, ConsensusGraphNode};
use crate::barrier::amount_below;
#[allow(unused_imports)]
use crate::barrier::{lemma_amount_bounds, shift_paths};
use crate::bits::BlockSet;
use crate::brutal::{table, tuple_ok};
use crate::config::ConsensusInnerConfig;
use crate::dag::{ancestor, ancestor_at_depth, depth};
#[allow(unused_imports)]
use crate::dag::{lemma_ancestor_at_depth, lemma_ancestor_depth, lemma_ancestor_earlier,
    lemma_ancestor_is_reached, lemma_reaches_earlier, lemma_reaches_transitive,
    lemma_root_is_ancestor};
use crate::model::{chain_ok, era_height, in_own_epoch, links_ok, parents_of, subtree_weight,
    tree_shape, trees_ok, views_ok, weight_limit, weight_of};
#[allow(unused_imports)]
use crate::past::lemma_recorded_bounds;
use crate::path_tree::is_lowest_common_ancestor;
use crate::removal::{is_barrier, not_below, same_trees, seen_weight, BarrierWeights};
#[allow(unused_imports)]
use crate::removal::{lemma_measured_fits, lemma_seen, lemma_same_trees_ok, lemma_trees_bounded};
use crate::state::ConsensusGraphInner;
#[allow(unused_imports)]
use crate::state::{lemma_depth_bounded, lemma_node, lemma_weight_bounds};
#[allow(unused_imports)]
use crate::trees::{lemma_tree_ancestors, lemma_tree_weight_bounds};
use crate::types::H256;

verus! {

broadcast use vstd::std_specs::hash::group_hash_axioms;

/// The order of subtrees: by weight, and by hash between equal weights.
pub open spec fn heavier(wa: int, ha: H256, wb: int, hb: H256) -> bool {
    wa > wb || (wa == wb && ha.exceeds(hb))
}

/// No subtree is heavier than itself.
pub proof fn lemma_heavier_irreflexive(w: int, h: H256)
    ensures
        !heavier(w, h, w, h),
{
}

/// Of two subtrees with different roots exactly one is heavier.
pub proof fn lemma_heavier_total(wa: int, ha: H256, wb: int, hb: H256)
    requires
        ha != hb,
    ensures
        heavier(wa, ha, wb, hb) <==> !heavier(wb, hb, wa, ha),
{
}

/// A subtree that is heavier than a heavier one is heavier.
pub proof fn lemma_heavier_transitive(wa: int, ha: H256, wb: int, hb: H256, wc: int, hc: H256)
    requires
        heavier(wa, ha, wb, hb),
        heavier(wb, hb, wc, hc),
    ensures
        heavier(wa, ha, wc, hc),
{
}

/// Seeing `y` shows that a child of `parent` should have had another parent:
/// `y` lies below `parent`, or in a subtree that is heavier than the one of
/// `parent` where the two part. Forks before the era do not count.
pub open spec fn shows_wrong_parent(
    nodes: Seq<ConsensusGraphNode>,
    w: spec_fn(int) -> int,
    parent: int,
    y: int,
) -> bool {
    let par = parents_of(nodes);
    &&& !nodes[y].data.partial_invalid
    &&& exists|a: int| #[trigger]
        is_lowest_common_ancestor(par, y, parent, a) && fork_is_wrong(nodes, w, parent, y, a)
}

/// The same for the block `a` at which the two part.
pub open spec fn fork_is_wrong(
    nodes: Seq<ConsensusGraphNode>,
    w: spec_fn(int) -> int,
    parent: int,
    y: int,
    a: int,
) -> bool {
    let par = parents_of(nodes);
    let fork = ancestor_at_depth(par, y, depth(par, a) + 1);
    let pivot = ancestor_at_depth(par, parent, depth(par, a) + 1);
    &&& depth(par, a) >= era_height(depth(par, parent) as int, 0)
    &&& a == parent || heavier(w(fork), nodes[fork].hash, w(pivot), nodes[pivot].hash)
}

/// The parent of `me` is the right one for all that `me` sees in its own
/// epoch.
pub open spec fn has_correct_parent(
    nodes: Seq<ConsensusGraphNode>,
    w: spec_fn(int) -> int,
    me: int,
) -> bool {
    forall|y: int| #[trigger]
        in_own_epoch(dag_of(nodes), me, y) ==> !shows_wrong_parent(
            nodes,
            w,
            nodes[me].parent as int,
            y,
        )
}

/// There is one lowest common ancestor.
pub proof fn lemma_lca_unique(par: Seq<usize>, v: int, w: int, a: int, b: int)
    requires
        is_lowest_common_ancestor(par, v, w, a),
        is_lowest_common_ancestor(par, v, w, b),
        0 <= v,
    ensures
        a == b,
{
    assert(ancestor(par, b, a));
    assert(ancestor(par, a, b));
    lemma_ancestor_earlier(par, a, v);
    lemma_ancestor_earlier(par, b, v);
    lemma_ancestor_earlier(par, a, b);
    lemma_ancestor_earlier(par, b, a);
}

impl ConsensusGraphInner {
    /// Whether the subtree with weight and hash `a` is heavier than `b`.
    pub fn is_heavier(a: (i128, &H256), b: (i128, &H256)) -> (r: bool)
        ensures
            r == heavier(a.0 as int, *a.1, b.0 as int, *b.1),
    {
        a.0 > b.0 || (a.0 == b.0 && a.1.is_greater(b.1))
    }

    /// The lowest common ancestor of two blocks in the weight tree.
    pub fn lca_of(&self, v: usize, w: usize) -> (a: usize)
        requires
            links_ok(self.nodes()),
            tree_shape(self.trees.weight_tree, self.parents(), self.size()),
            v < self.size(),
            w < self.size(),
        ensures
            is_lowest_common_ancestor(self.parents(), v as int, w as int, a as int),
            a <= v,
            a <= w,
    {
        let ghost par = self.parents();
        let ghost q = self.trees.weight_tree.parents();
        proof {
            lemma_node(self.nodes(), v as int);
            lemma_tree_ancestors(self.trees.weight_tree, par, self.size());
            lemma_root_is_ancestor(par, v as int);
            lemma_root_is_ancestor(par, w as int);
            assert(ancestor(q, 0, v as int) && ancestor(q, 0, w as int));
        }
        let a: usize = self.trees.weight_tree.lca(v, w);
        proof {
            lemma_ancestor_earlier(q, a as int, v as int);
            lemma_ancestor_earlier(q, a as int, w as int);
            assert forall|z: int| #[trigger]
                ancestor(par, z, v as int) && ancestor(par, z, w as int) implies ancestor(
                par,
                z,
                a as int,
            ) by {
                assert(ancestor(q, z, v as int) && ancestor(q, z, w as int));
                assert(ancestor(q, z, a as int));
            }
        }
        a
    }

    /// The ancestor of `x` at the given height, from the weight tree.
    pub fn ancestor_of(&self, x: usize, height: usize) -> (a: usize)
        requires
            links_ok(self.nodes()),
            tree_shape(self.trees.weight_tree, self.parents(), self.size()),
            x < self.size(),
            height <= depth(self.parents(), x as int),
        ensures
            a == ancestor_at_depth(self.parents(), x as int, height as nat),
            a <= x,
            ancestor(self.parents(), a as int, x as int),
            depth(self.parents(), a as int) == height,
    {
        proof {
            self.lemma_tree_ancestor(x as int, height as nat);
            lemma_ancestor_at_depth(self.parents(), x as int, height as nat);
        }
        self.trees.weight_tree.ancestor_at(x, height)
    }

    /// Whether seeing `y` shows that `parent` is the wrong parent, by the
    /// weights of the table or, without one, of the weight tree.
    fn wrong_parent_for(&self, y: usize, parent: usize, table: Option<&Vec<i128>>) -> (wrong: bool)
        requires
            self.arena.wf(),
            links_ok(self.nodes()),
            tree_shape(self.trees.weight_tree, self.parents(), self.size()),
            y < self.size(),
            parent < self.size(),
            !ancestor(self.parents(), y as int, parent as int),
            table matches Some(t) ==> t@.len() == self.size(),
        ensures
            wrong == shows_wrong_parent(
                self.nodes(),
                |x: int|
                    match table {
                        Some(t) => t@[x] as int,
                        None => self.trees.weight_tree.values()[x] as int,
                    },
                parent as int,
                y as int,
            ),
    {
        let ghost nodes = self.nodes();
        let ghost par = self.parents();
        let ghost w = |x: int|
            match table {
                Some(t) => t@[x] as int,
                None => self.trees.weight_tree.values()[x] as int,
            };
        if self.arena.get(y).data.partial_invalid {
            return false;
        }
        let lca: usize = self.lca_of(y, parent);
        proof {
            lemma_node(nodes, lca as int);
            lemma_node(nodes, parent as int);
            lemma_node(nodes, y as int);
            lemma_ancestor_depth(par, lca as int, y as int);
            lemma_ancestor_depth(par, lca as int, parent as int);
            lemma_depth_bounded(par, y as int);
            assert(lca != y);
            assert(shows_wrong_parent(nodes, w, parent as int, y as int) == fork_is_wrong(
                nodes,
                w,
                parent as int,
                y as int,
                lca as int,
            )) by {
                if shows_wrong_parent(nodes, w, parent as int, y as int) {
                    let a = choose|a: int| #[trigger]
                        is_lowest_common_ancestor(par, y as int, parent as int, a)
                            && fork_is_wrong(nodes, w, parent as int, y as int, a);
                    lemma_lca_unique(par, y as int, parent as int, a, lca as int);
                }
            }
        }
        let era: u64 = self.get_era_height(self.arena.get(parent).height, 0);
        let height: u64 = self.arena.get(lca).height;
        if height < era {
            return false;
        }
        if lca == parent {
            return true;
        }
        let fork: usize = self.ancestor_of(y, height as usize + 1);
        let pivot: usize = self.ancestor_of(parent, height as usize + 1);
        let fork_weight: i128 = match table {
            Some(t) => t[fork],
            None => self.trees.weight_tree.get(fork),
        };
        let pivot_weight: i128 = match table {
            Some(t) => t[pivot],
            None => self.trees.weight_tree.get(pivot),
        };
        assert(w(fork as int) == fork_weight && w(pivot as int) == pivot_weight);
        Self::is_heavier(
            (fork_weight, &self.arena.get(fork).hash),
            (pivot_weight, &self.arena.get(pivot).hash),
        )
    }

    /// Whether the parent of `me` is the right one by the given weights.
    fn parent_is_right(&self, me: usize, table: Option<&Vec<i128>>) -> (valid: bool)
        requires
            self.arena.wf(),
            links_ok(self.nodes()),
            views_ok(self.nodes(), self.size()),
            tree_shape(self.trees.weight_tree, self.parents(), self.size()),
            0 < me < self.size(),
            table matches Some(t) ==> t@.len() == self.size(),
        ensures
            valid == has_correct_parent(
                self.nodes(),
                |x: int|
                    match table {
                        Some(t) => t@[x] as int,
                        None => self.trees.weight_tree.values()[x] as int,
                    },
                me as int,
            ),
    {
        let ghost nodes = self.nodes();
        let ghost g = self.dag();
        let ghost w = |x: int|
            match table {
                Some(t) => t@[x] as int,
                None => self.trees.weight_tree.values()[x] as int,
            };
        proof {
            lemma_node(nodes, me as int);
        }
        let parent: usize = self.arena.get(me).parent;
        let items: Vec<usize> = set_to_vec(
            &self.arena.get(me).data.blockset_in_own_view_of_epoch,
        );
        proof {
            assert forall|y: usize| #[trigger] items@.contains(y) <==> in_own_epoch(
                g,
                me as int,
                y as int,
            ) by {
                reveal(views_ok);
            }
        }
        let mut j: usize = 0;
        while j < items.len()
            invariant
                self.arena.wf(),
                links_ok(nodes),
                nodes == self.nodes(),
                g == self.dag(),
                tree_shape(self.trees.weight_tree, self.parents(), self.size()),
                0 < me < nodes.len(),
                parent == nodes[me as int].parent,
                parent < me,
                table matches Some(t) ==> t@.len() == nodes.len(),
                w == (|x: int|
                    match table {
                        Some(t) => t@[x] as int,
                        None => self.trees.weight_tree.values()[x] as int,
                    }),
                forall|y: usize| #[trigger]
                    items@.contains(y) <==> in_own_epoch(g, me as int, y as int),
                j <= items@.len(),
                forall|i: int|
                    0 <= i < j ==> !shows_wrong_parent(
                        nodes,
                        w,
                        parent as int,
                        #[trigger] items@[i] as int,
                    ),
            decreases items@.len() - j,
        {
            let y: usize = items[j];
            proof {
                assert(items@.contains(y));
                lemma_reaches_earlier(g, me as int, y as int);
                if ancestor(g.parent, y as int, parent as int) {
                    lemma_ancestor_is_reached(g, y as int, parent as int);
                }
            }
            if self.wrong_parent_for(y, parent, table) {
                assert(in_own_epoch(g, me as int, y as int));
                return false;
            }
            j = j + 1;
        }
        proof {
            assert forall|y: int| #[trigger] in_own_epoch(g, me as int, y) implies
                !shows_wrong_parent(nodes, w, parent as int, y) by {
                lemma_reaches_earlier(g, me as int, y);
                assert(items@.contains(y as usize));
                let i = items@.index_of(y as usize);
                assert(items@[i] == y);
            }
        }
        true
    }

    /// The same by the subtree weights given.
    fn check_correct_parent_brutal(&self, me: usize, subtree_weight: &Vec<i128>) -> (valid: bool)
        requires
            self.arena.wf(),
            links_ok(self.nodes()),
            views_ok(self.nodes(), self.size()),
            tree_shape(self.trees.weight_tree, self.parents(), self.size()),
            0 < me < self.size(),
            subtree_weight@.len() == self.size(),
        ensures
            valid == has_correct_parent(self.nodes(), table(subtree_weight@), me as int),
    {
        let valid: bool = self.parent_is_right(me, Some(subtree_weight));
        proof {
            let given = Some(subtree_weight);
            self.lemma_correct_parent_same(
                me as int,
                |x: int|
                    match given {
                        Some(t) => t@[x] as int,
                        None => self.trees.weight_tree.values()[x] as int,
                    },
                table(subtree_weight@),
            );
        }
        valid
    }

    /// The answer depends on the weights of blocks that `me` sees alone, and not
    /// on that of the root.
    pub proof fn lemma_correct_parent_same(
        &self,
        me: int,
        u: spec_fn(int) -> int,
        v: spec_fn(int) -> int,
    )
        requires
            links_ok(self.nodes()),
            0 < me < self.size(),
            forall|x: int| #[trigger] self.dag().reaches(me, x) && x != 0 ==> u(x) == v(x),
        ensures
            has_correct_parent(self.nodes(), u, me) == has_correct_parent(self.nodes(), v, me),
    {
        let nodes = self.nodes();
        let g = self.dag();
        let par = g.parent;
        lemma_node(nodes, me);
        let parent = nodes[me].parent as int;
        assert forall|y: int| #[trigger] in_own_epoch(g, me, y) implies shows_wrong_parent(
            nodes,
            u,
            parent,
            y,
        ) == shows_wrong_parent(nodes, v, parent, y) by {
            lemma_reaches_earlier(g, me, y);
            assert forall|a: int| #[trigger]
                is_lowest_common_ancestor(par, y, parent, a) implies fork_is_wrong(
                nodes,
                u,
                parent,
                y,
                a,
            ) == fork_is_wrong(nodes, v, parent, y, a) by {
                if a != parent {
                    lemma_ancestor_depth(par, a, y);
                    lemma_ancestor_depth(par, a, parent);
                    if a == y {
                        lemma_ancestor_is_reached(g, y, parent);
                    }
                    let h = depth(par, a) + 1;
                    lemma_ancestor_at_depth(par, y, h);
                    lemma_ancestor_at_depth(par, parent, h);
                    let fork = ancestor_at_depth(par, y, h);
                    let pivot = ancestor_at_depth(par, parent, h);
                    crate::dag::lemma_root_is_ancestor(par, me);
                    lemma_ancestor_is_reached(g, fork, y);
                    lemma_reaches_transitive(g, me, y, fork);
                    lemma_ancestor_is_reached(g, pivot, parent);
                    assert(ancestor(par, parent, me)) by {
                        assert(ancestor(par, parent, parent));
                    }
                    lemma_ancestor_is_reached(g, parent, me);
                    lemma_reaches_transitive(g, me, parent, pivot);
                }
            }
            if shows_wrong_parent(nodes, u, parent, y) {
                let a = choose|a: int| #[trigger]
                    is_lowest_common_ancestor(par, y, parent, a) && fork_is_wrong(
                        nodes,
                        u,
                        parent,
                        y,
                        a,
                    );
                assert(fork_is_wrong(nodes, v, parent, y, a));
            }
            if shows_wrong_parent(nodes, v, parent, y) {
                let a = choose|a: int| #[trigger]
                    is_lowest_common_ancestor(par, y, parent, a) && fork_is_wrong(
                        nodes,
                        v,
                        parent,
                        y,
                        a,
                    );
                assert(fork_is_wrong(nodes, u, parent, y, a));
            }
        }
    }

    /// Whether the newest block chose the right parent, by the weights that it
    /// sees.
    pub fn check_correct_parent(
        &mut self,
        me: usize,
        anticone_barrier: &BlockSet,
        weight_tuple: Option<&(Vec<i128>, Vec<i128>, Vec<i128>)>,
        Ghost(k): Ghost<nat>,
    ) -> (valid: bool)
        requires
            old(self).tree_ready(k),
            views_ok(old(self).nodes(), old(self).size()),
            0 < me < old(self).size(),
            anticone_barrier.wf(),
            is_barrier(old(self).parents(), anticone_barrier@, old(self).size()),
            forall|x: int| #[trigger]
                old(self).dag().reaches(me as int, x) ==> not_below(
                    old(self).parents(),
                    anticone_barrier@,
                    x,
                ),
            weight_tuple matches Some(t) ==> tuple_ok(
                old(self).inner_conf,
                old(self).nodes(),
                t.0@,
                t.1@,
                t.2@,
            ),
        ensures
            final(self).tree_ready(k),
            *final(self) == (ConsensusGraphInner { trees: final(self).trees, ..*old(self) }),
            same_trees(old(self).trees, final(self).trees),
            weight_tuple matches Some(t) ==> valid == has_correct_parent(
                old(self).nodes(),
                table(t.0@),
                me as int,
            ),
            weight_tuple is None ==> valid == has_correct_parent(
                old(self).nodes(),
                weights_without(old(self).inner_conf, old(self).nodes(), anticone_barrier@, k),
                me as int,
            ),
    {
        let ghost conf = self.inner_conf;
        let ghost nodes = self.nodes();
        let ghost par = self.parents();
        let ghost n = nodes.len();
        let ghost barrier = anticone_barrier@;
        let ghost t = self.trees;
        proof {
            lemma_trees_bounded(conf, nodes, t, n, k);
        }
        match weight_tuple {
            Some(tuple) => {
                return self.check_correct_parent_brutal(me, &tuple.0);
            },
            None => {},
        }
        let b: BarrierWeights = self.measure_barrier(anticone_barrier, Ghost(k));
        let ghost bound = 3 * weight_limit();
        proof {
            lemma_measured_fits(b, conf, nodes, barrier, n, k, -1);
            lemma_measured_fits(b, conf, nodes, barrier, n, k, 1);
            assert forall|c: int| 0 <= c <= crate::barrier::amount(
                b.weight@,
                b.weight@.len(),
            ) implies -bound <= #[trigger] (-1 * c) <= bound by {
                crate::state::lemma_total_cap_bounds(conf, nodes);
            }
            assert forall|c: int| 0 <= c <= crate::barrier::amount(
                b.weight@,
                b.weight@.len(),
            ) implies -(2 * bound) <= #[trigger] (1 * c) <= 2 * bound by {
                crate::state::lemma_total_cap_bounds(conf, nodes);
            }
        }
        shift_paths(
            &mut self.trees.weight_tree,
            &b.items,
            &b.weight,
            -1,
            Ghost(par),
            Ghost(bound),
        );
        let ghost u = self.trees;
        let valid: bool = self.parent_is_right(me, None);
        proof {
            let given = None::<&Vec<i128>>;
            assert forall|x: int| #[trigger] self.dag().reaches(me as int, x) implies
                u.weight_tree.values()[x] as int == seen_weight(conf, nodes, barrier, k, x) by {
                lemma_reaches_earlier(self.dag(), me as int, x);
                assert(old(self).dag().reaches(me as int, x));
                lemma_seen(b, conf, nodes, barrier, n, k, x);
                assert(t.weight_tree.values()[x] == subtree_weight(conf, nodes, k, x)) by {
                    reveal(trees_ok);
                }
            }
            self.lemma_correct_parent_same(
                me as int,
                |x: int|
                    match given {
                        Some(v) => v@[x] as int,
                        None => self.trees.weight_tree.values()[x] as int,
                    },
                weights_without(conf, nodes, barrier, k),
            );
            assert forall|x: int| 0 <= x < n implies -(2 * bound)
                <= #[trigger] u.weight_tree.values()[x] <= 2 * bound by {
                lemma_amount_bounds(par, b.items@, b.weight@, b.items@.len(), x);
                assert(-bound <= -1 * amount_below(
                    par,
                    b.items@,
                    b.weight@,
                    b.items@.len(),
                    x,
                ) <= bound);
                assert(-bound <= t.weight_tree.values()[x] <= bound);
            }
        }
        shift_paths(
            &mut self.trees.weight_tree,
            &b.items,
            &b.weight,
            1,
            Ghost(par),
            Ghost(2 * bound),
        );
        proof {
            assert(self.trees.weight_tree.values() =~= t.weight_tree.values());
            lemma_same_trees_ok(conf, nodes, t, self.trees, n, k);
        }
        valid
    }

    /// The weight tree holds the subtree weights.
    pub proof fn lemma_tree_weight_at(&self, k: nat, x: int)
        requires
            self.trees_hold(self.size(), k),
            0 <= x < self.size(),
        ensures
            self.trees.weight_tree.values()[x] == subtree_weight(
                self.inner_conf,
                self.nodes(),
                k,
                x,
            ),
            self.trees.shaped(self.parents(), self.size()),
    {
        reveal(trees_ok);
    }

    /// A first look at whether the newest block can have chosen the right
    /// parent: where it leaves the pivot chain, its branch must be able to
    /// reach the least weight that the chain had in its view.
    #[verifier::rlimit(30)]
    pub fn preliminary_check_validity(&self, me: usize) -> (valid: bool)
        requires
            self.linked(me as int),
        ensures
            valid == passes_first_look(
                self.inner_conf,
                self.nodes(),
                self.pivot_chain@,
                me as int,
            ),
    {
        let ghost conf = self.inner_conf;
        let ghost nodes = self.nodes();
        let ghost par = self.parents();
        let ghost chain = self.pivot_chain@;
        let ghost k = me as nat;
        proof {
            lemma_node(nodes, me as int);
            lemma_trees_bounded(conf, nodes, self.trees, nodes.len(), k);
        }
        let len: usize = self.pivot_chain.len();
        let last: usize = self.pivot_chain[len - 1];
        let parent: usize = self.arena.get(me).parent;
        if last == parent {
            return true;
        }
        assert(chain[len - 1] < par.len());
        let lca: usize = self.lca_of(last, me);
        proof {
            lemma_node(nodes, lca as int);
            lemma_chain_index(par, chain, len - 1);
            lemma_ancestor_depth(par, lca as int, me as int);
            lemma_ancestor_depth(par, lca as int, last as int);
            lemma_depth_bounded(par, me as int);
            assert(last < me) by {
                lemma_newest_not_last(self, me as int);
            }
            assert(lca != me);
            assert forall|a: int| #[trigger]
                is_lowest_common_ancestor(par, last as int, me as int, a) implies a == lca by {
                lemma_lca_unique(par, last as int, me as int, a, lca as int);
            }
        }
        let fork_at: usize = self.arena.get(lca).height as usize + 1;
        if fork_at >= len {
            return true;
        }
        let a: usize = self.ancestor_of(me, fork_at);
        let s: usize = self.pivot_chain[fork_at];
        assert(chain[fork_at as int] < par.len());
        let last_pivot: usize = self.last_pivot_below(me);
        assert(chain[last_pivot as int] < par.len());
        proof {
            lemma_tree_weight_bounds(conf, nodes, k, 0);
            lemma_tree_weight_bounds(conf, nodes, k, s as int);
            lemma_tree_weight_bounds(conf, nodes, k, a as int);
            lemma_recorded_bounds(conf, nodes, nodes.len(), chain[last_pivot as int] as int);
            lemma_weight_bounds(conf, nodes, me as int);
            self.lemma_tree_weight_at(k, 0);
            self.lemma_tree_weight_at(k, s as int);
            self.lemma_tree_weight_at(k, a as int);
        }
        let total: i128 = self.trees.weight_tree.get(self.genesis_block_index);
        let before: i128 = self.arena.get(self.pivot_chain[last_pivot]).past_weight;
        let lower: i128 = before + self.trees.weight_tree.get(s) - total;
        proof {
            assert forall|l: usize| #[trigger] is_last_pivot_below(nodes, me as int, l) implies l
                == last_pivot by {
                lemma_last_pivot_unique(nodes, me as int, l, last_pivot);
            }
        }
        if lower < 0 {
            return true;
        }
        let upper: i128 = self.trees.weight_tree.get(a) + self.block_weight(me, false);
        assert(passes_first_look_at(conf, nodes, chain, me as int, lca as int, last_pivot) == (upper
            >= lower));
        upper >= lower
    }
}

/// The newest block is not on the chain.
proof fn lemma_newest_not_last(inner: &ConsensusGraphInner, me: int)
    requires
        inner.base_ok(),
        inner.is_newest(me),
        inner.nodes()[me].data.epoch_number == crate::dag::NULL,
    ensures
        inner.pivot_chain@.last() != me,
{
    reveal(crate::model::epochs_ok);
    let chain = inner.pivot_chain@;
    assert(crate::model::epoch_ok(inner.dag(), chain, me, inner.nodes()[me].data.epoch_number));
    assert(inner.dag().reaches(me, me));
}

pub proof fn lemma_last_pivot_unique(
    nodes: Seq<ConsensusGraphNode>,
    me: int,
    a: usize,
    b: usize,
)
    requires
        is_last_pivot_below(nodes, me, a),
        is_last_pivot_below(nodes, me, b),
    ensures
        a == b,
{
}

/// A chain block lies at the height of its place.
pub proof fn lemma_chain_index(par: Seq<usize>, chain: Seq<usize>, i: int)
    requires
        crate::dag::rooted(par),
        chain_ok(par, chain),
        0 <= i < chain.len(),
    ensures
        depth(par, chain[i] as int) == i,
        forall|j: int|
            0 <= j <= i ==> ancestor(par, (#[trigger] chain[j]) as int, chain[i] as int),
    decreases i,
{
    if i == 0 {
        assert(depth(par, 0) == 0);
        assert(ancestor(par, 0, 0));
    } else {
        lemma_chain_index(par, chain, i - 1);
        let c = chain[i] as int;
        assert(par[c] == chain[i - 1]);
        assert(chain[i - 1] < par.len());
        assert(c > 0);
        assert(ancestor(par, c, c));
        assert forall|j: int| 0 <= j <= i implies ancestor(
            par,
            (#[trigger] chain[j]) as int,
            c,
        ) by {
            if j < i {
                assert(ancestor(par, chain[j] as int, chain[i - 1] as int));
            }
        }
    }
}

/// The first look at the newest block `me`.
pub open spec fn passes_first_look(
    conf: ConsensusInnerConfig,
    nodes: Seq<ConsensusGraphNode>,
    chain: Seq<usize>,
    me: int,
) -> bool {
    chain.last() == nodes[me].parent || forall|lca: int, last_pivot: usize|
        #[trigger] is_lowest_common_ancestor(parents_of(nodes), chain.last() as int, me, lca)
            && #[trigger] is_last_pivot_below(nodes, me, last_pivot) ==> passes_first_look_at(
            conf,
            nodes,
            chain,
            me,
            lca,
            last_pivot,
        )
}

/// The same with the block at which `me` leaves the chain and the last pivot
/// block that its parent and referees record.
pub open spec fn passes_first_look_at(
    conf: ConsensusInnerConfig,
    nodes: Seq<ConsensusGraphNode>,
    chain: Seq<usize>,
    me: int,
    lca: int,
    last_pivot: usize,
) -> bool {
    let par = parents_of(nodes);
    let k = me as nat;
    let fork_at = depth(par, lca) + 1;
    let a = ancestor_at_depth(par, me, fork_at);
    let s = chain[fork_at as int] as int;
    let lower = nodes[chain[last_pivot as int] as int].past_weight + subtree_weight(
        conf,
        nodes,
        k,
        s,
    ) - subtree_weight(conf, nodes, k, 0);
    ||| fork_at >= chain.len()
    ||| lower < 0
    ||| subtree_weight(conf, nodes, k, a) + weight_of(conf, nodes[me]) >= lower
}

} // verus!
