//! The weight trees as blocks are added.

use vstd::prelude::*;
use crate::arena::ConsensusGraphNode;
use crate::config::ConsensusInnerConfig;
use crate::dag::{ancestor, NULL};
#[allow(unused_imports)]
use crate::dag::{lemma_ancestor_earlier, lemma_ancestor_prefix};
use crate::model::{adaptive_value, in_stable_subtree, in_subtree, inclusive_adaptive_value,
    limits_ok, links_ok, parents_of, past_weights_ok, scale, stable_subtree_weight, stable_value,
    subtree_weight, total_cap, tree_shape, tree_weights, trees_ok, weight_cap, weight_limit,
    weight_of, WeightTrees};
#[allow(unused_imports)]
use crate::past::lemma_recorded_bounds;
use crate::path_tree::PathTree;
use crate::state::ConsensusGraphInner;
#[allow(unused_imports)]
use crate::state::{lemma_masked_weight_bounds, lemma_node, lemma_total_cap_bounds,
    lemma_weight_bounds};
use crate::sums::{masked, sum_to};
#[allow(unused_imports)]
use crate::sums::lemma_sum_zero;

verus! {

/// A weight times a factor of the configuration stays within the limit.
pub proof fn lemma_scaled(conf: ConsensusInnerConfig, nodes: Seq<ConsensusGraphNode>, w: int, m: int)
    requires
        limits_ok(conf, nodes),
        -total_cap(conf, nodes) <= w <= total_cap(conf, nodes),
        0 <= m <= scale(conf),
    ensures
        -weight_limit() <= m * w <= weight_limit(),
        w >= 0 ==> m * w >= 0,
        m * w == w * m,
        m * (-w) == -(m * w),
{
    lemma_total_cap_bounds(conf, nodes);
    let t = total_cap(conf, nodes);
    let s = scale(conf);
    assert(-(t * s) <= m * w <= t * s && (w >= 0 ==> m * w >= 0) && m * w == w * m && m * (-w)
        == -(m * w)) by (nonlinear_arith)
        requires
            -t <= w <= t,
            0 <= m <= s,
            0 <= t,
    ;
}

/// Tree weights stay below the caps.
pub proof fn lemma_tree_weight_bounds(
    conf: ConsensusInnerConfig,
    nodes: Seq<ConsensusGraphNode>,
    k: nat,
    x: int,
)
    requires
        limits_ok(conf, nodes),
        k <= nodes.len(),
    ensures
        0 <= subtree_weight(conf, nodes, k, x) <= total_cap(conf, nodes),
        0 <= stable_subtree_weight(conf, nodes, k, x) <= total_cap(conf, nodes),
        total_cap(conf, nodes) <= weight_limit(),
{
    let f = tree_weights(conf, nodes);
    assert forall|i: int| 0 <= i < nodes.len() implies 0 <= #[trigger] f(i) <= weight_cap(conf)(
        nodes[i],
    ) by {
        lemma_weight_bounds(conf, nodes, i);
    }
    lemma_masked_weight_bounds(conf, nodes, in_subtree(parents_of(nodes), x), f, k);
    lemma_masked_weight_bounds(conf, nodes, in_stable_subtree(nodes, x), f, k);
}

/// The values of the trees stay within three times the limit.
pub proof fn lemma_tree_value_bounds(
    conf: ConsensusInnerConfig,
    nodes: Seq<ConsensusGraphNode>,
    n: nat,
    k: nat,
    x: int,
)
    requires
        links_ok(nodes),
        limits_ok(conf, nodes),
        past_weights_ok(conf, nodes, nodes.len()),
        k <= nodes.len(),
        0 <= x < n <= nodes.len(),
    ensures
        -3 * weight_limit() <= stable_value(conf, nodes, k, x) <= 3 * weight_limit(),
        -3 * weight_limit() <= adaptive_value(conf, nodes, k, x) <= 3 * weight_limit(),
        -3 * weight_limit() <= inclusive_adaptive_value(conf, nodes, k, x) <= 3 * weight_limit(),
{
    let den = conf.adaptive_weight_alpha_den as int;
    let num = conf.adaptive_weight_alpha_num as int;
    lemma_node(nodes, x);
    lemma_tree_weight_bounds(conf, nodes, k, x);
    let w = subtree_weight(conf, nodes, k, x);
    let s = stable_subtree_weight(conf, nodes, k, x);
    lemma_scaled(conf, nodes, w, den);
    lemma_scaled(conf, nodes, s, den);
    if x == 0 {
        lemma_weight_bounds(conf, nodes, 0);
        lemma_scaled(conf, nodes, w - tree_weights(conf, nodes)(0), den);
        lemma_scaled(conf, nodes, s - tree_weights(conf, nodes)(0), den);
    } else {
        let p = nodes[x].parent as int;
        lemma_tree_weight_bounds(conf, nodes, k, p);
        lemma_scaled(conf, nodes, subtree_weight(conf, nodes, k, p), num);
        lemma_weight_bounds(conf, nodes, p);
        lemma_recorded_bounds(conf, nodes, nodes.len(), p);
        let a = weight_of(conf, nodes[p]);
        let b = nodes[p].past_era_weight as int;
        lemma_scaled(conf, nodes, a, num);
        lemma_scaled(conf, nodes, b, num);
        assert(num * (a + b) == num * a + num * b) by (nonlinear_arith);
    }
}

/// One more block adds its weight to the subtrees that hold it.
pub proof fn lemma_subtree_step(
    conf: ConsensusInnerConfig,
    nodes: Seq<ConsensusGraphNode>,
    k: nat,
    x: int,
)
    ensures
        subtree_weight(conf, nodes, k + 1, x) == subtree_weight(conf, nodes, k, x) + (if ancestor(
            parents_of(nodes),
            x,
            k as int,
        ) {
            tree_weights(conf, nodes)(k as int)
        } else {
            0
        }),
        stable_subtree_weight(conf, nodes, k + 1, x) == stable_subtree_weight(conf, nodes, k, x)
            + (if ancestor(parents_of(nodes), x, k as int) && nodes[k as int].stable {
            tree_weights(conf, nodes)(k as int)
        } else {
            0
        }),
{
    let f = masked(in_subtree(parents_of(nodes), x), tree_weights(conf, nodes));
    assert(sum_to(f, k + 1) == sum_to(f, k) + f(k as int));
    let g = masked(in_stable_subtree(nodes, x), tree_weights(conf, nodes));
    assert(sum_to(g, k + 1) == sum_to(g, k) + g(k as int));
}

/// Before it is counted, a new block weighs nothing.
pub proof fn lemma_subtree_new(
    conf: ConsensusInnerConfig,
    nodes: Seq<ConsensusGraphNode>,
    x: int,
)
    requires
        0 <= x,
    ensures
        subtree_weight(conf, nodes, x as nat, x) == 0,
        stable_subtree_weight(conf, nodes, x as nat, x) == 0,
{
    let f = masked(in_subtree(parents_of(nodes), x), tree_weights(conf, nodes));
    let g = masked(in_stable_subtree(nodes, x), tree_weights(conf, nodes));
    assert forall|i: int| 0 <= i < x implies #[trigger] f(i) == 0 by {
        if ancestor(parents_of(nodes), x, i) {
            lemma_ancestor_earlier(parents_of(nodes), x, i);
        }
    }
    assert forall|i: int| 0 <= i < x implies #[trigger] g(i) == 0 by {
        if ancestor(parents_of(nodes), x, i) {
            lemma_ancestor_earlier(parents_of(nodes), x, i);
        }
    }
    lemma_sum_zero(f, x as nat);
    lemma_sum_zero(g, x as nat);
}

/// Hangs node `me` with the given value below `parent`.
fn hang(tree: &mut PathTree, parent: usize, me: usize, value: i128)
    requires
        old(tree).wf(),
        old(tree).len() == me,
        parent < me < NULL - 1,
    ensures
        final(tree).wf(),
        final(tree).parents() == old(tree).parents().push(parent),
        final(tree).values() == old(tree).values().push(value),
{
    proof {
        tree.lemma_shape();
    }
    tree.make_tree(me);
    tree.link(parent, me);
    tree.set(me, value);
    proof {
        assert(tree.parents() =~= old(tree).parents().push(parent));
        assert(tree.values() =~= old(tree).values().push(value));
    }
}

/// Ancestors in a tree of the shape of the graph are ancestors in the graph.
pub proof fn lemma_tree_ancestors(tree: PathTree, parent: Seq<usize>, n: nat)
    requires
        tree_shape(tree, parent, n),
    ensures
        forall|x: int, v: int|
            0 <= v < n ==> #[trigger] ancestor(tree.parents(), x, v) == ancestor(parent, x, v),
{
    assert forall|x: int, v: int| 0 <= v < n implies #[trigger] ancestor(tree.parents(), x, v)
        == ancestor(parent, x, v) by {
        lemma_ancestor_prefix(tree.parents(), parent, x, v);
    }
}

/// `path_apply` on a tree of the shape of the graph, whose values stay within
/// bounds.
fn apply_on_path(
    tree: &mut PathTree,
    v: usize,
    delta: i128,
    Ghost(parent): Ghost<Seq<usize>>,
    Ghost(bound): Ghost<int>,
)
    requires
        tree_shape(*old(tree), parent, old(tree).len()),
        v < old(tree).len(),
        forall|x: int|
            0 <= x < old(tree).len() ==> -bound <= #[trigger] old(tree).values()[x] <= bound,
        -bound <= delta <= bound,
        2 * bound <= i128::MAX,
    ensures
        tree_shape(*final(tree), parent, old(tree).len()),
        final(tree).len() == old(tree).len(),
        forall|x: int|
            0 <= x < old(tree).len() ==> (#[trigger] final(tree).values()[x])
                == old(tree).values()[x] + (if ancestor(parent, x, v as int) {
                delta as int
            } else {
                0
            }),
{
    proof {
        lemma_tree_ancestors(*tree, parent, tree.len());
    }
    tree.path_apply(v, delta);
}

/// `catepillar_apply` on a tree of the shape of the graph, whose values stay
/// within bounds.
fn apply_below_path(
    tree: &mut PathTree,
    v: usize,
    delta: i128,
    Ghost(parent): Ghost<Seq<usize>>,
    Ghost(bound): Ghost<int>,
)
    requires
        tree_shape(*old(tree), parent, old(tree).len()),
        v < old(tree).len(),
        forall|x: int|
            0 <= x < old(tree).len() ==> -bound <= #[trigger] old(tree).values()[x] <= bound,
        -bound <= delta <= bound,
        2 * bound <= i128::MAX,
    ensures
        tree_shape(*final(tree), parent, old(tree).len()),
        final(tree).len() == old(tree).len(),
        forall|x: int|
            0 <= x < old(tree).len() ==> (#[trigger] final(tree).values()[x])
                == old(tree).values()[x] + (if parent[x] < old(tree).len() && ancestor(
                parent,
                parent[x] as int,
                v as int,
            ) {
                delta as int
            } else {
                0
            }),
{
    proof {
        lemma_tree_ancestors(*tree, parent, tree.len());
    }
    let ghost before = *tree;
    tree.catepillar_apply(v, delta);
    proof {
        let n = before.len();
        assert forall|x: int| 0 <= x < n implies PathTree::below_path(
            before.parents(),
            x,
            v as int,
        ) == (parent[x] < n && ancestor(parent, parent[x] as int, v as int)) by {
            assert(before.parents()[x] == parent[x]);
        }
    }
}

impl ConsensusGraphInner {
    /// Hangs the newest block into the trees, without its weight.
    pub fn update_lcts_initial(&mut self, me: usize)
        requires
            old(self).located(me as int),
        ensures
            final(self).linked(me as int),
            *final(self) == (ConsensusGraphInner { trees: final(self).trees, ..*old(self) }),
    {
        let ghost start = *self;
        let ghost conf = self.inner_conf;
        let ghost nodes = self.nodes();
        let ghost par = self.parents();
        let ghost k = me as nat;
        proof {
            lemma_node(nodes, me as int);
            reveal(trees_ok);
        }
        let parent: usize = self.arena.get(me).parent;
        proof {
            lemma_weight_bounds(conf, nodes, parent as int);
            lemma_recorded_bounds(conf, nodes, nodes.len(), parent as int);
            lemma_tree_weight_bounds(conf, nodes, k, parent as int);
            let num = conf.adaptive_weight_alpha_num as int;
            let a = weight_of(conf, nodes[parent as int]);
            let b = nodes[parent as int].past_era_weight as int;
            lemma_scaled(conf, nodes, a, num);
            lemma_scaled(conf, nodes, b, num);
            assert(num * (a + b) == num * a + num * b) by (nonlinear_arith);
            let w = subtree_weight(conf, nodes, k, parent as int);
            lemma_scaled(conf, nodes, w, num);
            assert(-w * num == -(num * w)) by (nonlinear_arith);
        }
        let num: i128 = self.inner_conf.adaptive_weight_alpha_num as i128;
        let base_value: i128 = num * (self.block_weight(parent, false) + self.arena.get(
            parent,
        ).past_era_weight);
        let parent_w: i128 = self.trees.weight_tree.get(parent);
        let parent_iw: i128 = self.trees.inclusive_weight_tree.get(parent);
        hang(&mut self.trees.weight_tree, parent, me, 0);
        hang(&mut self.trees.inclusive_weight_tree, parent, me, 0);
        hang(&mut self.trees.stable_weight_tree, parent, me, 0);
        hang(&mut self.trees.stable_tree, parent, me, base_value);
        hang(&mut self.trees.adaptive_tree, parent, me, -parent_w * num);
        hang(&mut self.trees.inclusive_adaptive_tree, parent, me, -parent_iw * num);
        proof {
            assert(par.take(me + 1) =~= par.take(me as int).push(parent));
            lemma_subtree_new(conf, nodes, me as int);
            let t = start.trees;
            let u = self.trees;
            let w = subtree_weight(conf, nodes, k, parent as int);
            let den = conf.adaptive_weight_alpha_den as int;
            let n = conf.adaptive_weight_alpha_num as int;
            assert(den * 0 == 0) by (nonlinear_arith);
            assert((-w) * n == -(n * w)) by (nonlinear_arith);
            assert forall|x: int| 0 <= x < me + 1 implies (#[trigger] u.weight_tree.values()[x])
                == subtree_weight(conf, nodes, k, x) by {
                if x < me {
                    assert(u.weight_tree.values()[x] == t.weight_tree.values()[x]);
                }
            }
            assert forall|x: int|
                0 <= x < me + 1 implies (#[trigger] u.inclusive_weight_tree.values()[x])
                == subtree_weight(conf, nodes, k, x) by {
                if x < me {
                    assert(u.inclusive_weight_tree.values()[x]
                        == t.inclusive_weight_tree.values()[x]);
                }
            }
            assert forall|x: int|
                0 <= x < me + 1 implies (#[trigger] u.stable_weight_tree.values()[x])
                == stable_subtree_weight(conf, nodes, k, x) by {
                if x < me {
                    assert(u.stable_weight_tree.values()[x] == t.stable_weight_tree.values()[x]);
                }
            }
            assert forall|x: int| 0 <= x < me + 1 implies (#[trigger] u.stable_tree.values()[x])
                == stable_value(conf, nodes, k, x) by {
                if x < me {
                    assert(u.stable_tree.values()[x] == t.stable_tree.values()[x]);
                }
            }
            assert forall|x: int| 0 <= x < me + 1 implies (#[trigger] u.adaptive_tree.values()[x])
                == adaptive_value(conf, nodes, k, x) by {
                if x < me {
                    assert(u.adaptive_tree.values()[x] == t.adaptive_tree.values()[x]);
                }
            }
            assert forall|x: int|
                0 <= x < me + 1 implies (#[trigger] u.inclusive_adaptive_tree.values()[x])
                == inclusive_adaptive_value(conf, nodes, k, x) by {
                if x < me {
                    assert(u.inclusive_adaptive_tree.values()[x]
                        == t.inclusive_adaptive_tree.values()[x]);
                }
            }
        }
    }

    /// Counts the weight of the newest block, which is not partially invalid,
    /// in the trees. Returns the weight.
    pub fn update_lcts_finalize(&mut self, me: usize, stable: bool) -> (weight: i128)
        requires
            old(self).arena.wf(),
            links_ok(old(self).nodes()),
            limits_ok(old(self).inner_conf, old(self).nodes()),
            past_weights_ok(old(self).inner_conf, old(self).nodes(), old(self).size()),
            old(self).is_newest(me as int),
            old(self).trees_hold(me as nat + 1, me as nat),
            !old(self).nodes()[me as int].data.partial_invalid,
            old(self).nodes()[me as int].stable == stable,
        ensures
            final(self).trees_hold(me as nat + 1, me as nat + 1),
            *final(self) == (ConsensusGraphInner { trees: final(self).trees, ..*old(self) }),
            weight == weight_of(old(self).inner_conf, old(self).nodes()[me as int]),
            0 <= weight <= weight_limit(),
    {
        let ghost conf = self.inner_conf;
        let ghost nodes = self.nodes();
        let ghost par = self.parents();
        let ghost k = me as nat;
        let ghost limit = weight_limit();
        let ghost t = self.trees;
        proof {
            lemma_node(nodes, me as int);
            lemma_weight_bounds(conf, nodes, me as int);
            assert(t.shaped(par, k + 1)) by {
                reveal(trees_ok);
            }
            assert forall|x: int| 0 <= x < k + 1 implies -3 * limit
                <= #[trigger] t.weight_tree.values()[x] <= 3 * limit by {
                reveal(trees_ok);
                lemma_tree_weight_bounds(conf, nodes, k, x);
            }
            assert forall|x: int| 0 <= x < k + 1 implies -3 * limit
                <= #[trigger] t.inclusive_weight_tree.values()[x] <= 3 * limit by {
                reveal(trees_ok);
                lemma_tree_weight_bounds(conf, nodes, k, x);
            }
            assert forall|x: int| 0 <= x < k + 1 implies -3 * limit
                <= #[trigger] t.stable_weight_tree.values()[x] <= 3 * limit by {
                reveal(trees_ok);
                lemma_tree_weight_bounds(conf, nodes, k, x);
            }
            assert forall|x: int| 0 <= x < k + 1 implies -3 * limit
                <= #[trigger] t.stable_tree.values()[x] <= 3 * limit by {
                reveal(trees_ok);
                lemma_tree_value_bounds(conf, nodes, k + 1, k, x);
            }
            assert forall|x: int| 0 <= x < k + 1 implies -3 * limit
                <= #[trigger] t.adaptive_tree.values()[x] <= 3 * limit by {
                reveal(trees_ok);
                lemma_tree_value_bounds(conf, nodes, k + 1, k, x);
            }
            assert forall|x: int| 0 <= x < k + 1 implies -3 * limit
                <= #[trigger] t.inclusive_adaptive_tree.values()[x] <= 3 * limit by {
                reveal(trees_ok);
                lemma_tree_value_bounds(conf, nodes, k + 1, k, x);
            }
            let w = weight_of(conf, nodes[me as int]);
            lemma_scaled(conf, nodes, w, conf.adaptive_weight_alpha_den as int);
            lemma_scaled(conf, nodes, w, conf.adaptive_weight_alpha_num as int);
            assert(-w * conf.adaptive_weight_alpha_num == -(w * conf.adaptive_weight_alpha_num))
                by (nonlinear_arith);
        }
        let parent: usize = self.arena.get(me).parent;
        let weight: i128 = self.block_weight(me, false);
        let inclusive_weight: i128 = self.block_weight(me, true);
        let den: i128 = self.inner_conf.adaptive_weight_alpha_den as i128;
        let num: i128 = self.inner_conf.adaptive_weight_alpha_num as i128;
        apply_on_path(&mut self.trees.weight_tree, me, weight, Ghost(par), Ghost(3 * limit));
        apply_on_path(
            &mut self.trees.inclusive_weight_tree,
            me,
            inclusive_weight,
            Ghost(par),
            Ghost(3 * limit),
        );
        if stable {
            apply_on_path(
                &mut self.trees.stable_weight_tree,
                me,
                weight,
                Ghost(par),
                Ghost(3 * limit),
            );
        }
        apply_on_path(&mut self.trees.stable_tree, me, den * weight, Ghost(par), Ghost(3 * limit));
        if stable {
            apply_on_path(
                &mut self.trees.adaptive_tree,
                me,
                den * weight,
                Ghost(par),
                Ghost(3 * limit),
            );
        }
        apply_below_path(
            &mut self.trees.adaptive_tree,
            parent,
            -weight * num,
            Ghost(par),
            Ghost(4 * limit),
        );
        apply_on_path(
            &mut self.trees.inclusive_adaptive_tree,
            me,
            den * inclusive_weight,
            Ghost(par),
            Ghost(3 * limit),
        );
        apply_below_path(
            &mut self.trees.inclusive_adaptive_tree,
            parent,
            -inclusive_weight * num,
            Ghost(par),
            Ghost(4 * limit),
        );
        proof {
            lemma_trees_counted(conf, nodes, t, self.trees, me as int);
        }
        weight
    }

    /// A partially invalid block changes nothing in the trees.
    pub proof fn lemma_trees_without(&self, me: int)
        requires
            links_ok(self.nodes()),
            self.is_newest(me),
            self.trees_hold(me as nat + 1, me as nat),
            self.nodes()[me].data.partial_invalid,
        ensures
            self.trees_hold(me as nat + 1, me as nat + 1),
    {
        reveal(trees_ok);
        let conf = self.inner_conf;
        let nodes = self.nodes();
        let k = me as nat;
        assert forall|x: int| 0 <= x < k + 1 implies {
            &&& #[trigger] stable_value(conf, nodes, k + 1, x) == stable_value(conf, nodes, k, x)
            &&& subtree_weight(conf, nodes, k + 1, x) == subtree_weight(conf, nodes, k, x)
            &&& stable_subtree_weight(conf, nodes, k + 1, x) == stable_subtree_weight(
                conf,
                nodes,
                k,
                x,
            )
            &&& adaptive_value(conf, nodes, k + 1, x) == adaptive_value(conf, nodes, k, x)
            &&& inclusive_adaptive_value(conf, nodes, k + 1, x) == inclusive_adaptive_value(
                conf,
                nodes,
                k,
                x,
            )
        } by {
            lemma_subtree_step(conf, nodes, k, x);
            lemma_node(nodes, x);
            if x > 0 {
                lemma_subtree_step(conf, nodes, k, nodes[x].parent as int);
            }
        }
        let t = self.trees;
        assert forall|x: int| 0 <= x < k + 1 implies (#[trigger] t.weight_tree.values()[x])
            == subtree_weight(conf, nodes, k + 1, x) by {
            assert(stable_value(conf, nodes, k + 1, x) == stable_value(conf, nodes, k, x));
        }
        assert forall|x: int|
            0 <= x < k + 1 implies (#[trigger] t.inclusive_weight_tree.values()[x])
            == subtree_weight(conf, nodes, k + 1, x) by {
            assert(stable_value(conf, nodes, k + 1, x) == stable_value(conf, nodes, k, x));
        }
        assert forall|x: int| 0 <= x < k + 1 implies (#[trigger] t.stable_weight_tree.values()[x])
            == stable_subtree_weight(conf, nodes, k + 1, x) by {
            assert(stable_value(conf, nodes, k + 1, x) == stable_value(conf, nodes, k, x));
        }
        assert forall|x: int| 0 <= x < k + 1 implies (#[trigger] t.adaptive_tree.values()[x])
            == adaptive_value(conf, nodes, k + 1, x) by {
            assert(stable_value(conf, nodes, k + 1, x) == stable_value(conf, nodes, k, x));
        }
        assert forall|x: int|
            0 <= x < k + 1 implies (#[trigger] t.inclusive_adaptive_tree.values()[x])
            == inclusive_adaptive_value(conf, nodes, k + 1, x) by {
            assert(stable_value(conf, nodes, k + 1, x) == stable_value(conf, nodes, k, x));
        }
    }
}

/// Every tree was updated along the path to the new block `me`.
spec fn updated_for(
    conf: ConsensusInnerConfig,
    nodes: Seq<ConsensusGraphNode>,
    t: WeightTrees,
    u: WeightTrees,
    me: int,
) -> bool {
    let par = parents_of(nodes);
    let w = weight_of(conf, nodes[me]);
    let den = conf.adaptive_weight_alpha_den as int;
    let num = conf.adaptive_weight_alpha_num as int;
    let p = nodes[me].parent as int;
    let n = me + 1;
    &&& forall|x: int|
        0 <= x < n ==> (#[trigger] u.weight_tree.values()[x]) == t.weight_tree.values()[x]
            + (if ancestor(par, x, me) {
            w
        } else {
            0
        })
    &&& forall|x: int|
        0 <= x < n ==> (#[trigger] u.inclusive_weight_tree.values()[x])
            == t.inclusive_weight_tree.values()[x] + (if ancestor(par, x, me) {
            w
        } else {
            0
        })
    &&& forall|x: int|
        0 <= x < n ==> (#[trigger] u.stable_weight_tree.values()[x])
            == t.stable_weight_tree.values()[x] + (if nodes[me].stable && ancestor(
            par,
            x,
            me,
        ) {
            w
        } else {
            0
        })
    &&& forall|x: int|
        0 <= x < n ==> (#[trigger] u.stable_tree.values()[x]) == t.stable_tree.values()[x]
            + (if ancestor(par, x, me) {
            den * w
        } else {
            0
        })
    &&& forall|x: int|
        0 <= x < n ==> (#[trigger] u.adaptive_tree.values()[x])
            == t.adaptive_tree.values()[x] + (if nodes[me].stable && ancestor(
            par,
            x,
            me,
        ) {
            den * w
        } else {
            0
        }) + (if par[x] < n && ancestor(par, par[x] as int, p) {
            -w * num
        } else {
            0
        })
    &&& forall|x: int|
        0 <= x < n ==> (#[trigger] u.inclusive_adaptive_tree.values()[x])
            == t.inclusive_adaptive_tree.values()[x] + (if ancestor(par, x, me) {
            den * w
        } else {
            0
        }) + (if par[x] < n && ancestor(par, par[x] as int, p) {
            -w * num
        } else {
            0
        })
}

/// The trees hold the right values at `x` with the weight of `me`.
spec fn counted_at(
    conf: ConsensusInnerConfig,
    nodes: Seq<ConsensusGraphNode>,
    t: WeightTrees,
    u: WeightTrees,
    me: int,
    x: int,
) -> bool {
    let k = me as nat + 1;
    &&& u.weight_tree.values()[x] == subtree_weight(conf, nodes, k, x)
    &&& u.inclusive_weight_tree.values()[x] == subtree_weight(conf, nodes, k, x)
    &&& u.stable_weight_tree.values()[x] == stable_subtree_weight(conf, nodes, k, x)
    &&& u.stable_tree.values()[x] == stable_value(conf, nodes, k, x)
    &&& u.adaptive_tree.values()[x] == adaptive_value(conf, nodes, k, x)
    &&& u.inclusive_adaptive_tree.values()[x] == inclusive_adaptive_value(conf, nodes, k, x)
}

proof fn lemma_counted_at(
    conf: ConsensusInnerConfig,
    nodes: Seq<ConsensusGraphNode>,
    t: WeightTrees,
    u: WeightTrees,
    me: int,
    x: int,
)
    requires
        links_ok(nodes),
        0 < me < nodes.len(),
        0 <= x <= me,
        trees_ok(conf, nodes, t, me as nat + 1, me as nat),
        !nodes[me].data.partial_invalid,
        updated_for(conf, nodes, t, u, me),
    ensures
        counted_at(conf, nodes, t, u, me, x),
{
    reveal(trees_ok);
    let par = parents_of(nodes);
    let k = me as nat;
    let w = weight_of(conf, nodes[me]);
    let den = conf.adaptive_weight_alpha_den as int;
    let num = conf.adaptive_weight_alpha_num as int;
    let p = nodes[me].parent as int;
    lemma_node(nodes, me);
    lemma_node(nodes, x);
    assert(tree_weights(conf, nodes)(me) == w);
    lemma_subtree_step(conf, nodes, k, x);
    assert(t.weight_tree.values()[x] == subtree_weight(conf, nodes, k, x));
    assert(t.inclusive_weight_tree.values()[x] == subtree_weight(conf, nodes, k, x));
    assert(t.stable_weight_tree.values()[x] == stable_subtree_weight(conf, nodes, k, x));
    assert(t.stable_tree.values()[x] == stable_value(conf, nodes, k, x));
    assert(t.adaptive_tree.values()[x] == adaptive_value(conf, nodes, k, x));
    assert(t.inclusive_adaptive_tree.values()[x] == inclusive_adaptive_value(conf, nodes, k, x));
    let v = subtree_weight(conf, nodes, k, x);
    let s = stable_subtree_weight(conf, nodes, k, x);
    let t0 = tree_weights(conf, nodes)(0);
    assert(den * (v + w - t0) == den * (v - t0) + den * w && den * (s + w - t0) == den * (s - t0)
        + den * w && den * (v + w) == den * v + den * w && den * (s + w) == den * s + den * w)
        by (nonlinear_arith);
    if x > 0 {
        let q = nodes[x].parent as int;
        assert(par[x] == q);
        lemma_subtree_step(conf, nodes, k, q);
        assert(ancestor(par, q, me) == ancestor(par, q, p)) by {
            assert(par[me] == p);
            assert(q != me);
        }
        let z = subtree_weight(conf, nodes, k, q);
        assert(num * (z + w) == num * z + num * w && -w * num == -(num * w)) by (nonlinear_arith);
    } else {
        assert(par[0] == NULL);
    }
}

/// The trees after the updates of a new block hold its weight.
proof fn lemma_trees_counted(
    conf: ConsensusInnerConfig,
    nodes: Seq<ConsensusGraphNode>,
    t: WeightTrees,
    u: WeightTrees,
    me: int,
)
    requires
        links_ok(nodes),
        0 < me < nodes.len(),
        trees_ok(conf, nodes, t, me as nat + 1, me as nat),
        u.shaped(parents_of(nodes), me as nat + 1),
        !nodes[me].data.partial_invalid,
        updated_for(conf, nodes, t, u, me),
    ensures
        trees_ok(conf, nodes, u, me as nat + 1, me as nat + 1),
{
    reveal(trees_ok);
    let k = me as nat;
    let n = me + 1;
    assert forall|x: int| 0 <= x < n implies #[trigger] counted_at(conf, nodes, t, u, me, x) by {
        lemma_counted_at(conf, nodes, t, u, me, x);
    }
    assert forall|x: int| 0 <= x < n implies (#[trigger] u.weight_tree.values()[x])
        == subtree_weight(conf, nodes, k + 1, x) by {
        assert(counted_at(conf, nodes, t, u, me, x));
    }
    assert forall|x: int| 0 <= x < n implies (#[trigger] u.inclusive_weight_tree.values()[x])
        == subtree_weight(conf, nodes, k + 1, x) by {
        assert(counted_at(conf, nodes, t, u, me, x));
    }
    assert forall|x: int| 0 <= x < n implies (#[trigger] u.stable_weight_tree.values()[x])
        == stable_subtree_weight(conf, nodes, k + 1, x) by {
        assert(counted_at(conf, nodes, t, u, me, x));
    }
    assert forall|x: int| 0 <= x < n implies (#[trigger] u.stable_tree.values()[x])
        == stable_value(conf, nodes, k + 1, x) by {
        assert(counted_at(conf, nodes, t, u, me, x));
    }
    assert forall|x: int| 0 <= x < n implies (#[trigger] u.adaptive_tree.values()[x])
        == adaptive_value(conf, nodes, k + 1, x) by {
        assert(counted_at(conf, nodes, t, u, me, x));
    }
    assert forall|x: int| 0 <= x < n implies (#[trigger] u.inclusive_adaptive_tree.values()[x])
        == inclusive_adaptive_value(conf, nodes, k + 1, x) by {
        assert(counted_at(conf, nodes, t, u, me, x));
    }
}

} // verus!
