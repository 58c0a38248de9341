//! The trees as a block sees them: without the subtrees below its barrier.

use vstd::prelude::*;
use crate::anticone::{anticone_of, barrier_of};
use crate::arena::{dag_of, ConsensusGraphNode};
use crate::barrier::{amount, amount_below, antichain, fits, outside, shift_below, shift_paths,
    stable_weights, sum_below};
#[allow(unused_imports)]
use crate::barrier::{lemma_amount_above, lemma_amount_bounds, lemma_amount_within, lemma_removed,
    lemma_weights_are_sums};
use crate::bits::BlockSet;
use crate::config::ConsensusInnerConfig;
use crate::dag::ancestor;
#[allow(unused_imports)]
use crate::dag::{lemma_all_reach_root, lemma_ancestor_is_reached, lemma_reaches_earlier,
    lemma_reaches_transitive};
use crate::model::{adaptive_value, inclusive_adaptive_value, limits_ok, links_ok, parents_of,
    past_weights_ok, scale, stable_subtree_weight, stable_value, subtree_weight, total_cap,
    tree_weights, trees_ok, weight_cap, weight_limit, weight_of, WeightTrees};
use crate::state::ConsensusGraphInner;
#[allow(unused_imports)]
use crate::state::{lemma_node, lemma_weight_bounds};
use crate::sums::{masked, sum_to};
#[allow(unused_imports)]
use crate::sums::lemma_sum_congruent;
#[allow(unused_imports)]
use crate::trees::{lemma_scaled, lemma_tree_value_bounds, lemma_tree_weight_bounds};

verus! {

/// `y` is in no subtree of a block of the barrier.
pub open spec fn not_below(par: Seq<usize>, barrier: Set<int>, y: int) -> bool {
    forall|b: int| #[trigger] barrier.contains(b) ==> !ancestor(par, b, y)
}

/// A set of blocks whose subtrees can be taken out: none of them is the root
/// or lies below another.
pub open spec fn is_barrier(par: Seq<usize>, barrier: Set<int>, n: nat) -> bool {
    &&& forall|b: int| #[trigger] barrier.contains(b) ==> 0 < b < n
    &&& forall|a: int, b: int| #[trigger]
        barrier.contains(a) && #[trigger] barrier.contains(b) && a != b ==> !ancestor(par, a, b)
}

/// The sum of `f` over the blocks in the subtree of `x` that are not below the
/// barrier.
pub open spec fn seen_sum(
    par: Seq<usize>,
    barrier: Set<int>,
    f: spec_fn(int) -> int,
    k: nat,
    x: int,
) -> int {
    sum_to(masked(|y: int| ancestor(par, x, y) && not_below(par, barrier, y), f), k)
}

/// The weight of the subtree of `x` without the barrier.
pub open spec fn seen_weight(
    conf: ConsensusInnerConfig,
    nodes: Seq<ConsensusGraphNode>,
    barrier: Set<int>,
    k: nat,
    x: int,
) -> int {
    seen_sum(parents_of(nodes), barrier, tree_weights(conf, nodes), k, x)
}

/// The same for the stable blocks.
pub open spec fn seen_stable_weight(
    conf: ConsensusInnerConfig,
    nodes: Seq<ConsensusGraphNode>,
    barrier: Set<int>,
    k: nat,
    x: int,
) -> int {
    seen_sum(parents_of(nodes), barrier, stable_weights(conf, nodes), k, x)
}

/// The value of the stable tree without the barrier.
pub open spec fn seen_stable_value(
    conf: ConsensusInnerConfig,
    nodes: Seq<ConsensusGraphNode>,
    barrier: Set<int>,
    k: nat,
    x: int,
) -> int {
    let w = seen_weight(conf, nodes, barrier, k, x);
    if x == 0 {
        conf.adaptive_weight_alpha_den * (w - tree_weights(conf, nodes)(0))
    } else {
        let p = nodes[x].parent as int;
        conf.adaptive_weight_alpha_den * w + conf.adaptive_weight_alpha_num * (weight_of(
            conf,
            nodes[p],
        ) + nodes[p].past_era_weight)
    }
}

/// The value of the adaptive tree without the barrier.
pub open spec fn seen_adaptive_value(
    conf: ConsensusInnerConfig,
    nodes: Seq<ConsensusGraphNode>,
    barrier: Set<int>,
    k: nat,
    x: int,
) -> int {
    let s = seen_stable_weight(conf, nodes, barrier, k, x);
    if x == 0 {
        conf.adaptive_weight_alpha_den * (s - tree_weights(conf, nodes)(0))
    } else {
        conf.adaptive_weight_alpha_den * s - conf.adaptive_weight_alpha_num * seen_weight(
            conf,
            nodes,
            barrier,
            k,
            nodes[x].parent as int,
        )
    }
}

/// The value of the inclusive adaptive tree without the barrier.
pub open spec fn seen_inclusive_value(
    conf: ConsensusInnerConfig,
    nodes: Seq<ConsensusGraphNode>,
    barrier: Set<int>,
    k: nat,
    x: int,
) -> int {
    let w = seen_weight(conf, nodes, barrier, k, x);
    if x == 0 {
        conf.adaptive_weight_alpha_den * (w - tree_weights(conf, nodes)(0))
    } else {
        conf.adaptive_weight_alpha_den * w - conf.adaptive_weight_alpha_num * seen_weight(
            conf,
            nodes,
            barrier,
            k,
            nodes[x].parent as int,
        )
    }
}

/// The blocks of a barrier with their parents and their weights in the trees.
pub struct BarrierWeights {
    pub items: Vec<usize>,
    pub above: Vec<usize>,
    pub weight: Vec<i128>,
    pub inclusive: Vec<i128>,
    pub stable: Vec<i128>,
}

/// What the record says is what the trees hold.
pub open spec fn measured(
    b: BarrierWeights,
    conf: ConsensusInnerConfig,
    nodes: Seq<ConsensusGraphNode>,
    barrier: Set<int>,
    n: nat,
    k: nat,
) -> bool {
    let par = parents_of(nodes);
    &&& b.above@.len() == b.items@.len()
    &&& b.weight@.len() == b.items@.len()
    &&& b.inclusive@.len() == b.items@.len()
    &&& b.stable@.len() == b.items@.len()
    &&& forall|j: int|
        0 <= j < b.items@.len() ==> {
            &&& 0 < (#[trigger] b.items@[j]) < n
            &&& barrier.contains(b.items@[j] as int)
            &&& b.above@[j] == par[b.items@[j] as int]
        }
    &&& forall|x: int| #[trigger] barrier.contains(x) ==> b.items@.contains(x as usize)
    &&& antichain(par, b.items@)
    &&& forall|j: int|
        0 <= j < b.items@.len() ==> #[trigger] b.weight@[j] == sum_below(
            par,
            tree_weights(conf, nodes),
            k,
            b.items@[j] as int,
        )
    &&& forall|j: int|
        0 <= j < b.items@.len() ==> #[trigger] b.inclusive@[j] == sum_below(
            par,
            tree_weights(conf, nodes),
            k,
            b.items@[j] as int,
        )
    &&& forall|j: int|
        0 <= j < b.items@.len() ==> #[trigger] b.stable@[j] == sum_below(
            par,
            stable_weights(conf, nodes),
            k,
            b.items@[j] as int,
        )
}

/// The trees `u` are the trees `t` with the recorded weights counted `sign`
/// times more.
pub open spec fn shifted(
    t: WeightTrees,
    u: WeightTrees,
    b: BarrierWeights,
    conf: ConsensusInnerConfig,
    par: Seq<usize>,
    n: nat,
    sign: int,
) -> bool {
    let den = conf.adaptive_weight_alpha_den as int;
    let num = conf.adaptive_weight_alpha_num as int;
    let len = b.items@.len();
    &&& u.shaped(par, n)
    &&& u.stable_weight_tree == t.stable_weight_tree
    &&& forall|x: int|
        0 <= x < n ==> (#[trigger] u.inclusive_weight_tree.values()[x])
            == t.inclusive_weight_tree.values()[x] + sign * amount_below(
            par,
            b.items@,
            b.inclusive@,
            len,
            x,
        )
    &&& forall|x: int|
        0 <= x < n ==> (#[trigger] u.weight_tree.values()[x]) == t.weight_tree.values()[x] + sign
            * amount_below(par, b.items@, b.weight@, len, x)
    &&& forall|x: int|
        0 <= x < n ==> (#[trigger] u.stable_tree.values()[x]) == t.stable_tree.values()[x] + (sign
            * den) * amount_below(par, b.items@, b.weight@, len, x)
    &&& forall|x: int|
        0 <= x < n ==> (#[trigger] u.adaptive_tree.values()[x]) == t.adaptive_tree.values()[x] + (
        if par[x] < n {
            (-sign * num) * amount_below(par, b.above@, b.weight@, len, par[x] as int)
        } else {
            0
        }) + (sign * den) * amount_below(par, b.items@, b.stable@, len, x)
    &&& forall|x: int|
        0 <= x < n ==> (#[trigger] u.inclusive_adaptive_tree.values()[x])
            == t.inclusive_adaptive_tree.values()[x] + (if par[x] < n {
            (-sign * num) * amount_below(par, b.above@, b.inclusive@, len, par[x] as int)
        } else {
            0
        }) + (sign * den) * amount_below(par, b.items@, b.inclusive@, len, x)
}

/// All values of the trees that change stay within the bound.
pub open spec fn bounded(t: WeightTrees, n: nat, bound: int) -> bool {
    &&& forall|x: int| 0 <= x < n ==> -bound <= #[trigger] t.weight_tree.values()[x] <= bound
    &&& forall|x: int|
        0 <= x < n ==> -bound <= #[trigger] t.inclusive_weight_tree.values()[x] <= bound
    &&& forall|x: int| 0 <= x < n ==> -bound <= #[trigger] t.stable_tree.values()[x] <= bound
    &&& forall|x: int| 0 <= x < n ==> -bound <= #[trigger] t.adaptive_tree.values()[x] <= bound
    &&& forall|x: int|
        0 <= x < n ==> -bound <= #[trigger] t.inclusive_adaptive_tree.values()[x] <= bound
}

/// Two sets of trees that hold the same values.
pub open spec fn same_trees(t: WeightTrees, u: WeightTrees) -> bool {
    &&& t.weight_tree.parents() == u.weight_tree.parents()
    &&& t.weight_tree.values() == u.weight_tree.values()
    &&& t.inclusive_weight_tree.parents() == u.inclusive_weight_tree.parents()
    &&& t.inclusive_weight_tree.values() == u.inclusive_weight_tree.values()
    &&& t.stable_weight_tree == u.stable_weight_tree
    &&& t.stable_tree.parents() == u.stable_tree.parents()
    &&& t.stable_tree.values() == u.stable_tree.values()
    &&& t.adaptive_tree.parents() == u.adaptive_tree.parents()
    &&& t.adaptive_tree.values() == u.adaptive_tree.values()
    &&& t.inclusive_adaptive_tree.parents() == u.inclusive_adaptive_tree.parents()
    &&& t.inclusive_adaptive_tree.values() == u.inclusive_adaptive_tree.values()
}

/// Taking weights out and putting them back changes nothing.
pub proof fn lemma_shift_undone(
    t: WeightTrees,
    u: WeightTrees,
    v: WeightTrees,
    b: BarrierWeights,
    conf: ConsensusInnerConfig,
    par: Seq<usize>,
    n: nat,
)
    requires
        t.shaped(par, n),
        shifted(t, u, b, conf, par, n, -1),
        shifted(u, v, b, conf, par, n, 1),
    ensures
        same_trees(t, v),
{
    let den = conf.adaptive_weight_alpha_den as int;
    let num = conf.adaptive_weight_alpha_num as int;
    let len = b.items@.len();
    assert forall|x: int| 0 <= x < n implies t.weight_tree.values()[x]
        == v.weight_tree.values()[x] by {
        assert(v.weight_tree.values()[x] == u.weight_tree.values()[x] + 1 * amount_below(
            par,
            b.items@,
            b.weight@,
            len,
            x,
        ));
    }
    assert(t.weight_tree.values() =~= v.weight_tree.values());
    assert forall|x: int| 0 <= x < n implies t.inclusive_weight_tree.values()[x]
        == v.inclusive_weight_tree.values()[x] by {
        assert(v.inclusive_weight_tree.values()[x] == u.inclusive_weight_tree.values()[x] + 1
            * amount_below(par, b.items@, b.inclusive@, len, x));
    }
    assert(t.inclusive_weight_tree.values() =~= v.inclusive_weight_tree.values());
    assert forall|x: int| 0 <= x < n implies t.stable_tree.values()[x]
        == v.stable_tree.values()[x] by {
        let c = amount_below(par, b.items@, b.weight@, len, x);
        assert(u.stable_tree.values()[x] == t.stable_tree.values()[x] + (-1 * den) * c);
        assert(v.stable_tree.values()[x] == u.stable_tree.values()[x] + (1 * den) * c);
        assert((-1 * den) * c + (1 * den) * c == 0) by (nonlinear_arith);
    }
    assert(t.stable_tree.values() =~= v.stable_tree.values());
    assert forall|x: int| 0 <= x < n implies t.adaptive_tree.values()[x]
        == v.adaptive_tree.values()[x] by {
        let c = amount_below(par, b.items@, b.stable@, len, x);
        let e = amount_below(par, b.above@, b.weight@, len, par[x] as int);
        assert(u.adaptive_tree.values()[x] == t.adaptive_tree.values()[x] + (if par[x] < n {
            (-(-1) * num) * e
        } else {
            0
        }) + (-1 * den) * c);
        assert(v.adaptive_tree.values()[x] == u.adaptive_tree.values()[x] + (if par[x] < n {
            (-1 * num) * e
        } else {
            0
        }) + (1 * den) * c);
        assert((-1 * den) * c + (1 * den) * c == 0 && (-(-1) * num) * e + (-1 * num) * e == 0)
            by (nonlinear_arith);
    }
    assert(t.adaptive_tree.values() =~= v.adaptive_tree.values());
    assert forall|x: int| 0 <= x < n implies t.inclusive_adaptive_tree.values()[x]
        == v.inclusive_adaptive_tree.values()[x] by {
        let c = amount_below(par, b.items@, b.inclusive@, len, x);
        let e = amount_below(par, b.above@, b.inclusive@, len, par[x] as int);
        assert(u.inclusive_adaptive_tree.values()[x] == t.inclusive_adaptive_tree.values()[x] + (
        if par[x] < n {
            (-(-1) * num) * e
        } else {
            0
        }) + (-1 * den) * c);
        assert(v.inclusive_adaptive_tree.values()[x] == u.inclusive_adaptive_tree.values()[x] + (
        if par[x] < n {
            (-1 * num) * e
        } else {
            0
        }) + (1 * den) * c);
        assert((-1 * den) * c + (1 * den) * c == 0 && (-(-1) * num) * e + (-1 * num) * e == 0)
            by (nonlinear_arith);
    }
    assert(t.inclusive_adaptive_tree.values() =~= v.inclusive_adaptive_tree.values());
}

/// Trees that hold the same values are as right as each other.
pub proof fn lemma_same_trees_ok(
    conf: ConsensusInnerConfig,
    nodes: Seq<ConsensusGraphNode>,
    t: WeightTrees,
    u: WeightTrees,
    n: nat,
    k: nat,
)
    requires
        trees_ok(conf, nodes, t, n, k),
        same_trees(t, u),
        u.shaped(parents_of(nodes), n),
    ensures
        trees_ok(conf, nodes, u, n, k),
{
    reveal(trees_ok);
}

/// The amounts of a measured barrier, scaled by a factor of the configuration,
/// stay within the limit.
pub proof fn lemma_measured_fits(
    b: BarrierWeights,
    conf: ConsensusInnerConfig,
    nodes: Seq<ConsensusGraphNode>,
    barrier: Set<int>,
    n: nat,
    k: nat,
    factor: int,
)
    requires
        measured(b, conf, nodes, barrier, n, k),
        limits_ok(conf, nodes),
        k <= nodes.len(),
        -scale(conf) <= factor <= scale(conf),
    ensures
        fits(b.weight@, factor, weight_limit()),
        fits(b.inclusive@, factor, weight_limit()),
        fits(b.stable@, factor, weight_limit()),
        forall|j: int| 0 <= j < b.weight@.len() ==> 0 <= #[trigger] b.weight@[j],
        forall|j: int| 0 <= j < b.inclusive@.len() ==> 0 <= #[trigger] b.inclusive@[j],
        forall|j: int| 0 <= j < b.stable@.len() ==> 0 <= #[trigger] b.stable@[j],
        amount(b.weight@, b.weight@.len()) <= total_cap(conf, nodes),
        amount(b.inclusive@, b.inclusive@.len()) <= total_cap(conf, nodes),
        amount(b.stable@, b.stable@.len()) <= total_cap(conf, nodes),
{
    let f = tree_weights(conf, nodes);
    let g = stable_weights(conf, nodes);
    assert forall|i: int| 0 <= i < nodes.len() implies 0 <= #[trigger] f(i) <= weight_cap(conf)(
        nodes[i],
    ) by {
        lemma_weight_bounds(conf, nodes, i);
    }
    assert forall|i: int| 0 <= i < nodes.len() implies 0 <= #[trigger] g(i) <= weight_cap(conf)(
        nodes[i],
    ) by {
        lemma_weight_bounds(conf, nodes, i);
        assert(0 <= f(i));
    }
    lemma_amount_within(conf, nodes, b.items@, b.weight@, f, k);
    lemma_amount_within(conf, nodes, b.items@, b.inclusive@, f, k);
    lemma_amount_within(conf, nodes, b.items@, b.stable@, g, k);
    assert forall|c: int| 0 <= c <= total_cap(conf, nodes) implies -weight_limit()
        <= #[trigger] (factor * c) <= weight_limit() by {
        if factor >= 0 {
            lemma_scaled(conf, nodes, c, factor);
        } else {
            lemma_scaled(conf, nodes, c, -factor);
            assert(factor * c == -((-factor) * c)) by (nonlinear_arith);
        }
    }
}

impl ConsensusGraphInner {
    /// Reads the weights of the blocks of the barrier.
    pub fn measure_barrier(
        &self,
        anticone_barrier: &BlockSet,
        Ghost(k): Ghost<nat>,
    ) -> (b: BarrierWeights)
        requires
            self.arena.wf(),
            links_ok(self.nodes()),
            self.trees_hold(self.size(), k),
            anticone_barrier.wf(),
            is_barrier(self.parents(), anticone_barrier@, self.size()),
        ensures
            measured(b, self.inner_conf, self.nodes(), anticone_barrier@, self.size(), k),
    {
        let ghost conf = self.inner_conf;
        let ghost nodes = self.nodes();
        let ghost par = self.parents();
        let ghost n = nodes.len();
        let ghost barrier = anticone_barrier@;
        let items: Vec<usize> = anticone_barrier.to_vec();
        let mut above: Vec<usize> = Vec::new();
        let mut weight: Vec<i128> = Vec::new();
        let mut inclusive: Vec<i128> = Vec::new();
        let mut stable: Vec<i128> = Vec::new();
        let mut j: usize = 0;
        proof {
            assert forall|i: int| 0 <= i < items@.len() implies 0 < (#[trigger] items@[i]) < n
                && barrier.contains(items@[i] as int) by {
                assert(barrier.contains(items@[i] as int));
            }
        }
        while j < items.len()
            invariant
                self.arena.wf(),
                links_ok(nodes),
                nodes == self.nodes(),
                conf == self.inner_conf,
                par == self.parents(),
                n == nodes.len(),
                self.trees_hold(n, k),
                j <= items@.len(),
                forall|i: int|
                    0 <= i < items@.len() ==> 0 < (#[trigger] items@[i]) < n && barrier.contains(
                        items@[i] as int,
                    ),
                above@.len() == j,
                weight@.len() == j,
                inclusive@.len() == j,
                stable@.len() == j,
                forall|i: int| 0 <= i < j ==> #[trigger] above@[i] == par[items@[i] as int],
                forall|i: int|
                    0 <= i < j ==> #[trigger] weight@[i] == sum_below(
                        par,
                        tree_weights(conf, nodes),
                        k,
                        items@[i] as int,
                    ),
                forall|i: int|
                    0 <= i < j ==> #[trigger] inclusive@[i] == sum_below(
                        par,
                        tree_weights(conf, nodes),
                        k,
                        items@[i] as int,
                    ),
                forall|i: int|
                    0 <= i < j ==> #[trigger] stable@[i] == sum_below(
                        par,
                        stable_weights(conf, nodes),
                        k,
                        items@[i] as int,
                    ),
            decreases items@.len() - j,
        {
            let index: usize = items[j];
            proof {
                assert(items@[j as int] < n);
                lemma_node(nodes, index as int);
                reveal(trees_ok);
                lemma_weights_are_sums(conf, nodes, k, index as int);
            }
            above.push(self.arena.get(index).parent);
            weight.push(self.trees.weight_tree.get(index));
            inclusive.push(self.trees.inclusive_weight_tree.get(index));
            stable.push(self.trees.stable_weight_tree.get(index));
            j = j + 1;
        }
        proof {
            assert forall|a: int, c: int|
                0 <= a < items@.len() && 0 <= c < items@.len() && a != c implies
                !#[trigger] ancestor(par, items@[a] as int, items@[c] as int) by {
                assert(items@[a] != items@[c]);
                assert(barrier.contains(items@[a] as int) && barrier.contains(items@[c] as int));
            }
            assert forall|x: int| #[trigger] barrier.contains(x) implies items@.contains(
                x as usize,
            ) by {}
            let b = BarrierWeights { items, above, weight, inclusive, stable };
            assert forall|i: int| 0 <= i < b.items@.len() implies {
                &&& 0 < (#[trigger] b.items@[i]) < n
                &&& barrier.contains(b.items@[i] as int)
                &&& b.above@[i] == par[b.items@[i] as int]
            } by {
                assert(above@[i] == par[items@[i] as int]);
            }
        }
        BarrierWeights { items, above, weight, inclusive, stable }
    }

    /// Counts the recorded weights `sign` times more in the trees.
    pub fn shift_barrier(
        &mut self,
        b: &BarrierWeights,
        sign: i128,
        Ghost(barrier): Ghost<Set<int>>,
        Ghost(k): Ghost<nat>,
        Ghost(bound): Ghost<int>,
    )
        requires
            sign == 1 || sign == -1,
            links_ok(old(self).nodes()),
            limits_ok(old(self).inner_conf, old(self).nodes()),
            k <= old(self).size(),
            measured(
                *b,
                old(self).inner_conf,
                old(self).nodes(),
                barrier,
                old(self).size(),
                k,
            ),
            old(self).trees.shaped(old(self).parents(), old(self).size()),
            bounded(old(self).trees, old(self).size(), bound),
            weight_limit() <= bound <= 6 * weight_limit(),
        ensures
            *final(self) == (ConsensusGraphInner { trees: final(self).trees, ..*old(self) }),
            shifted(
                old(self).trees,
                final(self).trees,
                *b,
                old(self).inner_conf,
                old(self).parents(),
                old(self).size(),
                sign as int,
            ),
            bounded(final(self).trees, old(self).size(), bound + 2 * weight_limit()),
    {
        let ghost conf = self.inner_conf;
        let ghost nodes = self.nodes();
        let ghost par = self.parents();
        let ghost n = nodes.len();
        let ghost limit = weight_limit();
        let ghost t = self.trees;
        let den: i128 = self.inner_conf.adaptive_weight_alpha_den as i128;
        let num: i128 = self.inner_conf.adaptive_weight_alpha_num as i128;
        proof {
            let s = sign as int;
            assert(-scale(conf) <= s * den <= scale(conf) && -scale(conf) <= -s * num <= scale(
                conf,
            ) && -0xffff_ffff_ffff_ffff <= s * den <= 0xffff_ffff_ffff_ffff
                && -0xffff_ffff_ffff_ffff <= -s * num <= 0xffff_ffff_ffff_ffff)
                by (nonlinear_arith)
                requires
                    s == 1 || s == -1,
                    0 <= den <= 0xffff_ffff_ffff_ffff,
                    0 <= num <= 0xffff_ffff_ffff_ffff,
                    scale(conf) >= 1 + den + num,
            ;
            lemma_measured_fits(*b, conf, nodes, barrier, n, k, s);
            lemma_measured_fits(*b, conf, nodes, barrier, n, k, s * den);
            lemma_measured_fits(*b, conf, nodes, barrier, n, k, -s * num);
            assert forall|j: int| 0 <= j < b.above@.len() implies (#[trigger] b.above@[j]) < n by {
                assert(0 < b.items@[j] < n);
                lemma_node(nodes, b.items@[j] as int);
            }
            assert forall|j: int| 0 <= j < b.items@.len() implies (#[trigger] b.items@[j])
                < n by {}
            lemma_fits_more(b.weight@, s, limit, bound);
            lemma_fits_more(b.inclusive@, s, limit, bound);
            lemma_fits_more(b.weight@, s * den, limit, bound);
            lemma_fits_more(b.weight@, -s * num, limit, bound);
            lemma_fits_more(b.inclusive@, -s * num, limit, bound);
            lemma_fits_more(b.inclusive@, s * den, limit, bound + limit);
            lemma_fits_more(b.stable@, s * den, limit, bound + limit);
        }
        shift_paths(
            &mut self.trees.weight_tree,
            &b.items,
            &b.weight,
            sign,
            Ghost(par),
            Ghost(bound),
        );
        shift_paths(
            &mut self.trees.inclusive_weight_tree,
            &b.items,
            &b.inclusive,
            sign,
            Ghost(par),
            Ghost(bound),
        );
        shift_paths(
            &mut self.trees.stable_tree,
            &b.items,
            &b.weight,
            sign * den,
            Ghost(par),
            Ghost(bound),
        );
        shift_below(
            &mut self.trees.adaptive_tree,
            &b.above,
            &b.weight,
            -sign * num,
            Ghost(par),
            Ghost(bound),
        );
        shift_below(
            &mut self.trees.inclusive_adaptive_tree,
            &b.above,
            &b.inclusive,
            -sign * num,
            Ghost(par),
            Ghost(bound),
        );
        proof {
            let s = sign as int;
            assert forall|x: int| 0 <= x < n implies -(bound + limit)
                <= #[trigger] self.trees.adaptive_tree.values()[x] <= bound + limit by {
                lemma_amount_bounds(par, b.above@, b.weight@, b.weight@.len(), par[x] as int);
                let c = amount_below(par, b.above@, b.weight@, b.above@.len(), par[x] as int);
                assert(-limit <= (-s * num) * c <= limit);
                assert(-bound <= t.adaptive_tree.values()[x] <= bound);
            }
            assert forall|x: int| 0 <= x < n implies -(bound + limit)
                <= #[trigger] self.trees.inclusive_adaptive_tree.values()[x] <= bound + limit by {
                lemma_amount_bounds(par, b.above@, b.inclusive@, b.inclusive@.len(), par[x] as int);
                let c = amount_below(par, b.above@, b.inclusive@, b.above@.len(), par[x] as int);
                assert(-limit <= (-s * num) * c <= limit);
                assert(-bound <= t.inclusive_adaptive_tree.values()[x] <= bound);
            }
        }
        let ghost half = self.trees;
        shift_paths(
            &mut self.trees.inclusive_adaptive_tree,
            &b.items,
            &b.inclusive,
            sign * den,
            Ghost(par),
            Ghost(bound + limit),
        );
        shift_paths(
            &mut self.trees.adaptive_tree,
            &b.items,
            &b.stable,
            sign * den,
            Ghost(par),
            Ghost(bound + limit),
        );
        proof {
            let s = sign as int;
            let u = self.trees;
            let len = b.items@.len();
            assert forall|x: int| 0 <= x < n implies -(bound + 2 * limit)
                <= #[trigger] u.weight_tree.values()[x] <= bound + 2 * limit by {
                lemma_amount_bounds(par, b.items@, b.weight@, len, x);
                assert(-limit <= s * amount_below(par, b.items@, b.weight@, len, x) <= limit);
                assert(-bound <= t.weight_tree.values()[x] <= bound);
            }
            assert forall|x: int| 0 <= x < n implies -(bound + 2 * limit)
                <= #[trigger] u.inclusive_weight_tree.values()[x] <= bound + 2 * limit by {
                lemma_amount_bounds(par, b.items@, b.inclusive@, len, x);
                assert(-limit <= s * amount_below(par, b.items@, b.inclusive@, len, x) <= limit);
                assert(-bound <= t.inclusive_weight_tree.values()[x] <= bound);
            }
            assert forall|x: int| 0 <= x < n implies -(bound + 2 * limit)
                <= #[trigger] u.stable_tree.values()[x] <= bound + 2 * limit by {
                lemma_amount_bounds(par, b.items@, b.weight@, len, x);
                assert(-limit <= (s * den) * amount_below(par, b.items@, b.weight@, len, x)
                    <= limit);
                assert(-bound <= t.stable_tree.values()[x] <= bound);
            }
            assert forall|x: int| 0 <= x < n implies -(bound + 2 * limit)
                <= #[trigger] u.adaptive_tree.values()[x] <= bound + 2 * limit by {
                lemma_amount_bounds(par, b.items@, b.stable@, len, x);
                assert(-limit <= (s * den) * amount_below(par, b.items@, b.stable@, len, x)
                    <= limit);
                assert(-(bound + limit) <= half.adaptive_tree.values()[x] <= bound + limit);
            }
            assert forall|x: int| 0 <= x < n implies -(bound + 2 * limit)
                <= #[trigger] u.inclusive_adaptive_tree.values()[x] <= bound + 2 * limit by {
                lemma_amount_bounds(par, b.items@, b.inclusive@, len, x);
                assert(-limit <= (s * den) * amount_below(par, b.items@, b.inclusive@, len, x)
                    <= limit);
                assert(-(bound + limit) <= half.inclusive_adaptive_tree.values()[x] <= bound
                    + limit);
            }
        }
    }
}

/// What fits a bound fits a larger one.
proof fn lemma_fits_more(d: Seq<i128>, factor: int, a: int, b: int)
    requires
        fits(d, factor, a),
        a <= b,
    ensures
        fits(d, factor, b),
{
    assert forall|c: int| 0 <= c <= amount(d, d.len()) implies -b <= #[trigger] (factor * c)
        <= b by {
        assert(-a <= factor * c <= a);
    }
}

/// Values that the graph computes start within three times the limit.
pub proof fn lemma_trees_bounded(
    conf: ConsensusInnerConfig,
    nodes: Seq<ConsensusGraphNode>,
    t: WeightTrees,
    n: nat,
    k: nat,
)
    requires
        links_ok(nodes),
        limits_ok(conf, nodes),
        past_weights_ok(conf, nodes, nodes.len()),
        trees_ok(conf, nodes, t, n, k),
        k <= nodes.len(),
        n <= nodes.len(),
    ensures
        bounded(t, n, 3 * weight_limit()),
        t.shaped(parents_of(nodes), n),
{
    reveal(trees_ok);
    let limit = weight_limit();
    assert forall|x: int| 0 <= x < n implies -3 * limit <= #[trigger] t.weight_tree.values()[x]
        <= 3 * limit by {
        lemma_tree_weight_bounds(conf, nodes, k, x);
    }
    assert forall|x: int| 0 <= x < n implies -3 * limit
        <= #[trigger] t.inclusive_weight_tree.values()[x] <= 3 * limit by {
        lemma_tree_weight_bounds(conf, nodes, k, x);
    }
    assert forall|x: int| 0 <= x < n implies -3 * limit <= #[trigger] t.stable_tree.values()[x]
        <= 3 * limit by {
        lemma_tree_value_bounds(conf, nodes, n, k, x);
    }
    assert forall|x: int| 0 <= x < n implies -3 * limit <= #[trigger] t.adaptive_tree.values()[x]
        <= 3 * limit by {
        lemma_tree_value_bounds(conf, nodes, n, k, x);
    }
    assert forall|x: int| 0 <= x < n implies -3 * limit
        <= #[trigger] t.inclusive_adaptive_tree.values()[x] <= 3 * limit by {
        lemma_tree_value_bounds(conf, nodes, n, k, x);
    }
}

/// The listed blocks are the barrier.
proof fn lemma_outside_is_not_below(
    b: BarrierWeights,
    conf: ConsensusInnerConfig,
    nodes: Seq<ConsensusGraphNode>,
    barrier: Set<int>,
    n: nat,
    k: nat,
    y: int,
)
    requires
        measured(b, conf, nodes, barrier, n, k),
        is_barrier(parents_of(nodes), barrier, n),
        n <= usize::MAX,
    ensures
        outside(parents_of(nodes), b.items@, y) == not_below(parents_of(nodes), barrier, y),
{
    let par = parents_of(nodes);
    if outside(par, b.items@, y) {
        assert forall|x: int| #[trigger] barrier.contains(x) implies !ancestor(par, x, y) by {
            let j = b.items@.index_of(x as usize);
            assert(b.items@[j] == x);
            assert(!ancestor(par, b.items@[j] as int, y));
        }
    }
    if not_below(par, barrier, y) {
        assert forall|j: int| 0 <= j < b.items@.len() implies !#[trigger] ancestor(
            par,
            b.items@[j] as int,
            y,
        ) by {
            assert(barrier.contains(b.items@[j] as int));
        }
    }
}

/// With the barrier taken out, the trees hold at every block that is not below
/// it what is seen without it.
pub proof fn lemma_taken_out(
    b: BarrierWeights,
    conf: ConsensusInnerConfig,
    nodes: Seq<ConsensusGraphNode>,
    barrier: Set<int>,
    t: WeightTrees,
    u: WeightTrees,
    n: nat,
    k: nat,
    x: int,
)
    requires
        links_ok(nodes),
        n == nodes.len(),
        trees_ok(conf, nodes, t, n, k),
        measured(b, conf, nodes, barrier, n, k),
        is_barrier(parents_of(nodes), barrier, n),
        shifted(t, u, b, conf, parents_of(nodes), n, -1),
        0 <= x < n,
        not_below(parents_of(nodes), barrier, x),
    ensures
        u.weight_tree.values()[x] == seen_weight(conf, nodes, barrier, k, x),
        u.inclusive_weight_tree.values()[x] == seen_weight(conf, nodes, barrier, k, x),
        u.stable_tree.values()[x] == seen_stable_value(conf, nodes, barrier, k, x),
        u.adaptive_tree.values()[x] == seen_adaptive_value(conf, nodes, barrier, k, x),
        u.inclusive_adaptive_tree.values()[x] == seen_inclusive_value(conf, nodes, barrier, k, x),
{
    let par = parents_of(nodes);
    lemma_node(nodes, x);
    let den = conf.adaptive_weight_alpha_den as int;
    let num = conf.adaptive_weight_alpha_num as int;
    let len = b.items@.len();
    lemma_seen(b, conf, nodes, barrier, n, k, x);
    let w = subtree_weight(conf, nodes, k, x);
    let s = stable_subtree_weight(conf, nodes, k, x);
    let cw = amount_below(par, b.items@, b.weight@, len, x);
    let ci = amount_below(par, b.items@, b.inclusive@, len, x);
    let cs = amount_below(par, b.items@, b.stable@, len, x);
    let t0 = tree_weights(conf, nodes)(0);
    assert(t.weight_tree.values()[x] == w && t.inclusive_weight_tree.values()[x] == w
        && t.stable_tree.values()[x] == stable_value(
        conf,
        nodes,
        k,
        x,
    ) && t.adaptive_tree.values()[x] == adaptive_value(conf, nodes, k, x)
        && t.inclusive_adaptive_tree.values()[x] == inclusive_adaptive_value(conf, nodes, k, x))
        by {
        reveal(trees_ok);
    }
    assert((-1 * den) * cw == -(den * cw) && (-1 * den) * ci == -(den * ci) && (-1 * den) * cs
        == -(den * cs)) by (nonlinear_arith);
    assert(den * (w - cw - t0) == den * (w - t0) - den * cw && den * (w - ci - t0) == den * (w
        - t0) - den * ci && den * (s - cs - t0) == den * (s - t0) - den * cs && den * (w - cw)
        == den * w - den * cw && den * (w - ci) == den * w - den * ci && den * (s - cs) == den * s
        - den * cs) by (nonlinear_arith);
    assert(u.weight_tree.values()[x] == t.weight_tree.values()[x] + (-1) * cw);
    assert(u.inclusive_weight_tree.values()[x] == t.inclusive_weight_tree.values()[x] + (-1) * ci);
    assert(u.stable_tree.values()[x] == t.stable_tree.values()[x] + (-1 * den) * cw);
    if x > 0 {
        let q = nodes[x].parent as int;
        assert(par[x] == q);
        assert(not_below(par, barrier, q)) by {
            assert forall|z: int| #[trigger] barrier.contains(z) implies !ancestor(par, z, q) by {
                if ancestor(par, z, q) {
                    assert(ancestor(par, z, x));
                }
            }
        }
        lemma_seen(b, conf, nodes, barrier, n, k, q);
        assert forall|j: int| 0 <= j < b.items@.len() implies q != #[trigger] b.items@[j] by {
            assert(barrier.contains(b.items@[j] as int));
            assert(ancestor(par, b.items@[j] as int, b.items@[j] as int));
        }
        assert forall|j: int| 0 <= j < b.items@.len() implies {
            &&& (#[trigger] b.items@[j]) < par.len()
            &&& b.above@[j] == par[b.items@[j] as int]
            &&& par[b.items@[j] as int] < b.items@[j]
        } by {
            lemma_node(nodes, b.items@[j] as int);
        }
        lemma_amount_above(par, b.items@, b.above@, b.weight@, len, q);
        lemma_amount_above(par, b.items@, b.above@, b.inclusive@, len, q);
        let z = subtree_weight(conf, nodes, k, q);
        let dw = amount_below(par, b.items@, b.weight@, len, q);
        let di = amount_below(par, b.items@, b.inclusive@, len, q);
        assert((-(-1) * num) * dw == num * dw && (-(-1) * num) * di == num * di && num * (z - dw)
            == num * z - num * dw && num * (z - di) == num * z - num * di) by (nonlinear_arith);
    }
}

/// The sums that are seen without the barrier.
pub proof fn lemma_seen(
    b: BarrierWeights,
    conf: ConsensusInnerConfig,
    nodes: Seq<ConsensusGraphNode>,
    barrier: Set<int>,
    n: nat,
    k: nat,
    x: int,
)
    requires
        links_ok(nodes),
        n == nodes.len(),
        measured(b, conf, nodes, barrier, n, k),
        is_barrier(parents_of(nodes), barrier, n),
        0 <= x < n,
        not_below(parents_of(nodes), barrier, x),
    ensures
        seen_weight(conf, nodes, barrier, k, x) == subtree_weight(conf, nodes, k, x)
            - amount_below(parents_of(nodes), b.items@, b.weight@, b.items@.len(), x),
        seen_weight(conf, nodes, barrier, k, x) == subtree_weight(conf, nodes, k, x)
            - amount_below(parents_of(nodes), b.items@, b.inclusive@, b.items@.len(), x),
        seen_stable_weight(conf, nodes, barrier, k, x) == stable_subtree_weight(conf, nodes, k, x)
            - amount_below(parents_of(nodes), b.items@, b.stable@, b.items@.len(), x),
{
    let par = parents_of(nodes);
    let f = tree_weights(conf, nodes);
    let g = stable_weights(conf, nodes);
    lemma_node(nodes, x);
    lemma_outside_is_not_below(b, conf, nodes, barrier, n, k, x);
    lemma_weights_are_sums(conf, nodes, k, x);
    lemma_removed(par, b.items@, b.weight@, f, k, x);
    lemma_removed(par, b.items@, b.inclusive@, f, k, x);
    lemma_removed(par, b.items@, b.stable@, g, k, x);
    let o = |y: int| ancestor(par, x, y) && outside(par, b.items@, y);
    let p = |y: int| ancestor(par, x, y) && not_below(par, barrier, y);
    assert forall|i: int| 0 <= i < k implies #[trigger] masked(o, f)(i) == masked(p, f)(i) by {
        lemma_outside_is_not_below(b, conf, nodes, barrier, n, k, i);
    }
    lemma_sum_congruent(masked(o, f), masked(p, f), k);
    assert forall|i: int| 0 <= i < k implies #[trigger] masked(o, g)(i) == masked(p, g)(i) by {
        lemma_outside_is_not_below(b, conf, nodes, barrier, n, k, i);
    }
    lemma_sum_congruent(masked(o, g), masked(p, g), k);
}

/// The barrier of the newest block can be taken out, and what the block sees
/// is not below it.
pub proof fn lemma_barrier_of(nodes: Seq<ConsensusGraphNode>, me: int)
    requires
        links_ok(nodes),
        0 < me == nodes.len() - 1,
    ensures
        is_barrier(parents_of(nodes), barrier_of(dag_of(nodes), me), nodes.len()),
        forall|x: int| #[trigger]
            dag_of(nodes).reaches(me, x) ==> not_below(
                parents_of(nodes),
                barrier_of(dag_of(nodes), me),
                x,
            ),
{
    let g = dag_of(nodes);
    let par = g.parent;
    let barrier = barrier_of(g, me);
    lemma_node(nodes, me);
    assert forall|x: int| #[trigger] g.reaches(me, x) implies not_below(par, barrier, x) by {
        lemma_reaches_earlier(g, me, x);
        assert forall|b: int| #[trigger] barrier.contains(b) implies !ancestor(par, b, x) by {
            if ancestor(par, b, x) {
                lemma_ancestor_is_reached(g, b, x);
                lemma_reaches_transitive(g, me, x, b);
            }
        }
    }
    assert forall|b: int| #[trigger] barrier.contains(b) implies 0 < b < nodes.len() by {
        lemma_all_reach_root(g, me);
    }
    assert forall|a: int, b: int| #[trigger]
        barrier.contains(a) && #[trigger] barrier.contains(b) && a != b implies !ancestor(
        par,
        a,
        b,
    ) by {
        if ancestor(par, a, b) {
            lemma_node(nodes, b);
            let p = par[b] as int;
            assert(0 < b < nodes.len());
            assert(ancestor(par, a, p));
            lemma_ancestor_is_reached(g, a, p);
            if g.reaches(me, p) {
                lemma_reaches_transitive(g, me, p, a);
            }
            if g.reaches(p, me) {
                lemma_reaches_earlier(g, p, me);
            }
            assert(anticone_of(g, me).contains(p));
        }
    }
}

} // verus!
