//! Taking the subtrees below a barrier out of the weight trees and putting
//! them back.

use vstd::prelude::*;
use crate::arena::ConsensusGraphNode;
use crate::config::ConsensusInnerConfig;
use crate::dag::{ancestor, depth};
#[allow(unused_imports)]
use crate::dag::{lemma_ancestor_transitive, lemma_ancestors_chain};
use crate::model::{in_stable_subtree, in_subtree, limits_ok, parents_of, stable_subtree_weight,
    subtree_weight, total_cap, tree_shape, tree_weights, weight_cap};
use crate::path_tree::PathTree;
#[allow(unused_imports)]
use crate::state::lemma_masked_weight_bounds;
use crate::sums::{masked, sum_to};
#[allow(unused_imports)]
use crate::sums::{lemma_sum_added, lemma_sum_congruent, lemma_sum_zero};
#[allow(unused_imports)]
use crate::trees::lemma_tree_ancestors;

verus! {

/// The sum of the first `t` amounts.
pub open spec fn amount(d: Seq<i128>, t: nat) -> int
    decreases t,
{
    if t == 0 {
        0
    } else {
        amount(d, (t - 1) as nat) + d[t - 1]
    }
}

/// The sum of the amounts of those of the first `t` blocks that lie in the
/// subtree of `x`.
pub open spec fn amount_below(
    par: Seq<usize>,
    items: Seq<usize>,
    d: Seq<i128>,
    t: nat,
    x: int,
) -> int
    decreases t,
{
    if t == 0 {
        0
    } else {
        amount_below(par, items, d, (t - 1) as nat, x) + (if ancestor(
            par,
            x,
            items[t - 1] as int,
        ) {
            d[t - 1] as int
        } else {
            0
        })
    }
}

/// Amounts that are not negative add up to something between nothing and all.
pub proof fn lemma_amount_bounds(
    par: Seq<usize>,
    items: Seq<usize>,
    d: Seq<i128>,
    t: nat,
    x: int,
)
    requires
        t <= d.len(),
        forall|j: int| 0 <= j < d.len() ==> 0 <= #[trigger] d[j],
    ensures
        0 <= amount_below(par, items, d, t, x) <= amount(d, t) <= amount(d, d.len()),
    decreases d.len() - t, t,
{
    if t < d.len() {
        lemma_amount_grows(d, t, d.len());
    }
    lemma_amount_below(par, items, d, t, x);
}

proof fn lemma_amount_grows(d: Seq<i128>, t: nat, u: nat)
    requires
        t <= u <= d.len(),
        forall|j: int| 0 <= j < d.len() ==> 0 <= #[trigger] d[j],
    ensures
        amount(d, t) <= amount(d, u),
    decreases u,
{
    if t < u {
        lemma_amount_grows(d, t, (u - 1) as nat);
        assert(0 <= d[u - 1]);
    }
}

proof fn lemma_amount_below(
    par: Seq<usize>,
    items: Seq<usize>,
    d: Seq<i128>,
    t: nat,
    x: int,
)
    requires
        t <= d.len(),
        forall|j: int| 0 <= j < d.len() ==> 0 <= #[trigger] d[j],
    ensures
        0 <= amount_below(par, items, d, t, x) <= amount(d, t),
    decreases t,
{
    if t > 0 {
        lemma_amount_below(par, items, d, (t - 1) as nat, x);
        assert(0 <= d[t - 1]);
    }
}

/// A factor may be applied to every amount up to the sum of all.
pub open spec fn fits(d: Seq<i128>, factor: int, bound: int) -> bool {
    forall|c: int| 0 <= c <= amount(d, d.len()) ==> -bound <= #[trigger] (factor * c) <= bound
}

/// Adds to every node the scaled amounts of the blocks in its subtree.
pub fn shift_paths(
    tree: &mut PathTree,
    items: &Vec<usize>,
    d: &Vec<i128>,
    factor: i128,
    Ghost(par): Ghost<Seq<usize>>,
    Ghost(bound): Ghost<int>,
)
    requires
        tree_shape(*old(tree), par, old(tree).len()),
        d@.len() == items@.len(),
        forall|j: int| 0 <= j < items@.len() ==> (#[trigger] items@[j]) < old(tree).len(),
        forall|j: int| 0 <= j < d@.len() ==> 0 <= #[trigger] d@[j],
        forall|x: int|
            0 <= x < old(tree).len() ==> -bound <= #[trigger] old(tree).values()[x] <= bound,
        fits(d@, factor as int, bound),
        3 * bound <= i128::MAX,
    ensures
        tree_shape(*final(tree), par, old(tree).len()),
        final(tree).len() == old(tree).len(),
        forall|x: int|
            0 <= x < old(tree).len() ==> (#[trigger] final(tree).values()[x])
                == old(tree).values()[x] + factor * amount_below(
                par,
                items@,
                d@,
                items@.len(),
                x,
            ),
{
    let ghost start = *tree;
    let ghost n = tree.len();
    let mut j: usize = 0;
    proof {
        assert(factor * 0 == 0) by (nonlinear_arith);
    }
    while j < items.len()
        invariant
            tree_shape(*tree, par, n),
            tree.len() == n,
            n == start.len(),
            d@.len() == items@.len(),
            j <= items@.len(),
            forall|i: int| 0 <= i < items@.len() ==> (#[trigger] items@[i]) < n,
            forall|i: int| 0 <= i < d@.len() ==> 0 <= #[trigger] d@[i],
            forall|x: int| 0 <= x < n ==> -bound <= #[trigger] start.values()[x] <= bound,
            fits(d@, factor as int, bound),
            3 * bound <= i128::MAX,
            forall|x: int|
                0 <= x < n ==> (#[trigger] tree.values()[x]) == start.values()[x] + factor
                    * amount_below(par, items@, d@, j as nat, x),
        decreases items@.len() - j,
    {
        let v: usize = items[j];
        let ghost before = *tree;
        proof {
            lemma_tree_ancestors(*tree, par, n);
            assert(items@[j as int] < n);
            assert(0 <= d@[j as int]);
            assert(d@[j as int] <= amount(d@, d@.len())) by {
                lemma_amount_bounds(par, items@, d@, j as nat, 0);
                lemma_amount_bounds(par, items@, d@, (j + 1) as nat, 0);
            }
            assert(-bound <= factor * d@[j as int] <= bound);
            assert forall|x: int| 0 <= x < n implies -2 * bound <= #[trigger] tree.values()[x] <= 2
                * bound by {
                let c = amount_below(par, items@, d@, j as nat, x);
                lemma_amount_bounds(par, items@, d@, j as nat, x);
                assert(-bound <= factor * c <= bound);
                assert(-bound <= start.values()[x] <= bound);
            }
        }
        let delta: i128 = factor * d[j];
        tree.path_apply(v, delta);
        j = j + 1;
        proof {
            assert forall|x: int| 0 <= x < n implies (#[trigger] tree.values()[x])
                == start.values()[x] + factor * amount_below(par, items@, d@, j as nat, x) by {
                let c = amount_below(par, items@, d@, (j - 1) as nat, x);
                let a = d@[j - 1] as int;
                assert(before.values()[x] == start.values()[x] + factor * c);
                assert(factor * (c + a) == factor * c + factor * a && factor * (c + 0) == factor
                    * c) by (nonlinear_arith);
                assert(ancestor(before.parents(), x, v as int) == ancestor(par, x, v as int));
            }
        }
    }
}

/// Adds to every node but the root the scaled amounts of the blocks in the
/// subtree of its parent, other than the parent.
pub fn shift_below(
    tree: &mut PathTree,
    above: &Vec<usize>,
    d: &Vec<i128>,
    factor: i128,
    Ghost(par): Ghost<Seq<usize>>,
    Ghost(bound): Ghost<int>,
)
    requires
        tree_shape(*old(tree), par, old(tree).len()),
        d@.len() == above@.len(),
        forall|j: int| 0 <= j < above@.len() ==> (#[trigger] above@[j]) < old(tree).len(),
        forall|j: int| 0 <= j < d@.len() ==> 0 <= #[trigger] d@[j],
        forall|x: int|
            0 <= x < old(tree).len() ==> -bound <= #[trigger] old(tree).values()[x] <= bound,
        fits(d@, factor as int, bound),
        3 * bound <= i128::MAX,
    ensures
        tree_shape(*final(tree), par, old(tree).len()),
        final(tree).len() == old(tree).len(),
        forall|x: int|
            0 <= x < old(tree).len() ==> (#[trigger] final(tree).values()[x])
                == old(tree).values()[x] + (if par[x] < old(tree).len() {
                factor * amount_below(par, above@, d@, above@.len(), par[x] as int)
            } else {
                0
            }),
{
    let ghost start = *tree;
    let ghost n = tree.len();
    let mut j: usize = 0;
    proof {
        assert(factor * 0 == 0) by (nonlinear_arith);
    }
    while j < above.len()
        invariant
            tree_shape(*tree, par, n),
            tree.len() == n,
            n == start.len(),
            d@.len() == above@.len(),
            j <= above@.len(),
            forall|i: int| 0 <= i < above@.len() ==> (#[trigger] above@[i]) < n,
            forall|i: int| 0 <= i < d@.len() ==> 0 <= #[trigger] d@[i],
            forall|x: int| 0 <= x < n ==> -bound <= #[trigger] start.values()[x] <= bound,
            fits(d@, factor as int, bound),
            3 * bound <= i128::MAX,
            forall|x: int|
                0 <= x < n ==> (#[trigger] tree.values()[x]) == start.values()[x] + (if par[x]
                    < n {
                    factor * amount_below(par, above@, d@, j as nat, par[x] as int)
                } else {
                    0
                }),
        decreases above@.len() - j,
    {
        let v: usize = above[j];
        let ghost before = *tree;
        proof {
            lemma_tree_ancestors(*tree, par, n);
            assert(above@[j as int] < n);
            assert(0 <= d@[j as int]);
            assert(d@[j as int] <= amount(d@, d@.len())) by {
                lemma_amount_bounds(par, above@, d@, j as nat, 0);
                lemma_amount_bounds(par, above@, d@, (j + 1) as nat, 0);
            }
            assert(-bound <= factor * d@[j as int] <= bound);
            assert forall|x: int| 0 <= x < n implies -2 * bound <= #[trigger] tree.values()[x] <= 2
                * bound by {
                let c = amount_below(par, above@, d@, j as nat, par[x] as int);
                lemma_amount_bounds(par, above@, d@, j as nat, par[x] as int);
                assert(-bound <= factor * c <= bound);
                assert(-bound <= start.values()[x] <= bound);
            }
        }
        let delta: i128 = factor * d[j];
        tree.catepillar_apply(v, delta);
        j = j + 1;
        proof {
            assert forall|x: int| 0 <= x < n implies (#[trigger] tree.values()[x])
                == start.values()[x] + (if par[x] < n {
                factor * amount_below(par, above@, d@, j as nat, par[x] as int)
            } else {
                0
            }) by {
                let q = par[x] as int;
                assert(before.parents()[x] == par[x]);
                if q < n {
                    let c = amount_below(par, above@, d@, (j - 1) as nat, q);
                    let a = d@[j - 1] as int;
                    assert(before.values()[x] == start.values()[x] + factor * c);
                    assert(factor * (c + a) == factor * c + factor * a && factor * (c + 0)
                        == factor * c) by (nonlinear_arith);
                    assert(ancestor(before.parents(), q, v as int) == ancestor(par, q, v as int));
                }
            }
        }
    }
}

/// No block of the list is an ancestor of another.
pub open spec fn antichain(par: Seq<usize>, items: Seq<usize>) -> bool {
    forall|i: int, j: int|
        0 <= i < items.len() && 0 <= j < items.len() && i != j ==> !#[trigger] ancestor(
            par,
            items[i] as int,
            items[j] as int,
        )
}

/// No block of the list is an ancestor of `y` or `y` itself.
pub open spec fn outside(par: Seq<usize>, items: Seq<usize>, y: int) -> bool {
    forall|j: int| 0 <= j < items.len() ==> !#[trigger] ancestor(par, items[j] as int, y)
}

/// The sum of `f` over the first `k` blocks that lie in the subtree of `x`.
pub open spec fn sum_below(
    par: Seq<usize>,
    f: spec_fn(int) -> int,
    k: nat,
    x: int,
) -> int {
    sum_to(masked(in_subtree(par, x), f), k)
}

/// The sum of `f` over the first `k` blocks that lie in the subtree of `x`
/// outside the subtrees of the listed blocks.
pub open spec fn sum_outside(
    par: Seq<usize>,
    items: Seq<usize>,
    f: spec_fn(int) -> int,
    k: nat,
    x: int,
) -> int {
    sum_to(masked(|y: int| ancestor(par, x, y) && outside(par, items, y), f), k)
}

/// The sums below the first `t` listed blocks under `x` are the sum over what
/// lies below one of them.
proof fn lemma_amount_is_sum(
    par: Seq<usize>,
    items: Seq<usize>,
    d: Seq<i128>,
    f: spec_fn(int) -> int,
    k: nat,
    t: nat,
    x: int,
)
    requires
        antichain(par, items),
        t <= items.len() == d.len(),
        forall|j: int|
            0 <= j < items.len() ==> #[trigger] d[j] == sum_below(par, f, k, items[j] as int),
    ensures
        amount_below(par, items, d, t, x) == sum_to(
            masked(
                |y: int|
                    exists|j: int|
                        0 <= j < t && ancestor(par, x, items[j] as int) && #[trigger] ancestor(
                            par,
                            items[j] as int,
                            y,
                        ),
                f,
            ),
            k,
        ),
    decreases t,
{
    let p = |y: int|
        exists|j: int|
            0 <= j < t && ancestor(par, x, items[j] as int) && #[trigger] ancestor(
                par,
                items[j] as int,
                y,
            );
    if t == 0 {
        assert forall|i: int| 0 <= i < k implies #[trigger] masked(p, f)(i) == 0 by {}
        lemma_sum_zero(masked(p, f), k);
    } else {
        let u = (t - 1) as nat;
        lemma_amount_is_sum(par, items, d, f, k, u, x);
        let q = |y: int|
            exists|j: int|
                0 <= j < u && ancestor(par, x, items[j] as int) && #[trigger] ancestor(
                    par,
                    items[j] as int,
                    y,
                );
        let b = items[t - 1] as int;
        assert(d[t - 1] == sum_below(par, f, k, b));
        if ancestor(par, x, b) {
            let r = in_subtree(par, b);
            assert forall|i: int| 0 <= i < k implies #[trigger] masked(p, f)(i) == masked(q, f)(i)
                + masked(r, f)(i) by {
                if p(i) {
                    let j = choose|j: int|
                        0 <= j < t && ancestor(par, x, items[j] as int) && #[trigger] ancestor(
                            par,
                            items[j] as int,
                            i,
                        );
                    if j < u {
                        assert(q(i));
                    } else {
                        assert(r(i));
                    }
                }
                if q(i) {
                    let j = choose|j: int|
                        0 <= j < u && ancestor(par, x, items[j] as int) && #[trigger] ancestor(
                            par,
                            items[j] as int,
                            i,
                        );
                    assert(ancestor(par, items[j] as int, i));
                    assert(p(i));
                    if r(i) {
                        lemma_comparable(par, items[j] as int, b, i);
                        assert(!ancestor(par, items[j] as int, items[t - 1] as int));
                        assert(!ancestor(par, items[t - 1] as int, items[j] as int));
                    }
                }
                if r(i) {
                    assert(ancestor(par, items[t - 1] as int, i));
                    assert(p(i));
                }
            }
            lemma_sum_added(masked(q, f), masked(r, f), masked(p, f), k);
        } else {
            assert forall|i: int| 0 <= i < k implies #[trigger] masked(p, f)(i) == masked(q, f)(
                i,
            ) by {
                if p(i) {
                    let j = choose|j: int|
                        0 <= j < t && ancestor(par, x, items[j] as int) && #[trigger] ancestor(
                            par,
                            items[j] as int,
                            i,
                        );
                    assert(j < u);
                    assert(q(i));
                }
                if q(i) {
                    let j = choose|j: int|
                        0 <= j < u && ancestor(par, x, items[j] as int) && #[trigger] ancestor(
                            par,
                            items[j] as int,
                            i,
                        );
                    assert(p(i));
                }
            }
            lemma_sum_congruent(masked(p, f), masked(q, f), k);
        }
    }
}

/// Of two ancestors of a block one is an ancestor of the other.
pub proof fn lemma_comparable(par: Seq<usize>, a: int, b: int, y: int)
    requires
        ancestor(par, a, y),
        ancestor(par, b, y),
        0 <= y,
    ensures
        ancestor(par, a, b) || ancestor(par, b, a),
{
    if depth(par, a) <= depth(par, b) {
        lemma_ancestors_chain(par, a, b, y);
    } else {
        lemma_ancestors_chain(par, b, a, y);
    }
}

/// Taking the sums below the listed blocks away leaves the sum outside them.
pub proof fn lemma_removed(
    par: Seq<usize>,
    items: Seq<usize>,
    d: Seq<i128>,
    f: spec_fn(int) -> int,
    k: nat,
    x: int,
)
    requires
        antichain(par, items),
        items.len() == d.len(),
        forall|j: int|
            0 <= j < items.len() ==> #[trigger] d[j] == sum_below(par, f, k, items[j] as int),
        outside(par, items, x),
    ensures
        sum_below(par, f, k, x) - amount_below(par, items, d, items.len(), x) == sum_outside(
            par,
            items,
            f,
            k,
            x,
        ),
{
    let t = items.len();
    lemma_amount_is_sum(par, items, d, f, k, t, x);
    let p = |y: int|
        exists|j: int|
            0 <= j < t && ancestor(par, x, items[j] as int) && #[trigger] ancestor(
                par,
                items[j] as int,
                y,
            );
    let o = |y: int| ancestor(par, x, y) && outside(par, items, y);
    let all = in_subtree(par, x);
    assert forall|i: int| 0 <= i < k implies #[trigger] masked(all, f)(i) == masked(o, f)(i)
        + masked(p, f)(i) by {
        if p(i) {
            let j = choose|j: int|
                0 <= j < t && ancestor(par, x, items[j] as int) && #[trigger] ancestor(
                    par,
                    items[j] as int,
                    i,
                );
            lemma_ancestor_transitive(par, x, items[j] as int, i);
            assert(!outside(par, items, i));
        }
        if all(i) && !o(i) {
            let j = choose|j: int|
                0 <= j < items.len() && #[trigger] ancestor(par, items[j] as int, i);
            lemma_comparable(par, x, items[j] as int, i);
            assert(!ancestor(par, items[j] as int, x));
            assert(p(i));
        }
    }
    lemma_sum_added(masked(o, f), masked(p, f), masked(all, f), k);
}

/// The sums below the listed blocks stay within the sum of all.
pub proof fn lemma_amount_within(
    conf: ConsensusInnerConfig,
    nodes: Seq<ConsensusGraphNode>,
    items: Seq<usize>,
    d: Seq<i128>,
    f: spec_fn(int) -> int,
    k: nat,
)
    requires
        limits_ok(conf, nodes),
        k <= nodes.len(),
        antichain(parents_of(nodes), items),
        items.len() == d.len(),
        forall|j: int|
            0 <= j < items.len() ==> #[trigger] d[j] == sum_below(
                parents_of(nodes),
                f,
                k,
                items[j] as int,
            ),
        forall|i: int|
            0 <= i < nodes.len() ==> 0 <= #[trigger] f(i) <= weight_cap(conf)(nodes[i]),
    ensures
        0 <= amount(d, d.len()) <= total_cap(conf, nodes),
        forall|j: int| 0 <= j < d.len() ==> 0 <= #[trigger] d[j],
{
    let par = parents_of(nodes);
    assert forall|j: int| 0 <= j < d.len() implies 0 <= #[trigger] d[j] by {
        lemma_masked_weight_bounds(conf, nodes, in_subtree(par, items[j] as int), f, k);
        assert(d[j] == sum_below(par, f, k, items[j] as int));
    }
    lemma_amount_all(par, items, d, f, k, d.len());
    let p = |y: int|
        exists|j: int| 0 <= j < d.len() && #[trigger] ancestor(par, items[j] as int, y);
    lemma_masked_weight_bounds(conf, nodes, p, f, k);
}

/// The same as above for all listed blocks.
proof fn lemma_amount_all(
    par: Seq<usize>,
    items: Seq<usize>,
    d: Seq<i128>,
    f: spec_fn(int) -> int,
    k: nat,
    t: nat,
)
    requires
        antichain(par, items),
        t <= items.len() == d.len(),
        forall|j: int|
            0 <= j < items.len() ==> #[trigger] d[j] == sum_below(par, f, k, items[j] as int),
    ensures
        amount(d, t) == sum_to(
            masked(
                |y: int|
                    exists|j: int| 0 <= j < t && #[trigger] ancestor(par, items[j] as int, y),
                f,
            ),
            k,
        ),
    decreases t,
{
    let p = |y: int| exists|j: int| 0 <= j < t && #[trigger] ancestor(par, items[j] as int, y);
    if t == 0 {
        assert forall|i: int| 0 <= i < k implies #[trigger] masked(p, f)(i) == 0 by {}
        lemma_sum_zero(masked(p, f), k);
    } else {
        let u = (t - 1) as nat;
        lemma_amount_all(par, items, d, f, k, u);
        let q = |y: int|
            exists|j: int| 0 <= j < u && #[trigger] ancestor(par, items[j] as int, y);
        let b = items[t - 1] as int;
        let r = in_subtree(par, b);
        assert(d[t - 1] == sum_below(par, f, k, b));
        assert forall|i: int| 0 <= i < k implies #[trigger] masked(p, f)(i) == masked(q, f)(i)
            + masked(r, f)(i) by {
            if p(i) {
                let j = choose|j: int|
                    0 <= j < t && #[trigger] ancestor(par, items[j] as int, i);
                if j < u {
                    assert(q(i));
                } else {
                    assert(r(i));
                }
            }
            if q(i) {
                let j = choose|j: int|
                    0 <= j < u && #[trigger] ancestor(par, items[j] as int, i);
                assert(ancestor(par, items[j] as int, i));
                assert(p(i));
                if r(i) {
                    lemma_comparable(par, items[j] as int, b, i);
                    assert(!ancestor(par, items[j] as int, items[t - 1] as int));
                    assert(!ancestor(par, items[t - 1] as int, items[j] as int));
                }
            }
            if r(i) {
                assert(ancestor(par, items[t - 1] as int, i));
                assert(p(i));
            }
        }
        lemma_sum_added(masked(q, f), masked(r, f), masked(p, f), k);
    }
}

/// The tree weights of the stable blocks.
pub open spec fn stable_weights(
    conf: ConsensusInnerConfig,
    nodes: Seq<ConsensusGraphNode>,
) -> spec_fn(int) -> int {
    |i: int|
        if nodes[i].stable {
            tree_weights(conf, nodes)(i)
        } else {
            0
        }
}

/// The weights in the trees are sums below blocks.
pub proof fn lemma_weights_are_sums(
    conf: ConsensusInnerConfig,
    nodes: Seq<ConsensusGraphNode>,
    k: nat,
    x: int,
)
    ensures
        subtree_weight(conf, nodes, k, x) == sum_below(
            parents_of(nodes),
            tree_weights(conf, nodes),
            k,
            x,
        ),
        stable_subtree_weight(conf, nodes, k, x) == sum_below(
            parents_of(nodes),
            stable_weights(conf, nodes),
            k,
            x,
        ),
{
    let f = masked(in_stable_subtree(nodes, x), tree_weights(conf, nodes));
    let g = masked(in_subtree(parents_of(nodes), x), stable_weights(conf, nodes));
    assert forall|i: int| 0 <= i < k implies #[trigger] f(i) == g(i) by {}
    lemma_sum_congruent(f, g, k);
}

/// Moving from the blocks to their parents changes nothing above them.
pub proof fn lemma_amount_above(
    par: Seq<usize>,
    items: Seq<usize>,
    above: Seq<usize>,
    d: Seq<i128>,
    t: nat,
    q: int,
)
    requires
        t <= items.len() == above.len(),
        forall|j: int| 0 <= j < items.len() ==> q != #[trigger] items[j],
        forall|j: int|
            0 <= j < items.len() ==> {
                &&& (#[trigger] items[j]) < par.len()
                &&& above[j] == par[items[j] as int]
                &&& par[items[j] as int] < items[j]
            },
    ensures
        amount_below(par, above, d, t, q) == amount_below(par, items, d, t, q),
    decreases t,
{
    if t > 0 {
        lemma_amount_above(par, items, above, d, (t - 1) as nat, q);
        let b = items[t - 1] as int;
        assert(b < par.len() && par[b] < b);
        assert(q != items[t - 1]);
        assert(ancestor(par, q, b) == ancestor(par, q, above[t - 1] as int));
    }
}

} // verus!
