//! What of the state stays right when blocks are added behind others or when
//! their flags change.

use vstd::prelude::*;
use crate::arena::{dag_of, ConsensusGraphNode, ConsensusGraphPivotData};
use crate::config::ConsensusInnerConfig;
use crate::dag::{ancestor, ancestor_at_depth, depth};
#[allow(unused_imports)]
use crate::dag::{lemma_ancestor_at_depth_prefix, lemma_ancestor_prefix, lemma_reaches_prefix};
use crate::model::{adaptive_value, cache_ok, chain_ok, epoch_ok, era_height, era_genesis,
    in_era_past, in_past, in_stable_subtree, in_subtree, inclusive_adaptive_value, links_ok,
    metadata_ok, parents_of, past_weights_ok, stable_subtree_weight, stable_value, subtree_weight,
    tip_ok, tree_weights, trees_ok, weights, WeightTrees};
use crate::state::lemma_node;
use crate::sums::{masked, sum_to};
#[allow(unused_imports)]
use crate::sums::lemma_sum_congruent;

verus! {

/// The two nodes have the same parent and referees.
pub open spec fn same_origin(a: ConsensusGraphNode, b: ConsensusGraphNode) -> bool {
    &&& a.parent == b.parent
    &&& a.referees@ == b.referees@
}

/// The two nodes weigh the same.
pub open spec fn same_weight(a: ConsensusGraphNode, b: ConsensusGraphNode) -> bool {
    &&& a.is_heavy == b.is_heavy
    &&& a.difficulty == b.difficulty
    &&& a.adaptive == b.adaptive
    &&& a.stable == b.stable
    &&& a.data.partial_invalid == b.data.partial_invalid
}

/// The two nodes carry the same recorded weights.
pub open spec fn same_records(a: ConsensusGraphNode, b: ConsensusGraphNode) -> bool {
    &&& a.past_weight == b.past_weight
    &&& a.past_era_weight == b.past_era_weight
}

/// The two nodes have the same place relative to the pivot chain.
pub open spec fn same_place(a: ConsensusGraphNode, b: ConsensusGraphNode) -> bool {
    &&& a.data.epoch_number == b.data.epoch_number
    &&& a.last_pivot_in_past == b.last_pivot_in_past
}

/// The first `k` nodes have the same parents and referees.
pub open spec fn same_origins(
    a: Seq<ConsensusGraphNode>,
    b: Seq<ConsensusGraphNode>,
    k: nat,
) -> bool {
    &&& k <= a.len()
    &&& k <= b.len()
    &&& forall|i: int| #![trigger a[i]] #![trigger b[i]] 0 <= i < k ==> same_origin(a[i], b[i])
}

/// The first `k` nodes weigh the same.
pub open spec fn same_weights(
    a: Seq<ConsensusGraphNode>,
    b: Seq<ConsensusGraphNode>,
    k: nat,
) -> bool {
    forall|i: int| #![trigger a[i]] #![trigger b[i]] 0 <= i < k ==> same_weight(a[i], b[i])
}

/// The first `k` nodes carry the same recorded weights.
pub open spec fn same_recorded(
    a: Seq<ConsensusGraphNode>,
    b: Seq<ConsensusGraphNode>,
    k: nat,
) -> bool {
    forall|i: int| #![trigger a[i]] #![trigger b[i]] 0 <= i < k ==> same_records(a[i], b[i])
}

/// The first `k` nodes have the same places relative to the pivot chain.
pub open spec fn same_places(
    a: Seq<ConsensusGraphNode>,
    b: Seq<ConsensusGraphNode>,
    k: nat,
) -> bool {
    forall|i: int| #![trigger a[i]] #![trigger b[i]] 0 <= i < k ==> same_place(a[i], b[i])
}

/// The graph below `k` looks the same.
pub proof fn lemma_same_below(a: Seq<ConsensusGraphNode>, b: Seq<ConsensusGraphNode>, k: nat)
    requires
        same_origins(a, b, k),
    ensures
        forall|x: int, y: int|
            0 <= x < k ==> #[trigger] dag_of(a).reaches(x, y) == dag_of(b).reaches(x, y),
        forall|x: int, y: int|
            0 <= x < k ==> #[trigger] dag_of(b).reaches(x, y) == dag_of(a).reaches(x, y),
        forall|x: int, y: int|
            0 <= x < k ==> #[trigger] ancestor(parents_of(a), y, x) == ancestor(
                parents_of(b),
                y,
                x,
            ),
        forall|x: int, y: int|
            0 <= x < k ==> #[trigger] ancestor(parents_of(b), y, x) == ancestor(
                parents_of(a),
                y,
                x,
            ),
        forall|x: int|
            0 <= x < k ==> #[trigger] depth(parents_of(b), x) == depth(parents_of(a), x),
        forall|x: int, h: nat|
            0 <= x < k ==> #[trigger] ancestor_at_depth(parents_of(b), x, h)
                == ancestor_at_depth(parents_of(a), x, h),
{
    let g = dag_of(a);
    let h = dag_of(b);
    assert forall|i: int| 0 <= i < k implies g.parent[i] == h.parent[i] && g.referees[i]
        == h.referees[i] by {
        assert(same_origin(a[i], b[i]));
    }
    assert forall|x: int, y: int| 0 <= x < k implies g.reaches(x, y) == h.reaches(x, y) by {
        lemma_reaches_prefix(g, h, x, y);
    }
    assert forall|x: int, y: int| 0 <= x < k implies ancestor(g.parent, y, x) == ancestor(
        h.parent,
        y,
        x,
    ) by {
        lemma_ancestor_prefix(g.parent, h.parent, y, x);
    }
    assert forall|x: int| 0 <= x < k implies depth(h.parent, x) == depth(g.parent, x) by {
        lemma_ancestor_prefix(g.parent, h.parent, x, x);
    }
    assert forall|x: int, d: nat| 0 <= x < k implies #[trigger] ancestor_at_depth(h.parent, x, d)
        == ancestor_at_depth(g.parent, x, d) by {
        lemma_ancestor_at_depth_prefix(g.parent, h.parent, x, d);
    }
}

/// Recorded past weights stay right as long as the blocks below keep theirs.
pub proof fn lemma_frame_past(
    conf: ConsensusInnerConfig,
    a: Seq<ConsensusGraphNode>,
    b: Seq<ConsensusGraphNode>,
    k: nat,
)
    requires
        links_ok(a),
        past_weights_ok(conf, a, k),
        same_origins(a, b, k),
        same_recorded(a, b, k),
        same_weights(a, b, (k - 1) as nat),
        k > 0,
    ensures
        past_weights_ok(conf, b, k),
{
    reveal(past_weights_ok);
    let g = dag_of(a);
    let h = dag_of(b);
    lemma_same_below(a, b, k);
    assert forall|x: int| 0 <= x < k implies (#[trigger] b[x]).past_weight == sum_to(
        masked(in_past(h, x), weights(conf, b)),
        x as nat,
    ) by {
        assert(same_records(a[x], b[x]));
        let f = masked(in_past(g, x), weights(conf, a));
        let f2 = masked(in_past(h, x), weights(conf, b));
        assert forall|i: int| 0 <= i < x implies #[trigger] f(i) == f2(i) by {
            assert(same_weight(a[i], b[i]));
            assert(g.reaches(x, i) == h.reaches(x, i));
        }
        lemma_sum_congruent(f, f2, x as nat);
        assert(a[x].past_weight == sum_to(f, x as nat));
    }
    assert(b[0].past_era_weight == 0) by {
        assert(same_records(a[0], b[0]));
    }
    assert forall|x: int| 0 < x < k implies (#[trigger] b[x]).past_era_weight == sum_to(
        masked(in_era_past(h, x), weights(conf, b)),
        x as nat,
    ) by {
        assert(same_records(a[x], b[x]));
        assert(same_origin(a[x], b[x]));
        lemma_node(a, x);
        let f = masked(in_era_past(g, x), weights(conf, a));
        let f2 = masked(in_era_past(h, x), weights(conf, b));
        let p = a[x].parent as int;
        assert(g.parent[x] == p && h.parent[x] == p);
        assert(era_genesis(g.parent, p) == era_genesis(h.parent, p)) by {
            assert(depth(parents_of(b), p) == depth(parents_of(a), p));
            let d = era_height(depth(parents_of(a), p) as int, 0) as nat;
            assert(ancestor_at_depth(parents_of(b), p, d) == ancestor_at_depth(
                parents_of(a),
                p,
                d,
            ));
        }
        assert forall|i: int| 0 <= i < x implies #[trigger] f(i) == f2(i) by {
            assert(same_weight(a[i], b[i]));
            assert(g.reaches(x, i) == h.reaches(x, i));
            let e = era_genesis(g.parent, p);
            assert(ancestor(parents_of(a), e, i) == ancestor(parents_of(b), e, i));
        }
        lemma_sum_congruent(f, f2, x as nat);
        assert(a[x].past_era_weight == sum_to(f, x as nat));
    }
}

/// Subtree weights depend on the first `k` blocks alone.
pub proof fn lemma_frame_subtree(
    conf: ConsensusInnerConfig,
    a: Seq<ConsensusGraphNode>,
    b: Seq<ConsensusGraphNode>,
    k: nat,
    x: int,
)
    requires
        same_origins(a, b, k),
        same_weights(a, b, k),
    ensures
        subtree_weight(conf, a, k, x) == subtree_weight(conf, b, k, x),
        stable_subtree_weight(conf, a, k, x) == stable_subtree_weight(conf, b, k, x),
{
    lemma_same_below(a, b, k);
    let f = masked(in_subtree(parents_of(a), x), tree_weights(conf, a));
    let f2 = masked(in_subtree(parents_of(b), x), tree_weights(conf, b));
    assert forall|i: int| 0 <= i < k implies #[trigger] f(i) == f2(i) by {
        assert(same_weight(a[i], b[i]));
        assert(ancestor(parents_of(a), x, i) == ancestor(parents_of(b), x, i));
    }
    lemma_sum_congruent(f, f2, k);
    let s = masked(in_stable_subtree(a, x), tree_weights(conf, a));
    let s2 = masked(in_stable_subtree(b, x), tree_weights(conf, b));
    assert forall|i: int| 0 <= i < k implies #[trigger] s(i) == s2(i) by {
        assert(same_weight(a[i], b[i]));
        assert(ancestor(parents_of(a), x, i) == ancestor(parents_of(b), x, i));
    }
    lemma_sum_congruent(s, s2, k);
}

/// The trees stay right as long as the first blocks keep their weights.
pub proof fn lemma_frame_trees(
    conf: ConsensusInnerConfig,
    a: Seq<ConsensusGraphNode>,
    b: Seq<ConsensusGraphNode>,
    trees: WeightTrees,
    n: nat,
    k: nat,
)
    requires
        links_ok(a),
        trees_ok(conf, a, trees, n, k),
        k <= n <= k + 1,
        k > 0,
        same_origins(a, b, n),
        same_weights(a, b, k),
        same_recorded(a, b, n),
    ensures
        trees_ok(conf, b, trees, n, k),
{
    reveal(trees_ok);
    assert(parents_of(a).take(n as int) =~= parents_of(b).take(n as int)) by {
        assert forall|i: int| 0 <= i < n implies parents_of(a)[i] == parents_of(b)[i] by {
            assert(same_origin(a[i], b[i]));
        }
    }
    assert(same_weight(a[0], b[0]));
    assert forall|x: int| 0 <= x < n implies {
        &&& subtree_weight(conf, a, k, x) == subtree_weight(conf, b, k, x)
        &&& stable_subtree_weight(conf, a, k, x) == stable_subtree_weight(conf, b, k, x)
        &&& #[trigger] stable_value(conf, a, k, x) == stable_value(conf, b, k, x)
        &&& adaptive_value(conf, a, k, x) == adaptive_value(conf, b, k, x)
        &&& inclusive_adaptive_value(conf, a, k, x) == inclusive_adaptive_value(conf, b, k, x)
    } by {
        lemma_frame_subtree(conf, a, b, k, x);
        assert(same_origin(a[x], b[x]));
        if x > 0 {
            lemma_node(a, x);
            let p = a[x].parent as int;
            lemma_frame_subtree(conf, a, b, k, p);
            assert(same_weight(a[p], b[p]));
            assert(same_records(a[p], b[p]));
        }
    }
    assert forall|x: int| 0 <= x < n implies (#[trigger] trees.weight_tree.values()[x])
        == subtree_weight(conf, b, k, x) by {
        assert(stable_value(conf, a, k, x) == stable_value(conf, b, k, x));
    }
    assert forall|x: int| 0 <= x < n implies (#[trigger] trees.inclusive_weight_tree.values()[x])
        == subtree_weight(conf, b, k, x) by {
        assert(stable_value(conf, a, k, x) == stable_value(conf, b, k, x));
    }
    assert forall|x: int| 0 <= x < n implies (#[trigger] trees.stable_weight_tree.values()[x])
        == stable_subtree_weight(conf, b, k, x) by {
        assert(stable_value(conf, a, k, x) == stable_value(conf, b, k, x));
    }
    assert forall|x: int| 0 <= x < n implies (#[trigger] trees.adaptive_tree.values()[x])
        == adaptive_value(conf, b, k, x) by {
        assert(stable_value(conf, a, k, x) == stable_value(conf, b, k, x));
    }
    assert forall|x: int|
        0 <= x < n implies (#[trigger] trees.inclusive_adaptive_tree.values()[x])
        == inclusive_adaptive_value(conf, b, k, x) by {
        assert(stable_value(conf, a, k, x) == stable_value(conf, b, k, x));
    }
}

/// Cached anticones stay right for the first `k` blocks.
pub proof fn lemma_frame_cache(
    a: Seq<ConsensusGraphNode>,
    b: Seq<ConsensusGraphNode>,
    cache: Map<usize, Set<usize>>,
    k: nat,
)
    requires
        cache_ok(dag_of(a), cache, k),
        same_origins(a, b, k),
    ensures
        cache_ok(dag_of(b), cache, k),
{
    lemma_same_below(a, b, k);
    assert forall|x: usize| #[trigger] cache.contains_key(x) implies x < k && forall|y: usize|
        #[trigger] cache[x].contains(y) <==> y < k && dag_of(b).unrelated(x as int, y as int) by {
        assert forall|y: usize| #[trigger] cache[x].contains(y) <==> y < k && dag_of(b).unrelated(
            x as int,
            y as int,
        ) by {
            assert(dag_of(a).reaches(x as int, y as int) == dag_of(b).reaches(x as int, y as int));
            if y < k {
                assert(dag_of(a).reaches(y as int, x as int) == dag_of(b).reaches(
                    y as int,
                    x as int,
                ));
            }
        }
    }
}

/// The chain, the epochs and the recorded last pivot blocks stay right for the
/// first `k` blocks.
pub proof fn lemma_frame_chain(
    a: Seq<ConsensusGraphNode>,
    b: Seq<ConsensusGraphNode>,
    chain: Seq<usize>,
    k: nat,
)
    requires
        chain_ok(parents_of(a), chain),
        k == a.len(),
        same_origins(a, b, k),
    ensures
        chain_ok(parents_of(b), chain),
        forall|x: int, e: usize|
            #![trigger epoch_ok(dag_of(b), chain, x, e)]
            epoch_ok(dag_of(a), chain, x, e) == epoch_ok(dag_of(b), chain, x, e),
{
    lemma_same_below(a, b, k);
    assert forall|i: int| 0 < i < chain.len() implies parents_of(b)[(
    #[trigger] chain[i]) as int] == chain[i - 1] by {
        assert(same_origin(a[chain[i] as int], b[chain[i] as int]));
    }
    assert forall|x: int, e: usize|
        #![trigger epoch_ok(dag_of(b), chain, x, e)]
        epoch_ok(dag_of(a), chain, x, e) == epoch_ok(dag_of(b), chain, x, e) by {
        assert(chain[chain.len() - 1] < a.len());
        if e != usize::MAX {
            if 0 <= e < chain.len() {
                assert(chain[e as int] < a.len());
                if e > 0 {
                    assert(chain[e - 1] < a.len());
                }
            }
        }
    }
}

/// The metadata stay right for the first `k` blocks.
pub proof fn lemma_frame_tail(
    a: Seq<ConsensusGraphNode>,
    b: Seq<ConsensusGraphNode>,
    metadata: Seq<ConsensusGraphPivotData>,
    chain: Seq<usize>,
    k: nat,
)
    requires
        metadata_ok(a, metadata, chain, k),
        tip_ok(a, chain, k),
        same_origins(a, b, k),
        same_places(a, b, k),
        same_weights(a, b, k),
    ensures
        metadata_ok(b, metadata, chain, k),
        tip_ok(b, chain, k),
{
    reveal(metadata_ok);
    lemma_same_below(a, b, k);
    assert forall|x: int|
        0 <= x < k && #[trigger] ancestor(parents_of(b), chain.last() as int, x) && x
            != chain.last() implies b[x].data.partial_invalid by {
        assert(ancestor(parents_of(a), chain.last() as int, x));
        assert(same_weight(a[x], b[x]));
    }
    assert forall|x: int| 0 <= x < k implies metadata[(
    #[trigger] b[x]).last_pivot_in_past as int].last_pivot_in_past_blocks@.contains(
        x as usize,
    ) by {
        assert(same_place(a[x], b[x]));
    }
    assert forall|i: int, x: usize| 0 <= i < metadata.len() implies (
    #[trigger] metadata[i].last_pivot_in_past_blocks@.contains(x) <==> x < k && b[x as int]
        .last_pivot_in_past == i) by {
        if x < k {
            assert(same_place(a[x as int], b[x as int]));
        }
    }
}

} // verus!
