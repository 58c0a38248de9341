//! Graphs that took in the same blocks, each in its own order, agree.
//!
//! A block is known by its hash. In two graphs it may have different indices and
//! different neighbours, but where a hash names one block only, the past of the
//! block is the same in both.

use vstd::prelude::*;
use crate::arena::{dag_of, ConsensusGraphNode};
use crate::config::ConsensusInnerConfig;
use crate::dag::ancestor;
use crate::heaviest::{follows_heaviest, is_rival, leads};
use crate::model::{chain_ok, epoch_list_ok, in_own_epoch, in_subtree, links_ok, parents_of,
    subtree_weight, tip_ok, tree_weights, views_ok};
use crate::order::{distinct_hashes, is_best_source, is_source, is_topological_order,
    ordered_by_hash};
#[allow(unused_imports)]
use crate::order::lemma_indices_distinct;
use crate::queries::epochs_in_order;
use crate::rewards::epoch_hashes;
use crate::state::ConsensusGraphInner;
#[allow(unused_imports)]
use crate::state::lemma_node;
use crate::sums::{masked, sum_to};
#[allow(unused_imports)]
use crate::sums::{lemma_sum_changed_once, lemma_sum_congruent, lemma_sum_zero};
use crate::types::H256;

verus! {

/// `x` in the one graph and `y` in the other have the same hash.
pub open spec fn alike(
    a: Seq<ConsensusGraphNode>,
    x: int,
    b: Seq<ConsensusGraphNode>,
    y: int,
) -> bool {
    &&& 0 <= x < a.len()
    &&& 0 <= y < b.len()
    &&& a[x].hash == b[y].hash
}

/// The two blocks name the same parent and the same referees.
pub open spec fn refers_alike(
    a: Seq<ConsensusGraphNode>,
    x: int,
    b: Seq<ConsensusGraphNode>,
    y: int,
) -> bool {
    &&& x == 0 <==> y == 0
    &&& x > 0 ==> a[a[x].parent as int].hash == b[b[y].parent as int].hash
    &&& a[x].referees@.len() == b[y].referees@.len()
    &&& forall|j: int|
        0 <= j < a[x].referees@.len() ==> a[#[trigger] a[x].referees@[j] as int].hash
            == b[b[y].referees@[j] as int].hash
}

/// A hash names one block: what has the same hash in both graphs refers to the
/// same blocks.
pub open spec fn one_block_per_hash(
    a: Seq<ConsensusGraphNode>,
    b: Seq<ConsensusGraphNode>,
) -> bool {
    forall|x: int, y: int| #[trigger] alike(a, x, b, y) ==> refers_alike(a, x, b, y)
}

proof fn lemma_names_swapped(a: Seq<ConsensusGraphNode>, b: Seq<ConsensusGraphNode>)
    requires
        one_block_per_hash(a, b),
    ensures
        one_block_per_hash(b, a),
{
    assert forall|y: int, x: int| #[trigger] alike(b, y, a, x) implies refers_alike(
        b,
        y,
        a,
        x,
    ) by {
        assert(alike(a, x, b, y));
        assert forall|j: int| 0 <= j < b[y].referees@.len() implies b[
        #[trigger] b[y].referees@[j] as int].hash == a[a[x].referees@[j] as int].hash by {
            assert(a[a[x].referees@[j] as int].hash == b[b[y].referees@[j] as int].hash);
        }
    }
}

/// What a block refers to in the one graph it refers to in the other.
proof fn lemma_edge_mirrored(
    a: Seq<ConsensusGraphNode>,
    b: Seq<ConsensusGraphNode>,
    x: int,
    y: int,
    c: int,
) -> (d: int)
    requires
        links_ok(a),
        links_ok(b),
        one_block_per_hash(a, b),
        alike(a, x, b, y),
        dag_of(a).edge(x, c),
    ensures
        alike(a, c, b, d),
        dag_of(b).edge(y, d),
{
    lemma_node(a, x);
    lemma_node(b, y);
    assert(refers_alike(a, x, b, y));
    if a[x].parent == c {
        b[y].parent as int
    } else {
        let j = choose|j: int| 0 <= j < a[x].referees@.len() && a[x].referees@[j] == c as usize;
        assert(a[a[x].referees@[j] as int].hash == b[b[y].referees@[j] as int].hash);
        let d = b[y].referees@[j];
        assert(b[y].referees@.contains(d));
        d as int
    }
}

/// What a block sees in the one graph it sees in the other.
proof fn lemma_reach_mirrored(
    a: Seq<ConsensusGraphNode>,
    b: Seq<ConsensusGraphNode>,
    x: int,
    y: int,
    c: int,
) -> (d: int)
    requires
        links_ok(a),
        links_ok(b),
        one_block_per_hash(a, b),
        alike(a, x, b, y),
        dag_of(a).reaches(x, c),
    ensures
        alike(a, c, b, d),
        dag_of(b).reaches(y, d),
    decreases x,
{
    let g = dag_of(a);
    if x == c {
        y
    } else {
        let z = choose|z: int| #[trigger] g.edge(x, z) && 0 <= z < x && g.reaches(z, c);
        let w = lemma_edge_mirrored(a, b, x, y, z);
        let d = lemma_reach_mirrored(a, b, z, w, c);
        assert(dag_of(b).edge(y, w) && 0 <= w < y && dag_of(b).reaches(w, d));
        d
    }
}

/// The epoch that a block would close holds the same blocks in both graphs.
proof fn lemma_own_epoch_mirrored(
    a: Seq<ConsensusGraphNode>,
    b: Seq<ConsensusGraphNode>,
    x: int,
    y: int,
    c: int,
) -> (d: int)
    requires
        links_ok(a),
        links_ok(b),
        distinct_hashes(a),
        one_block_per_hash(a, b),
        alike(a, x, b, y),
        in_own_epoch(dag_of(a), x, c),
    ensures
        alike(a, c, b, d),
        in_own_epoch(dag_of(b), y, d),
{
    let d = lemma_reach_mirrored(a, b, x, y, c);
    lemma_node(a, x);
    lemma_node(b, y);
    assert(refers_alike(a, x, b, y));
    if d == y {
        assert(a[c].hash == a[x].hash);
    }
    if y > 0 && dag_of(b).reaches(dag_of(b).parent[y] as int, d) {
        let p = b[y].parent as int;
        let q = a[x].parent as int;
        lemma_names_swapped(a, b);
        assert(alike(b, p, a, q));
        let e = lemma_reach_mirrored(b, a, p, q, d);
        assert(a[e].hash == a[c].hash);
        assert(e == c);
    }
    d
}

/// A block of the other set has the same hash.
pub open spec fn has_twin(
    a: Seq<ConsensusGraphNode>,
    c: usize,
    b: Seq<ConsensusGraphNode>,
    t: Set<usize>,
) -> bool {
    exists|d: usize| #[trigger] t.contains(d) && alike(a, c as int, b, d as int)
}

/// Every block of the set has a block of the other set with the same hash.
pub open spec fn has_twins(
    a: Seq<ConsensusGraphNode>,
    s: Set<usize>,
    b: Seq<ConsensusGraphNode>,
    t: Set<usize>,
) -> bool {
    forall|c: usize| #[trigger] s.contains(c) ==> has_twin(a, c, b, t)
}

/// A block to which no block of the set refers has a twin of that kind.
proof fn lemma_source_mirrored(
    a: Seq<ConsensusGraphNode>,
    b: Seq<ConsensusGraphNode>,
    s: Set<usize>,
    t: Set<usize>,
    p: usize,
    q: usize,
)
    requires
        links_ok(a),
        links_ok(b),
        distinct_hashes(a),
        one_block_per_hash(a, b),
        has_twins(b, t, a, s),
        is_source(dag_of(a), s, p),
        t.contains(q),
        alike(a, p as int, b, q as int),
    ensures
        is_source(dag_of(b), t, q),
{
    assert forall|d: usize| #[trigger] t.contains(d) implies !dag_of(b).edge(
        d as int,
        q as int,
    ) by {
        if dag_of(b).edge(d as int, q as int) {
            assert(has_twin(b, d, a, s));
            let c = choose|c: usize| #[trigger] s.contains(c) && alike(b, d as int, a, c as int);
            lemma_names_swapped(a, b);
            let e = lemma_edge_mirrored(b, a, d as int, c as int, q as int);
            assert(a[e].hash == a[p as int].hash);
            assert(e == p);
        }
    }
}

/// An order without its last block is an order of the rest.
proof fn lemma_order_shortened(
    nodes: Seq<ConsensusGraphNode>,
    s: Set<usize>,
    list: Seq<usize>,
)
    requires
        is_topological_order(nodes, s, list),
        list.len() > 0,
    ensures
        is_best_source(nodes, s, list.last()),
        is_topological_order(nodes, s.remove(list.last()), list.drop_last()),
{
    let rest = list.drop_last();
    let last = list.last();
    assert(list.take(list.len() as int) =~= list);
    assert(is_best_source(nodes, list.take(list.len() - 1 + 1).to_set(), list[list.len() - 1]));
    assert(rest.to_set() =~= s.remove(last)) by {
        assert forall|c: usize| rest.to_set().contains(c) == s.remove(last).contains(c) by {
            if rest.contains(c) {
                let i = rest.index_of(c);
                assert(list[i] == c);
                assert(list.to_set().contains(c));
            }
            if s.contains(c) && c != last {
                assert(list.to_set().contains(c));
                let i = list.index_of(c);
                assert(rest[i] == c);
            }
        }
    }
    assert forall|i: int| 0 <= i < rest.len() implies is_best_source(
        nodes,
        rest.take(i + 1).to_set(),
        #[trigger] rest[i],
    ) by {
        assert(rest.take(i + 1) =~= list.take(i + 1));
        assert(is_best_source(nodes, list.take(i + 1).to_set(), list[i]));
    }
}

/// Two sets of the same blocks end with the same block.
proof fn lemma_same_last(
    a: Seq<ConsensusGraphNode>,
    b: Seq<ConsensusGraphNode>,
    s: Set<usize>,
    t: Set<usize>,
    p: usize,
    q: usize,
)
    requires
        links_ok(a),
        links_ok(b),
        distinct_hashes(a),
        distinct_hashes(b),
        one_block_per_hash(a, b),
        has_twins(a, s, b, t),
        has_twins(b, t, a, s),
        is_best_source(a, s, p),
        is_best_source(b, t, q),
    ensures
        alike(a, p as int, b, q as int),
{
    assert(has_twin(a, p, b, t));
    assert(has_twin(b, q, a, s));
    let p2 = choose|d: usize| #[trigger] t.contains(d) && alike(a, p as int, b, d as int);
    let q2 = choose|c: usize| #[trigger] s.contains(c) && alike(b, q as int, a, c as int);
    lemma_source_mirrored(a, b, s, t, p, p2);
    lemma_names_swapped(a, b);
    assert(is_source(dag_of(b), t, q));
    lemma_source_mirrored(b, a, t, s, q, q2);
}

/// The same blocks stand in the same order in both graphs.
proof fn lemma_orders_agree(
    a: Seq<ConsensusGraphNode>,
    b: Seq<ConsensusGraphNode>,
    s: Set<usize>,
    t: Set<usize>,
    la: Seq<usize>,
    lb: Seq<usize>,
)
    requires
        links_ok(a),
        links_ok(b),
        distinct_hashes(a),
        distinct_hashes(b),
        one_block_per_hash(a, b),
        has_twins(a, s, b, t),
        has_twins(b, t, a, s),
        is_topological_order(a, s, la),
        is_topological_order(b, t, lb),
    ensures
        la.len() == lb.len(),
        forall|i: int|
            0 <= i < la.len() ==> alike(a, (#[trigger] la[i]) as int, b, lb[i] as int),
    decreases la.len(),
{
    if la.len() == 0 {
        if lb.len() > 0 {
            assert(lb.to_set().contains(lb[0]));
            assert(has_twin(b, lb[0], a, s));
            let c = choose|c: usize| #[trigger] s.contains(c) && alike(b, lb[0] as int, a, c as int);
            assert(la.to_set().contains(c));
        }
    } else if lb.len() == 0 {
        assert(la.to_set().contains(la[0]));
        assert(has_twin(a, la[0], b, t));
        let d = choose|d: usize| #[trigger] t.contains(d) && alike(a, la[0] as int, b, d as int);
        assert(lb.to_set().contains(d));
    } else {
        let p = la.last();
        let q = lb.last();
        lemma_order_shortened(a, s, la);
        lemma_order_shortened(b, t, lb);
        lemma_same_last(a, b, s, t, p, q);
        let s2 = s.remove(p);
        let t2 = t.remove(q);
        assert forall|c: usize| #[trigger] s2.contains(c) implies has_twin(a, c, b, t2) by {
            assert(has_twin(a, c, b, t));
            let d = choose|d: usize| #[trigger] t.contains(d) && alike(a, c as int, b, d as int);
            assert(d != q) by {
                if d == q {
                    assert(a[c as int].hash == a[p as int].hash);
                }
            }
            assert(t2.contains(d));
        }
        assert forall|d: usize| #[trigger] t2.contains(d) implies has_twin(b, d, a, s2) by {
            assert(has_twin(b, d, a, s));
            let c = choose|c: usize| #[trigger] s.contains(c) && alike(b, d as int, a, c as int);
            assert(c != p) by {
                if c == p {
                    assert(b[d as int].hash == b[q as int].hash);
                }
            }
            assert(s2.contains(c));
        }
        lemma_orders_agree(a, b, s2, t2, la.drop_last(), lb.drop_last());
        assert forall|i: int| 0 <= i < la.len() implies alike(
            a,
            (#[trigger] la[i]) as int,
            b,
            lb[i] as int,
        ) by {
            if i < la.len() - 1 {
                assert(la.drop_last()[i] == la[i]);
                assert(lb.drop_last()[i] == lb[i]);
            }
        }
    }
}

/// The epoch that a block closes is the same list of blocks in every graph that
/// holds the block, whatever order the blocks came in.
pub proof fn lemma_epochs_agree(
    a: Seq<ConsensusGraphNode>,
    b: Seq<ConsensusGraphNode>,
    x: int,
    y: int,
)
    requires
        links_ok(a),
        links_ok(b),
        distinct_hashes(a),
        distinct_hashes(b),
        views_ok(a, a.len()),
        views_ok(b, b.len()),
        one_block_per_hash(a, b),
        alike(a, x, b, y),
    ensures
        epoch_hashes(a, x) == epoch_hashes(b, y),
{
    let s = a[x].data.blockset_in_own_view_of_epoch@;
    let t = b[y].data.blockset_in_own_view_of_epoch@;
    let la = a[x].data.ordered_epoch_blocks@;
    let lb = b[y].data.ordered_epoch_blocks@;
    assert(epoch_list_ok(dag_of(a), x, la) && epoch_list_ok(dag_of(b), y, lb) && ordered_by_hash(
        a,
        x,
    ) && ordered_by_hash(b, y)) by {
        reveal(views_ok);
    }
    assert forall|c: usize| #[trigger] s.contains(c) implies has_twin(a, c, b, t) by {
        assert(in_own_epoch(dag_of(a), x, c as int)) by {
            reveal(views_ok);
        }
        let d = lemma_own_epoch_mirrored(a, b, x, y, c as int);
        lemma_node(b, y);
        assert(t.contains(d as usize)) by {
            reveal(views_ok);
        }
    }
    assert forall|d: usize| #[trigger] t.contains(d) implies has_twin(b, d, a, s) by {
        assert(in_own_epoch(dag_of(b), y, d as int)) by {
            reveal(views_ok);
        }
        lemma_names_swapped(a, b);
        assert(alike(b, y, a, x));
        let c = lemma_own_epoch_mirrored(b, a, y, x, d as int);
        lemma_node(a, x);
        assert(s.contains(c as usize)) by {
            reveal(views_ok);
        }
    }
    lemma_orders_agree(a, b, s, t, la.drop_last(), lb.drop_last());
    assert forall|i: int| 0 <= i < la.len() implies a[(#[trigger] la[i]) as int].hash
        == b[lb[i] as int].hash by {
        if i < la.len() - 1 {
            assert(la.drop_last()[i] == la[i]);
            assert(lb.drop_last()[i] == lb[i]);
            assert(alike(a, la.drop_last()[i] as int, b, lb.drop_last()[i] as int));
        }
    }
    assert(epoch_hashes(a, x) =~= epoch_hashes(b, y));
}

/// The hashes of the blocks of the epochs of a chain, in order.
pub open spec fn order_of(nodes: Seq<ConsensusGraphNode>, chain: Seq<usize>) -> Seq<H256> {
    epochs_in_order(nodes, chain).map_values(|i: usize| nodes[i as int].hash)
}

/// Chains with the same tip give the same order.
proof fn lemma_chain_orders_agree(
    a: Seq<ConsensusGraphNode>,
    b: Seq<ConsensusGraphNode>,
    ca: Seq<usize>,
    cb: Seq<usize>,
)
    requires
        links_ok(a),
        links_ok(b),
        distinct_hashes(a),
        distinct_hashes(b),
        views_ok(a, a.len()),
        views_ok(b, b.len()),
        one_block_per_hash(a, b),
        chain_ok(parents_of(a), ca),
        chain_ok(parents_of(b), cb),
        alike(a, ca.last() as int, b, cb.last() as int),
    ensures
        ca.len() == cb.len(),
        forall|i: int|
            0 <= i < ca.len() ==> alike(a, (#[trigger] ca[i]) as int, b, cb[i] as int),
        order_of(a, ca) == order_of(b, cb),
    decreases ca.len(),
{
    let x = ca.last() as int;
    let y = cb.last() as int;
    let ha = |i: usize| a[i as int].hash;
    let hb = |i: usize| b[i as int].hash;
    lemma_node(a, x);
    lemma_node(b, y);
    assert(refers_alike(a, x, b, y));
    lemma_epochs_agree(a, b, x, y);
    let ra = ca.drop_last();
    let rb = cb.drop_last();
    let ea = a[x].data.ordered_epoch_blocks@;
    let eb = b[y].data.ordered_epoch_blocks@;
    assert(epochs_in_order(a, ca) == epochs_in_order(a, ra) + ea);
    assert(epochs_in_order(b, cb) == epochs_in_order(b, rb) + eb);
    assert(ca[ca.len() - 1] == x && cb[cb.len() - 1] == y);
    if ca.len() > 1 {
        assert(parents_of(a)[ca[ca.len() - 1] as int] == ca[ca.len() - 2]);
        assert(ca[ca.len() - 2] < parents_of(a).len());
    }
    if cb.len() > 1 {
        assert(parents_of(b)[cb[cb.len() - 1] as int] == cb[cb.len() - 2]);
        assert(cb[cb.len() - 2] < parents_of(b).len());
    }
    if ca.len() > 1 && cb.len() > 1 {
        assert(ra.last() == ca[ca.len() - 2]);
        assert(rb.last() == cb[cb.len() - 2]);
        lemma_chain_shortened(parents_of(a), ca);
        lemma_chain_shortened(parents_of(b), cb);
        lemma_chain_orders_agree(a, b, ra, rb);
        assert forall|i: int| 0 <= i < ca.len() implies alike(
            a,
            (#[trigger] ca[i]) as int,
            b,
            cb[i] as int,
        ) by {
            if i < ca.len() - 1 {
                assert(ra[i] == ca[i] && rb[i] == cb[i]);
            }
        }
    } else {
        assert(ca.len() == 1 && cb.len() == 1);
        assert(epochs_in_order(a, ra) =~= Seq::<usize>::empty());
        assert(epochs_in_order(b, rb) =~= Seq::<usize>::empty());
    }
    assert(order_of(a, ca) =~= order_of(a, ra) + ea.map_values(ha));
    assert(order_of(b, cb) =~= order_of(b, rb) + eb.map_values(hb));
    assert(order_of(a, ra) == order_of(b, rb)) by {
        if ca.len() == 1 {
            assert(order_of(a, ra) =~= Seq::<H256>::empty());
            assert(order_of(b, rb) =~= Seq::<H256>::empty());
        }
    }
    assert(ea.map_values(ha) == epoch_hashes(a, x));
    assert(eb.map_values(hb) == epoch_hashes(b, y));
}

/// A chain without its tip is a chain.
proof fn lemma_chain_shortened(parent: Seq<usize>, chain: Seq<usize>)
    requires
        chain_ok(parent, chain),
        chain.len() > 1,
    ensures
        chain_ok(parent, chain.drop_last()),
{
    let rest = chain.drop_last();
    assert forall|i: int, j: int|
        #![trigger rest[i], rest[j]]
        0 <= i && j == i + 1 && j < rest.len() implies parent[rest[j] as int] == rest[i] by {
        assert(rest[i] == chain[i] && rest[j] == chain[j]);
    }
    assert forall|i: int| 0 <= i < rest.len() implies (#[trigger] rest[i]) < parent.len() by {
        assert(rest[i] == chain[i]);
    }
}

/// Two graphs whose pivot chains end with the same block have the same pivot
/// chain and put all blocks into the same order, whatever order the blocks came
/// in and whatever else either graph holds.
pub proof fn lemma_same_tip_same_order(a: ConsensusGraphInner, b: ConsensusGraphInner)
    requires
        a.base_ok(),
        b.base_ok(),
        one_block_per_hash(a.nodes(), b.nodes()),
        a.nodes()[a.pivot_chain@.last() as int].hash
            == b.nodes()[b.pivot_chain@.last() as int].hash,
    ensures
        a.pivot_chain@.map_values(|i: usize| a.nodes()[i as int].hash)
            == b.pivot_chain@.map_values(|i: usize| b.nodes()[i as int].hash),
        order_of(a.nodes(), a.pivot_chain@) == order_of(b.nodes(), b.pivot_chain@),
{
    let ca = a.pivot_chain@;
    let cb = b.pivot_chain@;
    lemma_indices_distinct(a.nodes(), a.indices@);
    lemma_indices_distinct(b.nodes(), b.indices@);
    assert(ca[ca.len() - 1] < a.parents().len());
    assert(cb[cb.len() - 1] < b.parents().len());
    lemma_chain_orders_agree(a.nodes(), b.nodes(), ca, cb);
    assert forall|i: int| 0 <= i < ca.len() implies a.nodes()[(#[trigger] ca[i]) as int].hash
        == b.nodes()[cb[i] as int].hash by {
        assert(alike(a.nodes(), ca[i] as int, b.nodes(), cb[i] as int));
    }
    assert(ca.map_values(|i: usize| a.nodes()[i as int].hash) =~= cb.map_values(
        |i: usize| b.nodes()[i as int].hash,
    ));
}

/// `j` is the image of one of the first `k` indices.
pub open spec fn is_hit(phi: spec_fn(int) -> int, k: int, j: int) -> bool {
    exists|i: int| 0 <= i < k && #[trigger] phi(i) == j
}

/// The images of the first `k` indices add up to what these do.
proof fn lemma_hits_summed(
    f: spec_fn(int) -> int,
    g: spec_fn(int) -> int,
    phi: spec_fn(int) -> int,
    k: nat,
    m: nat,
)
    requires
        forall|i: int| 0 <= i < k ==> 0 <= #[trigger] phi(i) < m && f(i) == g(phi(i)),
        forall|i: int, j: int|
            0 <= i < j < k ==> #[trigger] phi(i) != #[trigger] phi(j),
    ensures
        sum_to(f, k) == sum_to(masked(|j: int| is_hit(phi, k as int, j), g), m),
    decreases k,
{
    let after = masked(|j: int| is_hit(phi, k as int, j), g);
    if k == 0 {
        lemma_sum_zero(after, m);
    } else {
        let before = masked(|j: int| is_hit(phi, k - 1, j), g);
        lemma_hits_summed(f, g, phi, (k - 1) as nat, m);
        let at = phi(k - 1);
        assert(!is_hit(phi, k - 1, at));
        assert(is_hit(phi, k as int, at));
        assert forall|j: int| 0 <= j < m && j != at implies #[trigger] before(j) == after(j) by {
            if is_hit(phi, k as int, j) {
                let i = choose|i: int| 0 <= i < k && #[trigger] phi(i) == j;
                assert(i != k - 1);
            }
            if is_hit(phi, k - 1, j) {
                let i = choose|i: int| 0 <= i < k - 1 && #[trigger] phi(i) == j;
                assert(0 <= i < k);
            }
        }
        lemma_sum_changed_once(before, after, m, at);
        assert(f(k - 1) == g(at));
    }
}

/// A sum does not change when its terms are numbered otherwise.
proof fn lemma_sum_renumbered(
    f: spec_fn(int) -> int,
    g: spec_fn(int) -> int,
    phi: spec_fn(int) -> int,
    n: nat,
    m: nat,
)
    requires
        forall|i: int| 0 <= i < n ==> 0 <= #[trigger] phi(i) < m && f(i) == g(phi(i)),
        forall|i: int, j: int|
            0 <= i < j < n ==> #[trigger] phi(i) != #[trigger] phi(j),
        forall|j: int| 0 <= j < m ==> #[trigger] is_hit(phi, n as int, j),
    ensures
        sum_to(f, n) == sum_to(g, m),
{
    lemma_hits_summed(f, g, phi, n, m);
    let all = masked(|j: int| is_hit(phi, n as int, j), g);
    assert forall|j: int| 0 <= j < m implies #[trigger] all(j) == g(j) by {
        assert(is_hit(phi, n as int, j));
    }
    lemma_sum_congruent(all, g, m);
}

/// A block of the other graph has the same hash.
pub open spec fn is_held(a: Seq<ConsensusGraphNode>, x: int, b: Seq<ConsensusGraphNode>) -> bool {
    exists|y: int| #[trigger] alike(a, x, b, y)
}

/// The index that the block `x` of the one graph has in the other.
pub open spec fn twin_of(a: Seq<ConsensusGraphNode>, b: Seq<ConsensusGraphNode>, x: int) -> int {
    choose|y: int| #[trigger] alike(a, x, b, y)
}

/// The two graphs hold the same blocks, found equally valid and equally heavy.
pub open spec fn same_blocks(
    conf: ConsensusInnerConfig,
    a: Seq<ConsensusGraphNode>,
    b: Seq<ConsensusGraphNode>,
) -> bool {
    &&& forall|x: int| 0 <= x < a.len() ==> #[trigger] is_held(a, x, b)
    &&& forall|y: int| 0 <= y < b.len() ==> #[trigger] is_held(b, y, a)
    &&& forall|x: int, y: int| #[trigger]
        alike(a, x, b, y) ==> a[x].data.partial_invalid == b[y].data.partial_invalid
            && tree_weights(conf, a)(x) == tree_weights(conf, b)(y)
}

/// A block has the same ancestors in both graphs.
proof fn lemma_ancestor_mirrored(
    a: Seq<ConsensusGraphNode>,
    b: Seq<ConsensusGraphNode>,
    x: int,
    y: int,
    i: int,
    j: int,
)
    requires
        links_ok(a),
        links_ok(b),
        distinct_hashes(a),
        distinct_hashes(b),
        one_block_per_hash(a, b),
        alike(a, x, b, y),
        alike(a, i, b, j),
    ensures
        ancestor(parents_of(a), x, i) == ancestor(parents_of(b), y, j),
    decreases i,
{
    lemma_node(a, i);
    lemma_node(b, j);
    assert(refers_alike(a, i, b, j));
    assert(x == i <==> y == j);
    if i > 0 {
        lemma_ancestor_mirrored(a, b, x, y, a[i].parent as int, b[j].parent as int);
    }
}

/// A subtree weighs the same in both graphs.
proof fn lemma_subtree_alike(
    conf: ConsensusInnerConfig,
    a: Seq<ConsensusGraphNode>,
    b: Seq<ConsensusGraphNode>,
    x: int,
    y: int,
)
    requires
        links_ok(a),
        links_ok(b),
        distinct_hashes(a),
        distinct_hashes(b),
        one_block_per_hash(a, b),
        same_blocks(conf, a, b),
        alike(a, x, b, y),
    ensures
        subtree_weight(conf, a, a.len(), x) == subtree_weight(conf, b, b.len(), y),
{
    let f = masked(in_subtree(parents_of(a), x), tree_weights(conf, a));
    let g = masked(in_subtree(parents_of(b), y), tree_weights(conf, b));
    let phi = |i: int| twin_of(a, b, i);
    assert forall|i: int| 0 <= i < a.len() implies 0 <= #[trigger] phi(i) < b.len() && f(i) == g(
        phi(i),
    ) by {
        assert(is_held(a, i, b));
        let j = twin_of(a, b, i);
        assert(alike(a, i, b, j));
        lemma_ancestor_mirrored(a, b, x, y, i, j);
    }
    assert forall|i: int, j: int| 0 <= i < j < a.len() implies #[trigger] phi(i) != #[trigger] phi(
        j,
    ) by {
        assert(is_held(a, i, b) && is_held(a, j, b));
        assert(alike(a, i, b, twin_of(a, b, i)));
        assert(alike(a, j, b, twin_of(a, b, j)));
    }
    assert forall|j: int| 0 <= j < b.len() implies #[trigger] is_hit(phi, a.len() as int, j) by {
        assert(is_held(b, j, a));
        let i = choose|i: int| #[trigger] alike(b, j, a, i);
        assert(is_held(a, i, b)) by {
            assert(alike(a, i, b, j));
        }
        assert(alike(a, i, b, twin_of(a, b, i)));
        assert(phi(i) == j);
    }
    lemma_sum_renumbered(f, g, phi, a.len(), b.len());
}

/// All blocks of the chain are fully valid.
pub open spec fn is_valid_chain(nodes: Seq<ConsensusGraphNode>, chain: Seq<usize>) -> bool {
    forall|i: int|
        0 < i < chain.len() ==> !nodes[(#[trigger] chain[i]) as int].data.partial_invalid
}

/// The child of a block of the chain in the one graph, in the other graph.
proof fn lemma_child_mirrored(
    a: Seq<ConsensusGraphNode>,
    b: Seq<ConsensusGraphNode>,
    u: int,
    v: int,
    x: int,
) -> (y: int)
    requires
        links_ok(a),
        links_ok(b),
        distinct_hashes(b),
        one_block_per_hash(a, b),
        alike(a, u, b, v),
        0 < x < a.len(),
        a[x].parent == u,
        is_held(a, x, b),
    ensures
        alike(a, x, b, y),
        0 < y,
        b[y].parent == v,
{
    let y = choose|y: int| #[trigger] alike(a, x, b, y);
    lemma_node(a, x);
    assert(refers_alike(a, x, b, y));
    lemma_node(b, y);
    y
}

/// The chains run alongside each other.
proof fn lemma_chains_alike(a: ConsensusGraphInner, b: ConsensusGraphInner, i: int)
    requires
        a.wf(),
        b.wf(),
        a.inner_conf == b.inner_conf,
        distinct_hashes(a.nodes()),
        distinct_hashes(b.nodes()),
        one_block_per_hash(a.nodes(), b.nodes()),
        same_blocks(a.inner_conf, a.nodes(), b.nodes()),
        follows_heaviest(a.inner_conf, a.nodes(), a.pivot_chain@),
        follows_heaviest(b.inner_conf, b.nodes(), b.pivot_chain@),
        is_valid_chain(a.nodes(), a.pivot_chain@),
        is_valid_chain(b.nodes(), b.pivot_chain@),
        0 <= i < a.pivot_chain@.len(),
    ensures
        i < b.pivot_chain@.len(),
        alike(a.nodes(), a.pivot_chain@[i] as int, b.nodes(), b.pivot_chain@[i] as int),
    decreases i,
{
    let conf = a.inner_conf;
    let na = a.nodes();
    let nb = b.nodes();
    let ca = a.pivot_chain@;
    let cb = b.pivot_chain@;
    assert(ca[0] < a.parents().len());
    assert(cb[0] < b.parents().len());
    if i == 0 {
        assert(is_held(na, 0, nb));
        let y = choose|y: int| #[trigger] alike(na, 0, nb, y);
        assert(refers_alike(na, 0, nb, y));
    } else {
        lemma_chains_alike(a, b, i - 1);
        let u = ca[i - 1] as int;
        let v = cb[i - 1] as int;
        let x = ca[i] as int;
        assert(ca[i] < a.parents().len());
        assert(a.parents()[ca[i] as int] == ca[i - 1]);
        lemma_node(na, x);
        assert(x > 0);
        assert(is_held(na, x, nb));
        let y = lemma_child_mirrored(na, nb, u, v, x);
        lemma_node(nb, y);
        assert(!nb[y].data.partial_invalid);
        if cb.len() == i {
            assert(ancestor(b.parents(), v, v));
            assert(ancestor(b.parents(), cb.last() as int, y));
            assert(tip_ok(nb, cb, b.size()));
        } else {
            let z = cb[i] as int;
            assert(cb[i] < b.parents().len());
            assert(b.parents()[cb[i] as int] == cb[i - 1]);
            lemma_node(nb, z);
            assert(z > 0);
            if z != y {
                assert(is_rival(nb, cb, i - 1, y));
                assert(leads(conf, nb, z, y));
                lemma_names_swapped(na, nb);
                assert(is_held(nb, z, na));
                assert(alike(nb, v, na, u));
                let w = lemma_child_mirrored(nb, na, v, u, z);
                assert(alike(na, w, nb, z));
                assert(!na[w].data.partial_invalid);
                assert(w != x);
                assert(is_rival(na, ca, i - 1, w));
                assert(leads(conf, na, x, w));
                lemma_subtree_alike(conf, na, nb, x, y);
                lemma_subtree_alike(conf, na, nb, w, z);
            }
        }
    }
}

/// Two graphs that hold the same blocks, found equally valid and equally heavy,
/// have the same pivot chain and put the blocks into the same order, whatever
/// order the blocks came in, as long as no partially invalid block got onto a
/// chain for want of a valid one.
pub proof fn lemma_same_blocks_same_order(a: ConsensusGraphInner, b: ConsensusGraphInner)
    requires
        a.wf(),
        b.wf(),
        a.inner_conf == b.inner_conf,
        one_block_per_hash(a.nodes(), b.nodes()),
        same_blocks(a.inner_conf, a.nodes(), b.nodes()),
        follows_heaviest(a.inner_conf, a.nodes(), a.pivot_chain@),
        follows_heaviest(b.inner_conf, b.nodes(), b.pivot_chain@),
        is_valid_chain(a.nodes(), a.pivot_chain@),
        is_valid_chain(b.nodes(), b.pivot_chain@),
    ensures
        a.pivot_chain@.map_values(|i: usize| a.nodes()[i as int].hash)
            == b.pivot_chain@.map_values(|i: usize| b.nodes()[i as int].hash),
        order_of(a.nodes(), a.pivot_chain@) == order_of(b.nodes(), b.pivot_chain@),
{
    let na = a.nodes();
    let nb = b.nodes();
    let ca = a.pivot_chain@;
    let cb = b.pivot_chain@;
    lemma_indices_distinct(na, a.indices@);
    lemma_indices_distinct(nb, b.indices@);
    lemma_names_swapped(na, nb);
    assert(same_blocks(b.inner_conf, nb, na)) by {
        assert forall|y: int, x: int| #[trigger] alike(nb, y, na, x) implies nb[y].data
            .partial_invalid == na[x].data.partial_invalid && tree_weights(b.inner_conf, nb)(y)
            == tree_weights(b.inner_conf, na)(x) by {
            assert(alike(na, x, nb, y));
        }
    }
    lemma_chains_alike(a, b, ca.len() - 1);
    lemma_chains_alike(b, a, cb.len() - 1);
    assert(ca.len() == cb.len());
    assert(ca.last() == ca[ca.len() - 1] && cb.last() == cb[cb.len() - 1]);
    lemma_same_tip_same_order(a, b);
}

} // verus!
