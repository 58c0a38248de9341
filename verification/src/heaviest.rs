//! The pivot chain follows the heaviest branch.

use vstd::prelude::*;
use crate::arena::ConsensusGraphNode;
use crate::config::ConsensusInnerConfig;
use crate::consensus::{settled, took_in, ConsensusGraph, PendingBlock};
use crate::dag::{ancestor, ancestor_at_depth, depth};
#[allow(unused_imports)]
use crate::dag::{lemma_ancestor_at_depth, lemma_ancestor_depth, lemma_ancestor_earlier,
    lemma_ancestor_transitive, lemma_ancestor_unique, lemma_ancestors_chain};
use crate::finish::{flagged, PivotUpdate};
#[allow(unused_imports)]
use crate::frames::lemma_frame_subtree;
use crate::frames::{same_origins, same_weights};
use crate::model::{chain_ok, limits_ok, links_ok, parents_of, subtree_weight, tip_ok};
use crate::order::distinct_hashes;
#[allow(unused_imports)]
use crate::order::{lemma_edges_listed, lemma_indices_distinct};
use crate::path_tree::is_lowest_common_ancestor;
use crate::pivot::{is_heaviest_child, pivot_step, pivot_step_at, subtree_weights};
use crate::state::ConsensusGraphInner;
#[allow(unused_imports)]
use crate::state::{lemma_node, lemma_weight_bounds};
#[allow(unused_imports)]
use crate::trees::lemma_subtree_step;
use crate::types::BlockHeader;
use crate::validity::heavier;
#[allow(unused_imports)]
use crate::validity::{lemma_chain_index, lemma_heavier_total, lemma_heavier_transitive};

verus! {

/// `d` could stand on the chain in place of the block after the `i`-th: it has
/// the same parent and is fully valid.
pub open spec fn is_rival(
    nodes: Seq<ConsensusGraphNode>,
    chain: Seq<usize>,
    i: int,
    d: int,
) -> bool {
    &&& 0 <= i < chain.len() - 1
    &&& 0 < d < nodes.len()
    &&& nodes[d].parent == chain[i]
    &&& d != chain[i + 1]
    &&& !nodes[d].data.partial_invalid
}

/// The subtree of `x` is heavier than that of `d`.
pub open spec fn leads(
    conf: ConsensusInnerConfig,
    nodes: Seq<ConsensusGraphNode>,
    x: int,
    d: int,
) -> bool {
    heavier(
        subtree_weight(conf, nodes, nodes.len(), x),
        nodes[x].hash,
        subtree_weight(conf, nodes, nodes.len(), d),
        nodes[d].hash,
    )
}

/// At every block of the chain, the chain goes on into the heaviest of the
/// fully valid branches.
pub open spec fn follows_heaviest(
    conf: ConsensusInnerConfig,
    nodes: Seq<ConsensusGraphNode>,
    chain: Seq<usize>,
) -> bool {
    forall|i: int, d: int| #[trigger]
        is_rival(nodes, chain, i, d) ==> leads(conf, nodes, chain[i + 1] as int, d)
}

/// The nodes `c` are the nodes `a` with one block more.
pub open spec fn one_more(
    a: Seq<ConsensusGraphNode>,
    c: Seq<ConsensusGraphNode>,
) -> bool {
    &&& c.len() == a.len() + 1
    &&& a.len() > 0
    &&& same_origins(a, c, a.len())
    &&& same_weights(a, c, a.len())
    &&& forall|i: int| #![trigger a[i]] #![trigger c[i]] 0 <= i < a.len() ==> a[i].hash == c[i].hash
}

/// A new block adds its weight to its ancestors and to no other block.
proof fn lemma_weights_added(
    conf: ConsensusInnerConfig,
    a: Seq<ConsensusGraphNode>,
    c: Seq<ConsensusGraphNode>,
    x: int,
)
    requires
        one_more(a, c),
        limits_ok(conf, c),
    ensures
        ancestor(parents_of(c), x, a.len() as int) ==> subtree_weight(conf, c, c.len(), x)
            >= subtree_weight(conf, a, a.len(), x),
        !ancestor(parents_of(c), x, a.len() as int) || c[a.len() as int].data.partial_invalid
            ==> subtree_weight(conf, c, c.len(), x) == subtree_weight(conf, a, a.len(), x),
{
    let me = a.len();
    lemma_subtree_step(conf, c, me, x);
    lemma_frame_subtree(conf, a, c, me, x);
    lemma_weight_bounds(conf, c, me as int);
}

/// The blocks of the chain up to where a new block leaves it are above the new
/// block, and the later ones are not.
proof fn lemma_above_new(par: Seq<usize>, chain: Seq<usize>, me: int, lca: int, i: int)
    requires
        crate::dag::rooted(par),
        chain_ok(par, chain),
        0 <= me < par.len(),
        is_lowest_common_ancestor(par, chain.last() as int, me, lca),
        0 <= i < chain.len(),
    ensures
        ancestor(par, chain[i] as int, me) <==> i <= depth(par, lca),
        depth(par, chain[i] as int) == i,
        depth(par, lca) < chain.len(),
        chain[depth(par, lca) as int] == lca,
{
    let last = chain.last() as int;
    let at = depth(par, lca) as int;
    lemma_chain_index(par, chain, chain.len() - 1);
    lemma_chain_index(par, chain, i);
    lemma_ancestor_depth(par, lca, last);
    lemma_ancestor_unique(par, lca, last);
    assert(ancestor(par, chain[at] as int, last));
    lemma_chain_index(par, chain, at);
    lemma_ancestor_unique(par, chain[at] as int, last);
    assert(chain[at] == lca);
    assert(ancestor(par, chain[i] as int, last));
    if i <= at {
        lemma_ancestors_chain(par, chain[i] as int, lca, last);
        lemma_ancestor_transitive(par, chain[i] as int, lca, me);
    }
    if ancestor(par, chain[i] as int, me) {
        assert(ancestor(par, chain[i] as int, lca));
        lemma_ancestor_earlier(par, lca, me);
        lemma_ancestor_depth(par, chain[i] as int, lca);
    }
}

/// A block whose parent is at some depth is one deeper, and no other block of
/// its depth is above what it is above.
proof fn lemma_beside(par: Seq<usize>, x: int, d: int, me: int)
    requires
        crate::dag::rooted(par),
        0 < x < par.len(),
        0 < d < par.len(),
        0 <= me < par.len(),
        par[x] == par[d],
        x != d,
        ancestor(par, x, me),
    ensures
        !ancestor(par, d, me),
        depth(par, x) == depth(par, d),
{
    if ancestor(par, d, me) {
        lemma_ancestor_unique(par, x, me);
        lemma_ancestor_unique(par, d, me);
    }
}

/// What the preservation of `follows_heaviest` rests on.
pub open spec fn pivot_moved(
    conf: ConsensusInnerConfig,
    a: Seq<ConsensusGraphNode>,
    c: Seq<ConsensusGraphNode>,
    chain: Seq<usize>,
    next: Seq<usize>,
    fork_at: int,
    fully_valid: bool,
) -> bool {
    let me = a.len() as int;
    &&& links_ok(a)
    &&& links_ok(c)
    &&& limits_ok(conf, c)
    &&& distinct_hashes(c)
    &&& one_more(a, c)
    &&& chain_ok(parents_of(a), chain)
    &&& tip_ok(a, chain, a.len())
    &&& c[me].data.partial_invalid == !fully_valid
    &&& pivot_step(
        c,
        subtree_weights(conf, c, c.len()),
        chain,
        me,
        fully_valid,
        next,
        fork_at,
    )
}

/// An old block is a rival after the new block came exactly where it was one
/// before.
proof fn lemma_rival_before(
    a: Seq<ConsensusGraphNode>,
    c: Seq<ConsensusGraphNode>,
    chain: Seq<usize>,
    i: int,
    d: int,
)
    requires
        one_more(a, c),
        is_rival(c, chain, i, d),
        d < a.len(),
    ensures
        is_rival(a, chain, i, d),
{
    assert(crate::frames::same_origin(a[d], c[d]));
    assert(crate::frames::same_weight(a[d], c[d]));
}

/// An old lead stays when the leader is above the new block and its rival is
/// not, or neither is.
proof fn lemma_lead_kept(
    conf: ConsensusInnerConfig,
    a: Seq<ConsensusGraphNode>,
    c: Seq<ConsensusGraphNode>,
    x: int,
    d: int,
)
    requires
        one_more(a, c),
        limits_ok(conf, c),
        0 <= x < a.len(),
        0 <= d < a.len(),
        leads(conf, a, x, d),
        c[a.len() as int].data.partial_invalid || !ancestor(parents_of(c), d, a.len() as int),
    ensures
        leads(conf, c, x, d),
{
    lemma_weights_added(conf, a, c, x);
    lemma_weights_added(conf, a, c, d);
    assert(a[x].hash == c[x].hash);
    assert(a[d].hash == c[d].hash);
}

/// A block below the old part of the graph.
proof fn lemma_chain_old(
    a: Seq<ConsensusGraphNode>,
    c: Seq<ConsensusGraphNode>,
    chain: Seq<usize>,
)
    requires
        links_ok(a),
        links_ok(c),
        one_more(a, c),
        chain_ok(parents_of(a), chain),
    ensures
        chain_ok(parents_of(c), chain),
        crate::dag::rooted(parents_of(c)),
        forall|i: int| 0 <= i < chain.len() ==> (#[trigger] chain[i]) < a.len(),
{
    lemma_node(c, 0);
    lemma_node(a, 0);
    let pa = parents_of(a);
    let pc = parents_of(c);
    assert forall|i: int, j: int|
        #![trigger chain[i], chain[j]]
        0 <= i && j == i + 1 && j < chain.len() implies pc[chain[j] as int] == chain[i] by {
        assert(pa[chain[j] as int] == chain[i]);
        assert(crate::frames::same_origin(a[chain[j] as int], c[chain[j] as int]));
    }
}

proof fn lemma_extended_leads(
    conf: ConsensusInnerConfig,
    a: Seq<ConsensusGraphNode>,
    c: Seq<ConsensusGraphNode>,
    chain: Seq<usize>,
    next: Seq<usize>,
    i: int,
    d: int,
)
    requires
        pivot_moved(conf, a, c, chain, next, chain.len() as int, true),
        follows_heaviest(conf, a, chain),
        c[a.len() as int].parent == chain.last(),
        is_rival(c, next, i, d),
    ensures
        leads(conf, c, next[i + 1] as int, d),
{
    let me = a.len() as int;
    let par = parents_of(c);
    lemma_chain_old(a, c, chain);
    lemma_node(c, me);
    lemma_node(c, d);
    assert(next == chain.push(me as usize));
    lemma_chain_index(par, chain, chain.len() - 1);
    if i == chain.len() - 1 {
        // The other children of the old tip are partially invalid.
        assert(d < me);
        assert(crate::frames::same_origin(a[d], c[d]));
        assert(crate::frames::same_weight(a[d], c[d]));
        lemma_node(a, d);
        let pa = parents_of(a);
        assert(ancestor(pa, chain.last() as int, d)) by {
            assert(pa[d] == chain.last());
            assert(ancestor(pa, chain.last() as int, pa[d] as int));
        }
        assert(false);
    } else {
        let x = next[i + 1] as int;
        assert(next[i] == chain[i] && next[i + 1] == chain[i + 1]);
        lemma_chain_index(par, chain, i);
        lemma_chain_index(par, chain, i + 1);
        assert(ancestor(par, chain[i + 1] as int, chain[chain.len() - 1] as int));
        assert(ancestor(par, x, me)) by {
            assert(par[me] == chain.last());
        }
        if d == me {
            assert(chain[i] == chain.last());
        }
        lemma_rival_before(a, c, chain, i, d);
        assert(leads(conf, a, x, d));
        lemma_node(c, x);
        assert(par[x] == chain[i]);
        lemma_ancestor_depth(par, x, me);
        lemma_beside(par, x, d, me);
        lemma_lead_kept(conf, a, c, x, d);
    }
}

#[verifier::rlimit(40)]
proof fn lemma_forked_leads(
    conf: ConsensusInnerConfig,
    a: Seq<ConsensusGraphNode>,
    c: Seq<ConsensusGraphNode>,
    chain: Seq<usize>,
    next: Seq<usize>,
    fork_at: int,
    lca: int,
    i: int,
    d: int,
)
    requires
        pivot_moved(conf, a, c, chain, next, fork_at, true),
        follows_heaviest(conf, a, chain),
        c[a.len() as int].parent != chain.last(),
        is_lowest_common_ancestor(
            parents_of(c),
            chain.last() as int,
            a.len() as int,
            lca,
        ),
        pivot_step_at(
            c,
            subtree_weights(conf, c, c.len()),
            chain,
            a.len() as int,
            next,
            fork_at,
            lca,
        ),
        is_rival(c, next, i, d),
    ensures
        leads(conf, c, next[i + 1] as int, d),
{
    let me = a.len() as int;
    let par = parents_of(c);
    let w = subtree_weights(conf, c, c.len());
    lemma_chain_old(a, c, chain);
    lemma_node(c, me);
    lemma_node(c, d);
    let at = depth(par, lca) as int + 1;
    let new = ancestor_at_depth(par, me, at as nat);
    let prev = chain[at] as int;
    lemma_above_new(par, chain, me, lca, at);
    lemma_above_new(par, chain, me, lca, at - 1);
    lemma_ancestor_depth(par, lca, me);
    assert(lca != me) by {
        assert(chain[at - 1] < a.len());
    }
    lemma_ancestor_at_depth(par, me, at as nat);
    lemma_node(c, new);
    lemma_node(c, prev);
    assert(par[prev] == chain[at - 1]) by {
        assert(chain[at - 1] == lca);
    }
    assert(par[new] == lca) by {
        let above = par[new] as int;
        assert(depth(par, above) == at - 1);
        assert(ancestor(par, above, above));
        assert(ancestor(par, above, new));
        lemma_ancestor_transitive(par, above, new, me);
        lemma_ancestor_unique(par, above, me);
        lemma_ancestor_unique(par, lca, me);
    }
    assert(new != prev);
    let moved = heavier(w(new), c[new].hash, w(prev), c[prev].hash);
    if moved {
        assert forall|j: int| 0 <= j < at implies next[j] == chain[j] by {
            assert(next.take(at)[j] == chain.take(at)[j]);
        }
    }
    let x = next[i + 1] as int;
    if i + 1 < at {
        assert(next[i] == chain[i] && next[i + 1] == chain[i + 1]);
        lemma_above_new(par, chain, me, lca, i + 1);
        lemma_above_new(par, chain, me, lca, i);
        lemma_node(c, x);
        assert(par[x] == chain[i]);
        if d == me {
            // The new block is deeper than its branch.
            lemma_ancestor_depth(par, new, me);
            assert(depth(par, me) == i + 1);
        }
        lemma_rival_before(a, c, chain, i, d);
        assert(leads(conf, a, x, d));
        lemma_beside(par, x, d, me);
        lemma_lead_kept(conf, a, c, x, d);
    } else if i + 1 == at {
        assert(next[i] == chain[i]);
        assert(chain[i] == lca);
        assert(d != new ==> d != me) by {
            if d == me {
                assert(par[me] == lca);
                assert(depth(par, me) == at);
                lemma_ancestor_unique(par, me, me);
            }
        }
        if moved {
            assert(x == new);
            if d != prev {
                assert(d < me);
                assert(is_rival(c, chain, i, d));
                lemma_rival_before(a, c, chain, i, d);
                assert(leads(conf, a, prev, d));
                lemma_beside(par, new, d, me);
                lemma_lead_kept(conf, a, c, prev, d);
                lemma_heavier_transitive(
                    w(new),
                    c[new].hash,
                    w(prev),
                    c[prev].hash,
                    w(d),
                    c[d].hash,
                );
            }
        } else {
            assert(x == prev);
            if d == new {
                assert(c[new].hash != c[prev].hash);
                lemma_heavier_total(w(new), c[new].hash, w(prev), c[prev].hash);
            } else {
                lemma_rival_before(a, c, chain, i, d);
                assert(leads(conf, a, prev, d));
                lemma_beside(par, new, d, me);
                lemma_lead_kept(conf, a, c, prev, d);
            }
        }
    } else if moved {
        let tail = next.skip(at);
        let j = i - at;
        assert(tail[j] == next[i] && tail[j + 1] == next[i + 1]);
        assert(is_heaviest_child(c, w, tail[j] as int, tail[j + 1]));
        lemma_edges_listed(c, d, next[i] as int);
        lemma_children_hold(c, next[i] as int, d);
        assert(c[next[i] as int].children@.contains(d as usize));
    } else {
        assert(next == chain);
        lemma_above_new(par, chain, me, lca, i);
        lemma_above_new(par, chain, me, lca, i + 1);
        if d == me {
            assert(ancestor(par, chain[i] as int, me)) by {
                assert(ancestor(par, chain[i] as int, par[me] as int));
            }
        }
        lemma_rival_before(a, c, chain, i, d);
        assert(leads(conf, a, x, d));
        if ancestor(par, d, me) {
            assert(ancestor(par, chain[i] as int, par[d] as int));
            assert(ancestor(par, chain[i] as int, d));
            lemma_ancestor_transitive(par, chain[i] as int, d, me);
        }
        lemma_lead_kept(conf, a, c, x, d);
    }
}

proof fn lemma_children_hold(nodes: Seq<ConsensusGraphNode>, p: int, d: int)
    requires
        links_ok(nodes),
        0 < d < nodes.len(),
        nodes[d].parent == p,
    ensures
        nodes[p].children@.contains(d as usize),
{
    reveal(links_ok);
    assert(nodes[nodes[d].parent as int].children@.contains(d as usize));
}

/// The pivot chain keeps following the heaviest branch when a block comes in.
pub proof fn lemma_stays_heaviest(
    conf: ConsensusInnerConfig,
    a: Seq<ConsensusGraphNode>,
    c: Seq<ConsensusGraphNode>,
    chain: Seq<usize>,
    next: Seq<usize>,
    fork_at: int,
    fully_valid: bool,
)
    requires
        pivot_moved(conf, a, c, chain, next, fork_at, fully_valid),
        follows_heaviest(conf, a, chain),
    ensures
        follows_heaviest(conf, c, next),
{
    let me = a.len() as int;
    assert forall|i: int, d: int| #[trigger] is_rival(c, next, i, d) implies leads(
        conf,
        c,
        next[i + 1] as int,
        d,
    ) by {
        if !fully_valid {
            lemma_rival_before(a, c, chain, i, d);
            lemma_chain_old(a, c, chain);
            assert(chain[i + 1] < a.len());
            lemma_lead_kept(conf, a, c, chain[i + 1] as int, d);
        } else if c[me].parent == chain.last() {
            lemma_extended_leads(conf, a, c, chain, next, i, d);
        } else {
            let lca = choose|lca: int| #[trigger]
                is_lowest_common_ancestor(parents_of(c), chain.last() as int, me, lca)
                    && pivot_step_at(
                    c,
                    subtree_weights(conf, c, c.len()),
                    chain,
                    me,
                    next,
                    fork_at,
                    lca,
                );
            lemma_forked_leads(conf, a, c, chain, next, fork_at, lca, i, d);
        }
    }
}

/// The pivot chain always follows the heaviest branch: it does so after a block
/// was taken in and settled if it did before.
pub proof fn lemma_pivot_follows_heaviest(
    before: ConsensusGraph,
    pending: ConsensusGraph,
    after: ConsensusGraph,
    block: BlockHeader,
    p: PendingBlock,
    fully_valid: bool,
    r: PivotUpdate,
)
    requires
        before.wf(),
        follows_heaviest(
            before.inner.inner_conf,
            before.inner.nodes(),
            before.inner.pivot_chain@,
        ),
        took_in(before, pending, block),
        pending.pending(p),
        settled(pending, after, p, fully_valid, r),
        after.wf(),
    ensures
        follows_heaviest(
            after.inner.inner_conf,
            after.inner.nodes(),
            after.inner.pivot_chain@,
        ),
{
    let a = before.inner.nodes();
    let b = pending.inner.nodes();
    let c = after.inner.nodes();
    let me = a.len() as int;
    assert(p.me == me);
    lemma_indices_distinct(c, after.inner.indices@);
    assert(before.inner.pivot_chain@[0] < a.len());
    let d = b.update(me, flagged(b[me], p.stable, p.adaptive, !fully_valid));
    assert forall|i: int| #![trigger a[i]] #![trigger c[i]] 0 <= i < a.len() implies a[i].hash
        == c[i].hash && crate::frames::same_origin(a[i], c[i]) && crate::frames::same_weight(
        a[i],
        c[i],
    ) by {
        assert(b[i].hash == a[i].hash);
        assert(d[i] == b[i]);
        assert(c[i].hash == d[i].hash);
    }
    assert(c[me].data.partial_invalid == d[me].data.partial_invalid);
    assert(one_more(a, c));
    lemma_stays_heaviest(
        after.inner.inner_conf,
        a,
        c,
        before.inner.pivot_chain@,
        after.inner.pivot_chain@,
        r.fork_at as int,
        fully_valid,
    );
}

/// The chain of the genesis block alone follows the heaviest branch.
pub proof fn lemma_genesis_follows_heaviest(graph: ConsensusGraph)
    requires
        graph.inner.pivot_chain@ == seq![0usize],
    ensures
        follows_heaviest(
            graph.inner.inner_conf,
            graph.inner.nodes(),
            graph.inner.pivot_chain@,
        ),
{
}

/// The chain that is built for a whole graph at once follows the heaviest
/// branch.
pub proof fn lemma_built_follows_heaviest(graph: ConsensusGraph)
    requires
        graph.inner.ready(),
        graph.inner.is_pivot_to_be(graph.inner.pivot_chain@),
    ensures
        follows_heaviest(
            graph.inner.inner_conf,
            graph.inner.nodes(),
            graph.inner.pivot_chain@,
        ),
{
    let nodes = graph.inner.nodes();
    let chain = graph.inner.pivot_chain@;
    let w = subtree_weights(graph.inner.inner_conf, nodes, nodes.len());
    assert forall|i: int, d: int| #[trigger] is_rival(nodes, chain, i, d) implies leads(
        graph.inner.inner_conf,
        nodes,
        chain[i + 1] as int,
        d,
    ) by {
        assert(is_heaviest_child(nodes, w, chain[i] as int, chain[i + 1]));
        lemma_children_hold(nodes, chain[i] as int, d);
        assert(nodes[chain[i] as int].children@.contains(d as usize));
    }
}

/// No partially invalid block hangs beside or below the chain.
pub open spec fn none_astray(nodes: Seq<ConsensusGraphNode>, chain: Seq<usize>) -> bool {
    forall|i: int, d: int|
        #![trigger chain[i], nodes[d]]
        0 <= i < chain.len() && 0 < d < nodes.len() && nodes[d].parent == chain[i]
            && nodes[d].data.partial_invalid ==> i + 1 < chain.len() && chain[i + 1] == d
}

/// A graph that is rebuilt from storage has the pivot chain that it had: the
/// chain that follows the heaviest branch is the one that would be built for the
/// whole graph, unless a partially invalid block hangs beside or below it.
pub proof fn lemma_rebuilt_chain_agrees(inner: ConsensusGraphInner)
    requires
        inner.wf(),
        follows_heaviest(inner.inner_conf, inner.nodes(), inner.pivot_chain@),
        none_astray(inner.nodes(), inner.pivot_chain@),
    ensures
        inner.is_pivot_to_be(inner.pivot_chain@),
{
    let conf = inner.inner_conf;
    let nodes = inner.nodes();
    let chain = inner.pivot_chain@;
    let par = inner.parents();
    let w = subtree_weights(conf, nodes, nodes.len());
    assert forall|i: int, j: int|
        #![trigger chain[i], chain[j]]
        0 <= i && j == i + 1 && j < chain.len() implies is_heaviest_child(
        nodes,
        w,
        chain[i] as int,
        chain[j],
    ) by {
        let c = chain[j] as int;
        assert(chain[j] < par.len());
        assert(chain[i] < par.len());
        lemma_node(nodes, c);
        assert(par[c] == chain[i]);
        lemma_node(nodes, chain[i] as int);
        assert(c > 0);
        lemma_children_hold(nodes, chain[i] as int, c);
        assert forall|d: usize| #[trigger]
            nodes[chain[i] as int].children@.contains(d) && d != chain[j] implies heavier(
            w(c),
            nodes[c].hash,
            w(d as int),
            nodes[d as int].hash,
        ) by {
            lemma_children_parent(nodes, chain[i] as int, d);
            if nodes[d as int].data.partial_invalid {
                assert(chain[i + 1] == d);
            }
            assert(is_rival(nodes, chain, i, d as int));
            assert(leads(conf, nodes, chain[i + 1] as int, d as int));
        }
    }
    let tip = chain.last() as int;
    assert(chain[chain.len() - 1] < par.len());
    assert(nodes[tip].children@.len() == 0) by {
        if nodes[tip].children@.len() > 0 {
            let d = nodes[tip].children@[0];
            assert(nodes[tip].children@.contains(d));
            lemma_children_parent(nodes, tip, d);
            lemma_node(nodes, d as int);
            assert(par[d as int] == tip);
            assert(ancestor(par, tip, d as int)) by {
                assert(ancestor(par, tip, par[d as int] as int));
            }
            assert(nodes[d as int].data.partial_invalid);
            assert(chain[chain.len() - 1] == nodes[d as int].parent);
        }
    }
}

proof fn lemma_children_parent(nodes: Seq<ConsensusGraphNode>, p: int, d: usize)
    requires
        links_ok(nodes),
        0 <= p < nodes.len(),
        nodes[p].children@.contains(d),
    ensures
        p < d < nodes.len(),
        nodes[d as int].parent == p,
{
    let j = choose|j: int| 0 <= j < nodes[p].children@.len() && nodes[p].children@[j] == d;
    lemma_node(nodes, p);
    reveal(links_ok);
    assert(nodes[nodes[p].children@[j] as int].parent == p);
}

} // verus!
