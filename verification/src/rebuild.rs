//! A graph that is rebuilt from stored blocks at once is the graph that came
//! about block by block.

use vstd::prelude::*;
use crate::adaptive::{stable_weights_without, weights_without};
#[allow(unused_imports)]
use crate::anticone::{barrier_of, lemma_chain_sees};
use crate::arena::{dag_of, ConsensusGraphNode};
use crate::arrival::{block_adaptivity, plain_stable_weights, plain_weights, seen_table};
use crate::brutal::table;
use crate::config::{ConsensusConfig, ConsensusInnerConfig, ProofOfWorkConfig};
use crate::consensus::{took_in, ConsensusGraph};
#[allow(unused_imports)]
use crate::dag::{ancestor, lemma_reaches_transitive};
use crate::finish::{flagged, same_but_places};
#[allow(unused_imports)]
use crate::frames::{lemma_frame_subtree, same_origin, same_weight};
use crate::frames::{same_origins, same_recorded, same_weights};
use crate::graph::{chain_built, restored};
#[allow(unused_imports)]
use crate::history::{arrived, lemma_always_follows_heaviest, lemma_always_heaviest_path,
    lemma_blocks_counted, lemma_seen_same, lemma_shorter};
use crate::history::{all_valid, is_history, is_new_graph, tip_difficulty, Arrival};
#[allow(unused_imports)]
use crate::model::{epoch_ok, epochs_ok, in_era_past, in_past, past_weights_ok, weight_of, weights};
use crate::model::{links_ok, parents_of, subtree_weight};
#[allow(unused_imports)]
use crate::order::lemma_indices_distinct;
use crate::pivot::{is_heaviest_child, is_heaviest_path, subtree_weights};
#[allow(unused_imports)]
use crate::pivot::{lemma_heaviest_path_links, lemma_heaviest_path_unique};
#[allow(unused_imports)]
use crate::removal::not_below;
#[allow(unused_imports)]
use crate::rule::lemma_adaptivity_same;
use crate::state::ConsensusGraphInner;
#[allow(unused_imports)]
use crate::state::lemma_node;
#[allow(unused_imports)]
use crate::sums::{lemma_sum_congruent, masked};
use crate::types::{BlockHeader, H256, U256};

verus! {

/// The same blocks with the same links and the same weights. Where they are on a
/// pivot chain may differ.
pub open spec fn alike(a: Seq<ConsensusGraphNode>, b: Seq<ConsensusGraphNode>) -> bool {
    &&& a.len() == b.len()
    &&& same_origins(a, b, a.len())
    &&& same_weights(a, b, a.len())
    &&& forall|i: int|
        #![trigger a[i]]
        #![trigger b[i]]
        0 <= i < a.len() ==> a[i].hash == b[i].hash && a[i].height == b[i].height
            && a[i].children@ == b[i].children@
}

/// The states of a graph into which stored blocks are taken again, from the first
/// block alone on.
pub open spec fn is_restoring(
    conf: ConsensusConfig,
    pow_config: ProofOfWorkConfig,
    genesis: BlockHeader,
    states: Seq<ConsensusGraph>,
    mids: Seq<ConsensusGraph>,
    blocks: Seq<BlockHeader>,
) -> bool {
    &&& states.len() == blocks.len() + 1
    &&& mids.len() == blocks.len()
    &&& is_new_graph(states[0], conf, pow_config, genesis)
    &&& forall|i: int|
        #![trigger blocks[i]]
        0 <= i < blocks.len() ==> restored_valid(states[i], mids[i], states[i + 1], blocks[i])
            && states[i + 1].rebuilding()
}

/// A stored block that is not marked as partially invalid was taken in again.
pub open spec fn restored_valid(
    before: ConsensusGraph,
    mid: ConsensusGraph,
    after: ConsensusGraph,
    block: BlockHeader,
) -> bool {
    restored(before, mid, after, block, Some(false)) || restored(before, mid, after, block, None)
}

/// The pivot chain was built for all blocks at once, and the difficulty was set
/// for its tip.
pub open spec fn built_at_once(
    before: ConsensusGraph,
    after: ConsensusGraph,
    target: spec_fn(H256) -> U256,
) -> bool {
    &&& after.wf()
    &&& before.inner.is_pivot_to_be(after.inner.pivot_chain@)
    &&& same_but_places(before.inner.nodes(), after.inner.nodes())
    &&& after == (ConsensusGraph {
        inner: ConsensusGraphInner {
            arena: after.inner.arena,
            pivot_chain: after.inner.pivot_chain,
            pivot_chain_metadata: after.inner.pivot_chain_metadata,
            current_difficulty: tip_difficulty(after.inner, target),
            ..before.inner
        },
        ..before
    })
}

/// The chain is built at once by `construct_pivot`, and by setting the difficulty
/// that follows the period if one ended.
pub proof fn lemma_built_at_once(
    before: ConsensusGraph,
    built: ConsensusGraph,
    after: ConsensusGraph,
    period_end: Option<H256>,
    target: spec_fn(H256) -> U256,
)
    requires
        built.wf(),
        chain_built(before, built, period_end),
        after == (ConsensusGraph {
            inner: ConsensusGraphInner {
                current_difficulty: (match period_end {
                    Some(hash) => target(hash),
                    None => built.inner.current_difficulty,
                }),
                ..built.inner
            },
            ..built
        }),
    ensures
        built_at_once(before, after, target),
{
    let chain = built.inner.pivot_chain@;
    let tip = chain.last() as int;
    assert(chain[chain.len() - 1] < built.inner.parents().len());
    assert(built.inner.nodes()[tip].height == before.inner.nodes()[tip].height);
}

/// Graphs that are alike are the same as graphs.
proof fn lemma_alike(a: Seq<ConsensusGraphNode>, b: Seq<ConsensusGraphNode>)
    requires
        alike(a, b),
    ensures
        dag_of(a) == dag_of(b),
        parents_of(a) == parents_of(b),
{
    assert forall|i: int| 0 <= i < a.len() implies same_origin(a[i], b[i]) by {}
    assert(dag_of(a).parent =~= dag_of(b).parent);
    assert(dag_of(a).referees =~= dag_of(b).referees);
}

/// In graphs that are alike the same weights are recorded.
proof fn lemma_alike_recorded(
    conf: ConsensusInnerConfig,
    a: Seq<ConsensusGraphNode>,
    b: Seq<ConsensusGraphNode>,
)
    requires
        alike(a, b),
        past_weights_ok(conf, a, a.len()),
        past_weights_ok(conf, b, b.len()),
    ensures
        same_recorded(a, b, a.len()),
{
    lemma_alike(a, b);
    reveal(past_weights_ok);
    let g = dag_of(a);
    assert forall|x: int| #![trigger a[x]] #![trigger b[x]] 0 <= x < a.len() implies
        crate::frames::same_records(a[x], b[x]) by {
        let p = masked(in_past(g, x), weights(conf, a));
        let q = masked(in_past(g, x), weights(conf, b));
        let r = masked(in_era_past(g, x), weights(conf, a));
        let s = masked(in_era_past(g, x), weights(conf, b));
        assert forall|y: int| 0 <= y < x implies #[trigger] p(y) == q(y) by {
            assert(same_weight(a[y], b[y]));
        }
        assert forall|y: int| 0 <= y < x implies #[trigger] r(y) == s(y) by {
            assert(same_weight(a[y], b[y]));
        }
        lemma_sum_congruent(p, q, x as nat);
        lemma_sum_congruent(r, s, x as nat);
    }
}

/// In graphs that are alike the newest block is stable in both or in none, and
/// adaptive in both or in none.
proof fn lemma_alike_adaptivity(
    conf: ConsensusInnerConfig,
    a: Seq<ConsensusGraphNode>,
    b: Seq<ConsensusGraphNode>,
    me: int,
)
    requires
        alike(a, b),
        links_ok(a),
        past_weights_ok(conf, a, a.len()),
        past_weights_ok(conf, b, b.len()),
        0 < me == a.len() - 1,
    ensures
        block_adaptivity(conf, a, me) == block_adaptivity(conf, b, me),
{
    lemma_alike(a, b);
    lemma_alike_recorded(conf, a, b);
    lemma_node(a, me);
    let par = parents_of(a);
    let barrier = barrier_of(dag_of(a), me);
    let wide = barrier.insert(me);
    let parent = a[me].parent as int;
    let difficulty = a[me].difficulty.value();
    assert(same_origin(a[me], b[me]) && same_weight(a[me], b[me]));
    assert forall|i: int| 0 <= i <= parent implies (#[trigger] a[i]).parent == b[i].parent
        && a[i].past_era_weight == b[i].past_era_weight && weight_of(conf, a[i]) == weight_of(
        conf,
        b[i],
    ) by {
        assert(same_weight(a[i], b[i]) && same_origin(a[i], b[i]));
        assert(crate::frames::same_records(a[i], b[i]));
    }
    // Taken out of the trees.
    let w = weights_without(conf, a, barrier, me as nat);
    let sw = stable_weights_without(conf, a, barrier, me as nat);
    let v = weights_without(conf, b, barrier, me as nat);
    let sv = stable_weights_without(conf, b, barrier, me as nat);
    assert forall|x: int| #[trigger] ancestor(par, x, parent) implies w(x) == v(x) && sw(x)
        == sv(x) by {
        lemma_seen_same(conf, a, b, barrier, me as nat, x);
    }
    lemma_adaptivity_same(conf, a, b, (w, w, sw), (v, v, sv), parent, difficulty);
    // Summed up block by block.
    let tw = seen_table(a, me, plain_weights(conf, a));
    let ts = seen_table(a, me, plain_stable_weights(conf, a));
    let uw = seen_table(b, me, plain_weights(conf, b));
    let us = seen_table(b, me, plain_stable_weights(conf, b));
    assert forall|x: int| #![trigger tw[x]] 0 <= x < a.len() implies tw[x] == uw[x] && ts[x]
        == us[x] by {
        let seen = |y: int| ancestor(par, x, y) && not_below(par, wide, y);
        let p = masked(seen, plain_weights(conf, a));
        let q = masked(seen, plain_weights(conf, b));
        let r = masked(seen, plain_stable_weights(conf, a));
        let s = masked(seen, plain_stable_weights(conf, b));
        assert forall|y: int| 0 <= y < a.len() implies #[trigger] p(y) == q(y) by {
            assert(same_weight(a[y], b[y]));
        }
        assert forall|y: int| 0 <= y < a.len() implies #[trigger] r(y) == s(y) by {
            assert(same_weight(a[y], b[y]));
        }
        lemma_sum_congruent(p, q, a.len());
        lemma_sum_congruent(r, s, a.len());
    }
    assert(tw =~= uw);
    assert(ts =~= us) by {
        assert forall|x: int| 0 <= x < a.len() implies ts[x] == us[x] by {
            assert(tw[x] == uw[x]);
        }
    }
    lemma_adaptivity_same(
        conf,
        a,
        b,
        (table(tw), table(tw), table(ts)),
        (table(uw), table(uw), table(us)),
        parent,
        difficulty,
    );
}

/// The newest block has no children.
proof fn lemma_newest_childless(nodes: Seq<ConsensusGraphNode>, me: int)
    requires
        links_ok(nodes),
        0 <= me == nodes.len() - 1,
    ensures
        nodes[me].children@ == Seq::<usize>::empty(),
{
    if nodes[me].children@.len() > 0 {
        let c = nodes[me].children@[0];
        assert(c < nodes.len() && nodes[c as int].parent == me) by {
            reveal(links_ok);
        }
        lemma_node(nodes, c as int);
    }
    assert(nodes[me].children@ =~= Seq::<usize>::empty());
}

/// A block comes into two graphs that are alike: they stay alike.
proof fn lemma_taken_in_alike(
    g: ConsensusGraph,
    gm: ConsensusGraph,
    r: ConsensusGraph,
    rm: ConsensusGraph,
    block: BlockHeader,
)
    requires
        alike(g.inner.nodes(), r.inner.nodes()),
        g.inner.indices@ == r.inner.indices@,
        g.inner.inner_conf == r.inner.inner_conf,
        took_in(g, gm, block),
        took_in(r, rm, block),
        gm.inner.linked(g.inner.size() as int),
        rm.inner.linked(r.inner.size() as int),
    ensures
        alike(gm.inner.nodes(), rm.inner.nodes()),
{
    let a = g.inner.nodes();
    let b = r.inner.nodes();
    let c = gm.inner.nodes();
    let d = rm.inner.nodes();
    let me = a.len() as int;
    lemma_newest_childless(c, me);
    lemma_newest_childless(d, me);
    assert forall|i: int| #![trigger c[i]] #![trigger d[i]] 0 <= i < c.len() implies {
        &&& same_origin(c[i], d[i])
        &&& same_weight(c[i], d[i])
        &&& c[i].hash == d[i].hash
        &&& c[i].height == d[i].height
        &&& c[i].children@ == d[i].children@
    } by {
        if i < me {
            assert(same_origin(a[i], b[i]) && same_weight(a[i], b[i]));
            assert(c[i].hash == a[i].hash && d[i].hash == b[i].hash);
            assert(c[i].referees == a[i].referees && d[i].referees == b[i].referees);
        }
    }
}

/// One block arrives in one graph and is taken again into the other: graphs that
/// are alike stay so.
#[verifier::spinoff_prover]
proof fn lemma_step_alike(
    g: ConsensusGraph,
    x: Arrival,
    next: ConsensusGraph,
    target: spec_fn(H256) -> U256,
    r: ConsensusGraph,
    rm: ConsensusGraph,
    after: ConsensusGraph,
)
    requires
        g.wf(),
        alike(g.inner.nodes(), r.inner.nodes()),
        g.inner.indices@ == r.inner.indices@,
        g.inner.terminal_hashes@ == r.inner.terminal_hashes@,
        g.inner.inner_conf == r.inner.inner_conf,
        arrived(g, x, next, target),
        x.fully_valid,
        restored_valid(r, rm, after, x.block),
    ensures
        alike(next.inner.nodes(), after.inner.nodes()),
        next.inner.indices@ == after.inner.indices@,
        next.inner.terminal_hashes@ == after.inner.terminal_hashes@,
        next.inner.inner_conf == after.inner.inner_conf,
{
    let conf = g.inner.inner_conf;
    let gm = x.pending;
    let me = g.inner.size() as int;
    let c = gm.inner.nodes();
    let d = rm.inner.nodes();
    lemma_taken_in_alike(g, gm, r, rm, x.block);
    lemma_alike_adaptivity(conf, c, d, me);
    let e = c.update(me, flagged(c[me], x.p.stable, x.p.adaptive, false));
    let y = x.carried.inner.nodes();
    let z = after.inner.nodes();
    assert(next.inner.nodes() == y);
    assert forall|i: int| #![trigger y[i]] #![trigger z[i]] 0 <= i < y.len() implies {
        &&& same_origin(y[i], z[i])
        &&& same_weight(y[i], z[i])
        &&& y[i].hash == z[i].hash
        &&& y[i].height == z[i].height
        &&& y[i].children@ == z[i].children@
    } by {
        assert(same_origin(c[i], d[i]) && same_weight(c[i], d[i]));
        assert(y[i].hash == e[i].hash);
        if i != me {
            assert(e[i] == c[i]);
            assert(z[i] == d[i]);
        }
    }
}

/// The states of a graph that came about block by block and of one into which the
/// same blocks are taken again are alike.
proof fn lemma_restored_alike(
    conf: ConsensusConfig,
    pow_config: ProofOfWorkConfig,
    genesis: BlockHeader,
    states: Seq<ConsensusGraph>,
    arrivals: Seq<Arrival>,
    target: spec_fn(H256) -> U256,
    others: Seq<ConsensusGraph>,
    mids: Seq<ConsensusGraph>,
    blocks: Seq<BlockHeader>,
)
    requires
        is_history(conf, pow_config, genesis, states, arrivals, target),
        all_valid(arrivals),
        is_restoring(conf, pow_config, genesis, others, mids, blocks),
        arrivals.len() == blocks.len(),
        forall|i: int| 0 <= i < blocks.len() ==> (#[trigger] arrivals[i]).block == blocks[i],
    ensures
        alike(states.last().inner.nodes(), others.last().inner.nodes()),
        states.last().inner.indices@ == others.last().inner.indices@,
        states.last().inner.terminal_hashes@ == others.last().inner.terminal_hashes@,
        states.last().inner.inner_conf == others.last().inner.inner_conf,
        states.last().inner.pow_config == others.last().inner.pow_config,
        others.last().inner.ready(),
    decreases blocks.len(),
{
    lemma_blocks_counted(conf, pow_config, genesis, states, arrivals, target);
    if blocks.len() > 0 {
        let n = blocks.len() - 1;
        let s = states.drop_last();
        let t = arrivals.drop_last();
        let o = others.drop_last();
        let m = mids.drop_last();
        let b = blocks.drop_last();
        lemma_shorter(conf, pow_config, genesis, states, arrivals, target);
        lemma_blocks_counted(conf, pow_config, genesis, s, t, target);
        assert forall|i: int| #![trigger b[i]] 0 <= i < b.len() implies restored_valid(
            o[i],
            m[i],
            o[i + 1],
            b[i],
        ) && o[i + 1].rebuilding() by {
            assert(b[i] == blocks[i]);
        }
        assert forall|i: int| 0 <= i < b.len() implies (#[trigger] t[i]).block == b[i] by {
            assert(t[i] == arrivals[i]);
        }
        lemma_restored_alike(conf, pow_config, genesis, s, t, target, o, m, b);
        assert(arrived(states[n], arrivals[n], states[n + 1], target));
        assert(arrivals[n].block == blocks[n]);
        assert(restored_valid(others[n], mids[n], others[n + 1], blocks[n]));
        lemma_step_alike(
            states[n],
            arrivals[n],
            states[n + 1],
            target,
            others[n],
            mids[n],
            others[n + 1],
        );
    } else {
        lemma_newest_childless(states[0].inner.nodes(), 0);
        lemma_newest_childless(others[0].inner.nodes(), 0);
        lemma_node(states[0].inner.nodes(), 0);
        lemma_node(others[0].inner.nodes(), 0);
    }
}

/// In graphs that are alike the heaviest path is the same.
proof fn lemma_alike_path(
    conf: ConsensusInnerConfig,
    a: Seq<ConsensusGraphNode>,
    b: Seq<ConsensusGraphNode>,
    list: Seq<usize>,
)
    requires
        alike(a, b),
        links_ok(a),
        links_ok(b),
        is_heaviest_path(a, subtree_weights(conf, a, a.len()), list),
        list[0] < a.len(),
    ensures
        is_heaviest_path(b, subtree_weights(conf, b, b.len()), list),
{
    let u = subtree_weights(conf, a, a.len());
    let w = subtree_weights(conf, b, b.len());
    assert forall|x: int| #[trigger] u(x) == w(x) by {
        lemma_frame_subtree(conf, a, b, a.len(), x);
    }
    assert forall|i: int| 0 <= i < list.len() implies (#[trigger] list[i]) < a.len() by {
        lemma_heaviest_path_links(a, u, list, i);
    }
    assert forall|i: int, j: int|
        #![trigger list[i], list[j]]
        0 <= i && j == i + 1 && j < list.len() implies is_heaviest_child(
        b,
        w,
        list[i] as int,
        list[j],
    ) by {
        let p = list[i] as int;
        let c = list[j];
        assert(is_heaviest_child(a, u, p, c));
        assert(a[p].children@ == b[p].children@);
        assert(a[c as int].hash == b[c as int].hash);
        assert forall|k: usize| a[p].children@.contains(k) implies k < a.len() by {
            let at = a[p].children@.index_of(k);
            assert(a[p].children@[at] < a.len()) by {
                reveal(links_ok);
            }
        }
    }
    assert(a[list.last() as int].children@ == b[list.last() as int].children@);
}

/// A block has one epoch on a chain.
proof fn lemma_one_epoch(
    nodes: Seq<ConsensusGraphNode>,
    chain: Seq<usize>,
    x: int,
    e: usize,
    f: usize,
)
    requires
        links_ok(nodes),
        crate::model::chain_ok(parents_of(nodes), chain),
        epoch_ok(dag_of(nodes), chain, x, e),
        epoch_ok(dag_of(nodes), chain, x, f),
    ensures
        e == f,
{
    let g = dag_of(nodes);
    if e != f {
        let (low, high) = if e < f {
            (e, f)
        } else {
            (f, e)
        };
        assert(g.well_formed()) by {
            reveal(links_ok);
        }
        if high == crate::dag::NULL {
            lemma_chain_sees(g, chain, low as int, chain.len() - 1);
            lemma_reaches_transitive(
                g,
                chain.last() as int,
                chain[low as int] as int,
                x,
            );
        } else {
            lemma_chain_sees(g, chain, low as int, high - 1);
            lemma_reaches_transitive(g, chain[high - 1] as int, chain[low as int] as int, x);
        }
    }
}

/// A graph that is rebuilt from stored blocks, all of them fully valid, is the
/// graph that came about when the same blocks came in one by one in the same
/// order: it has the same pivot chain and the same tips, every block has the same
/// hash, links, recorded weights and epoch and is stable and adaptive as it was,
/// every subtree weighs what it did, and the difficulty for blocks to come is the
/// same.
pub proof fn lemma_rebuilt_graph_agrees(
    conf: ConsensusConfig,
    pow_config: ProofOfWorkConfig,
    genesis: BlockHeader,
    states: Seq<ConsensusGraph>,
    arrivals: Seq<Arrival>,
    target: spec_fn(H256) -> U256,
    others: Seq<ConsensusGraph>,
    mids: Seq<ConsensusGraph>,
    blocks: Seq<BlockHeader>,
    rebuilt: ConsensusGraph,
)
    requires
        is_history(conf, pow_config, genesis, states, arrivals, target),
        all_valid(arrivals),
        is_restoring(conf, pow_config, genesis, others, mids, blocks),
        arrivals.len() == blocks.len(),
        forall|i: int| 0 <= i < blocks.len() ==> (#[trigger] arrivals[i]).block == blocks[i],
        built_at_once(others.last(), rebuilt, target),
    ensures
        ({
            let grown = states.last().inner;
            &&& rebuilt.inner.pivot_chain@ == grown.pivot_chain@
            &&& rebuilt.inner.indices@ == grown.indices@
            &&& rebuilt.inner.terminal_hashes@ == grown.terminal_hashes@
            &&& rebuilt.inner.current_difficulty == grown.current_difficulty
            &&& alike(grown.nodes(), rebuilt.inner.nodes())
            &&& same_recorded(grown.nodes(), rebuilt.inner.nodes(), grown.size())
            &&& forall|i: int|
                #![trigger rebuilt.inner.nodes()[i]]
                #![trigger grown.nodes()[i]]
                0 <= i < grown.size() ==> {
                    &&& rebuilt.inner.nodes()[i].hash == grown.nodes()[i].hash
                    &&& rebuilt.inner.nodes()[i].data.epoch_number
                        == grown.nodes()[i].data.epoch_number
                    &&& rebuilt.inner.nodes()[i].stable == grown.nodes()[i].stable
                    &&& rebuilt.inner.nodes()[i].adaptive == grown.nodes()[i].adaptive
                }
            &&& forall|x: int| #[trigger]
                subtree_weight(rebuilt.inner.inner_conf, rebuilt.inner.nodes(), grown.size(), x)
                    == subtree_weight(grown.inner_conf, grown.nodes(), grown.size(), x)
        }),
{
    lemma_blocks_counted(conf, pow_config, genesis, states, arrivals, target);
    lemma_always_follows_heaviest(conf, pow_config, genesis, states, arrivals, target);
    lemma_always_heaviest_path(conf, pow_config, genesis, states, arrivals, target);
    lemma_restored_alike(
        conf,
        pow_config,
        genesis,
        states,
        arrivals,
        target,
        others,
        mids,
        blocks,
    );
    let g = states.last().inner;
    let r = others.last().inner;
    let f = rebuilt.inner;
    let a = g.nodes();
    let b = r.nodes();
    let c = f.nodes();
    let inner_conf = g.inner_conf;
    lemma_alike(a, b);
    assert(g.pivot_chain@[0] < a.len());
    lemma_alike_path(inner_conf, a, b, g.pivot_chain@);
    lemma_indices_distinct(b, r.indices@);
    lemma_heaviest_path_unique(
        b,
        subtree_weights(inner_conf, b, b.len()),
        g.pivot_chain@,
        f.pivot_chain@,
    );
    let chain = g.pivot_chain@;
    assert forall|i: int| #![trigger c[i]] #![trigger a[i]] 0 <= i < a.len() implies {
        &&& same_origin(a[i], c[i])
        &&& same_weight(a[i], c[i])
        &&& c[i].hash == a[i].hash
        &&& c[i].height == a[i].height
        &&& c[i].children@ == a[i].children@
    } by {
        assert(same_origin(a[i], b[i]) && same_weight(a[i], b[i]));
        assert(c[i].hash == b[i].hash);
    }
    assert(alike(a, c));
    lemma_alike(a, c);
    lemma_alike_recorded(inner_conf, a, c);
    assert forall|i: int| #![trigger c[i]] #![trigger a[i]] 0 <= i < a.len() implies
        c[i].data.epoch_number == a[i].data.epoch_number by {
        assert(epoch_ok(dag_of(a), chain, i, a[i].data.epoch_number)
            && epoch_ok(dag_of(a), chain, i, c[i].data.epoch_number)) by {
            reveal(epochs_ok);
        }
        lemma_one_epoch(a, chain, i, a[i].data.epoch_number, c[i].data.epoch_number);
    }
    assert forall|x: int| #[trigger] subtree_weight(inner_conf, c, a.len(), x)
        == subtree_weight(inner_conf, a, a.len(), x) by {
        lemma_frame_subtree(inner_conf, a, c, a.len(), x);
    }
    assert(chain[chain.len() - 1] < a.len());
    assert(same_weight(a[chain.last() as int], c[chain.last() as int]));
}

} // verus!
