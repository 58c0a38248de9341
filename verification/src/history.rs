//! What holds of a graph however it came about: block by block from the first
//! one on.

use vstd::prelude::*;
use crate::adaptive::{adaptivity, told_adaptive};
#[allow(unused_imports)]
use crate::adaptive::{stable_weights_without, weights_without};
use crate::anticone::{anticone_of, barrier_of};
use crate::arena::{dag_of, ConsensusGraphNode};
#[allow(unused_imports)]
use crate::barrier::stable_weights;
use crate::config::{ConsensusConfig, ConsensusInnerConfig, ProofOfWorkConfig};
use crate::consensus::{difficulty_adjusted, risks_updated, settled, took_in, ConsensusGraph,
    PendingBlock};
#[allow(unused_imports)]
use crate::dag::ancestor;
use crate::finish::{flagged, PivotUpdate};
#[allow(unused_imports)]
use crate::frames::lemma_same_below;
use crate::frames::{same_origins, same_weights};
use crate::genesis::is_settled_genesis;
use crate::heaviest::follows_heaviest;
#[allow(unused_imports)]
use crate::heaviest::{lemma_genesis_follows_heaviest, lemma_pivot_follows_heaviest,
    lemma_rebuilt_chain_agrees};
use crate::insert::node_of;
#[allow(unused_imports)]
use crate::model::{parents_of, tree_weights};
#[allow(unused_imports)]
use crate::removal::{not_below, seen_stable_weight, seen_weight};
#[allow(unused_imports)]
use crate::rule::lemma_adaptivity_same;
use crate::state::ConsensusGraphInner;
#[allow(unused_imports)]
use crate::state::lemma_node;
#[allow(unused_imports)]
use crate::sums::{lemma_sum_congruent, masked};
use crate::types::{BlockHeader, H256, U256};

verus! {

/// What happened when one block came in: the block, the graph while its validity
/// was open, the decision, and the graph with the decision carried in.
pub struct Arrival {
    pub block: BlockHeader,
    pub pending: ConsensusGraph,
    pub p: PendingBlock,
    pub fully_valid: bool,
    pub update: PivotUpdate,
    pub carried: ConsensusGraph,
}

/// The difficulty for blocks to come after the tip of the chain, where `target`
/// is the difficulty that follows the period which ends with a block.
pub open spec fn tip_difficulty(
    inner: ConsensusGraphInner,
    target: spec_fn(H256) -> U256,
) -> U256 {
    let tip = inner.nodes()[inner.pivot_chain@.last() as int];
    let period = inner.pow_config.difficulty_adjustment_epoch_period;
    if tip.height == 0 {
        U256 { hi: 0, lo: inner.pow_config.initial_difficulty as u128 }
    } else if tip.height % period == 0 {
        target(tip.hash)
    } else {
        tip.difficulty
    }
}

/// A graph of the first block alone, as it is made.
pub open spec fn is_new_graph(
    graph: ConsensusGraph,
    conf: ConsensusConfig,
    pow_config: ProofOfWorkConfig,
    genesis: BlockHeader,
) -> bool {
    &&& graph.wf()
    &&& graph.inner.inner_conf == conf.inner_conf
    &&& graph.inner.pow_config == pow_config
    &&& graph.inner.size() == 1
    &&& node_of(conf.inner_conf, genesis, graph.inner.indices@, graph.inner.nodes()[0])
    &&& graph.inner.pivot_chain@ == seq![0usize]
    &&& graph.inner.indices@ == Map::<H256, usize>::empty().insert(genesis.hash, 0)
    &&& graph.inner.current_difficulty.value() == pow_config.initial_difficulty
    &&& is_settled_genesis(graph.inner)
}

/// The difficulty is set for the tip of a chain that may have moved. Risks, the
/// count of weight and the height of optimistic execution may change along.
pub open spec fn concluded(
    before: ConsensusGraph,
    after: ConsensusGraph,
    fully_valid: bool,
    target: spec_fn(H256) -> U256,
) -> bool {
    &&& after.wf()
    &&& after == (ConsensusGraph {
        inner: ConsensusGraphInner {
            trees: after.inner.trees,
            optimistic_executed_height: after.inner.optimistic_executed_height,
            current_difficulty: (if fully_valid {
                tip_difficulty(before.inner, target)
            } else {
                before.inner.current_difficulty
            }),
            ..before.inner
        },
        invalid_blocks: after.invalid_blocks,
        finality_manager: after.finality_manager,
        total_weight_in_past_2d: after.total_weight_in_past_2d,
        ..before
    })
}

/// A block is concluded by adjusting the difficulty and bringing the risks up to
/// date, with the difficulty that follows the period if one ended.
pub proof fn lemma_concluded(
    carried: ConsensusGraph,
    adjusted: ConsensusGraph,
    after: ConsensusGraph,
    period_end: Option<H256>,
    target: spec_fn(H256) -> U256,
)
    requires
        difficulty_adjusted(carried, adjusted, period_end),
        risks_updated(
            adjusted,
            after,
            match period_end {
                Some(hash) => Some(target(hash)),
                None => None,
            },
        ),
        after.wf(),
    ensures
        concluded(carried, after, true, target),
{
}

/// A block came in, was decided on, and the decision was carried into the graph.
pub open spec fn arrived(
    before: ConsensusGraph,
    a: Arrival,
    after: ConsensusGraph,
    target: spec_fn(H256) -> U256,
) -> bool {
    &&& took_in(before, a.pending, a.block)
    &&& a.p.me == before.inner.size()
    &&& a.pending.pending(a.p)
    &&& settled(a.pending, a.carried, a.p, a.fully_valid, a.update)
    &&& a.carried.wf()
    &&& concluded(a.carried, after, a.fully_valid, target)
}

/// The states of a graph from the first block alone on, with the blocks that
/// came in between them.
pub open spec fn is_history(
    conf: ConsensusConfig,
    pow_config: ProofOfWorkConfig,
    genesis: BlockHeader,
    states: Seq<ConsensusGraph>,
    arrivals: Seq<Arrival>,
    target: spec_fn(H256) -> U256,
) -> bool {
    &&& states.len() == arrivals.len() + 1
    &&& is_new_graph(states[0], conf, pow_config, genesis)
    &&& forall|i: int|
        #![trigger arrivals[i]]
        0 <= i < arrivals.len() ==> arrived(states[i], arrivals[i], states[i + 1], target)
}

/// All blocks that came in were found fully valid.
pub open spec fn all_valid(arrivals: Seq<Arrival>) -> bool {
    forall|i: int| 0 <= i < arrivals.len() ==> (#[trigger] arrivals[i]).fully_valid
}

/// The difficulty for blocks to come is the one that belongs to the tip of the
/// chain.
pub open spec fn difficulty_is_set(
    inner: ConsensusGraphInner,
    target: spec_fn(H256) -> U256,
) -> bool {
    inner.current_difficulty == tip_difficulty(inner, target)
}

/// What every arrival keeps.
#[verifier::spinoff_prover]
proof fn lemma_arrival(
    before: ConsensusGraph,
    a: Arrival,
    after: ConsensusGraph,
    target: spec_fn(H256) -> U256,
)
    requires
        before.wf(),
        arrived(before, a, after, target),
    ensures
        after.wf(),
        after.inner.size() == before.inner.size() + 1,
        after.inner.inner_conf == before.inner.inner_conf,
        after.inner.pow_config == before.inner.pow_config,
        follows_heaviest(
            before.inner.inner_conf,
            before.inner.nodes(),
            before.inner.pivot_chain@,
        ) ==> follows_heaviest(
            after.inner.inner_conf,
            after.inner.nodes(),
            after.inner.pivot_chain@,
        ),
        forall|i: int|
            0 <= i < before.inner.size() ==> (#[trigger] after.inner.nodes()[i])
                .data.partial_invalid == before.inner.nodes()[i].data.partial_invalid,
        after.inner.nodes()[before.inner.size() as int].data.partial_invalid == !a.fully_valid,
        difficulty_is_set(before.inner, target) ==> difficulty_is_set(after.inner, target),
{
    let x = before.inner.nodes();
    let y = a.pending.inner.nodes();
    let z = a.carried.inner.nodes();
    let me = x.len() as int;
    if follows_heaviest(before.inner.inner_conf, x, before.inner.pivot_chain@) {
        lemma_pivot_follows_heaviest(
            before,
            a.pending,
            a.carried,
            a.block,
            a.p,
            a.fully_valid,
            a.update,
        );
    }
    let d = y.update(me, flagged(y[me], a.p.stable, a.p.adaptive, !a.fully_valid));
    assert(after.inner.nodes() == z);
    assert forall|i: int| 0 <= i < me implies (#[trigger] z[i]).data.partial_invalid
        == x[i].data.partial_invalid && z[i].height == x[i].height && z[i].hash == x[i].hash
        && z[i].difficulty == x[i].difficulty by {
        assert(y[i].data.partial_invalid == x[i].data.partial_invalid);
        assert(d[i] == y[i]);
    }
    assert(z[me].data.partial_invalid == d[me].data.partial_invalid);
    if !a.fully_valid {
        assert(after.inner.pivot_chain@ == before.inner.pivot_chain@);
        let chain = before.inner.pivot_chain@;
        assert(chain[chain.len() - 1] < x.len());
        assert(z[chain.last() as int].height == x[chain.last() as int].height);
    }
}

/// After `n` new blocks the graph holds `n + 1` blocks.
pub proof fn lemma_blocks_counted(
    conf: ConsensusConfig,
    pow_config: ProofOfWorkConfig,
    genesis: BlockHeader,
    states: Seq<ConsensusGraph>,
    arrivals: Seq<Arrival>,
    target: spec_fn(H256) -> U256,
)
    requires
        is_history(conf, pow_config, genesis, states, arrivals, target),
    ensures
        states.last().inner.size() == arrivals.len() + 1,
        states.last().wf(),
        states.last().inner.inner_conf == conf.inner_conf,
        states.last().inner.pow_config == pow_config,
    decreases arrivals.len(),
{
    if arrivals.len() > 0 {
        let n = arrivals.len() - 1;
        let s = states.drop_last();
        let t = arrivals.drop_last();
        lemma_shorter(conf, pow_config, genesis, states, arrivals, target);
        lemma_blocks_counted(conf, pow_config, genesis, s, t, target);
        assert(arrived(states[n], arrivals[n], states[n + 1], target));
        lemma_arrival(states[n], arrivals[n], states[n + 1], target);
    }
}

/// A history without its last arrival is one.
pub proof fn lemma_shorter(
    conf: ConsensusConfig,
    pow_config: ProofOfWorkConfig,
    genesis: BlockHeader,
    states: Seq<ConsensusGraph>,
    arrivals: Seq<Arrival>,
    target: spec_fn(H256) -> U256,
)
    requires
        is_history(conf, pow_config, genesis, states, arrivals, target),
        arrivals.len() > 0,
    ensures
        is_history(conf, pow_config, genesis, states.drop_last(), arrivals.drop_last(), target),
        states.drop_last().last() == states[states.len() - 2],
        all_valid(arrivals) ==> all_valid(arrivals.drop_last()),
{
    let s = states.drop_last();
    let t = arrivals.drop_last();
    assert forall|i: int| #![trigger t[i]] 0 <= i < t.len() implies arrived(
        s[i],
        t[i],
        s[i + 1],
        target,
    ) by {
        assert(t[i] == arrivals[i]);
    }
    if all_valid(arrivals) {
        assert forall|i: int| 0 <= i < t.len() implies (#[trigger] t[i]).fully_valid by {
            assert(t[i] == arrivals[i]);
        }
    }
}

/// The pivot chain follows the heaviest branch from the first block on, and the
/// difficulty belongs to its tip, in every graph that came about block by block.
pub proof fn lemma_always_follows_heaviest(
    conf: ConsensusConfig,
    pow_config: ProofOfWorkConfig,
    genesis: BlockHeader,
    states: Seq<ConsensusGraph>,
    arrivals: Seq<Arrival>,
    target: spec_fn(H256) -> U256,
)
    requires
        is_history(conf, pow_config, genesis, states, arrivals, target),
    ensures
        follows_heaviest(
            states.last().inner.inner_conf,
            states.last().inner.nodes(),
            states.last().inner.pivot_chain@,
        ),
        difficulty_is_set(states.last().inner, target),
    decreases arrivals.len(),
{
    if arrivals.len() > 0 {
        let n = arrivals.len() - 1;
        let s = states.drop_last();
        let t = arrivals.drop_last();
        lemma_shorter(conf, pow_config, genesis, states, arrivals, target);
        lemma_blocks_counted(conf, pow_config, genesis, s, t, target);
        lemma_always_follows_heaviest(conf, pow_config, genesis, s, t, target);
        assert(arrived(states[n], arrivals[n], states[n + 1], target));
        lemma_arrival(states[n], arrivals[n], states[n + 1], target);
    } else {
        lemma_genesis_follows_heaviest(states[0]);
        let first = states[0].inner;
        lemma_node(first.nodes(), 0);
        first.current_difficulty.lemma_value_decides(
            U256 { hi: 0, lo: first.pow_config.initial_difficulty as u128 },
        );
    }
}

/// Where no block was found partially invalid, the pivot chain leads from the
/// first block on to the child with the heaviest subtree, block by block, until
/// there is none.
pub proof fn lemma_always_heaviest_path(
    conf: ConsensusConfig,
    pow_config: ProofOfWorkConfig,
    genesis: BlockHeader,
    states: Seq<ConsensusGraph>,
    arrivals: Seq<Arrival>,
    target: spec_fn(H256) -> U256,
)
    requires
        is_history(conf, pow_config, genesis, states, arrivals, target),
        all_valid(arrivals),
    ensures
        states.last().inner.is_pivot_to_be(states.last().inner.pivot_chain@),
{
    lemma_blocks_counted(conf, pow_config, genesis, states, arrivals, target);
    lemma_always_follows_heaviest(conf, pow_config, genesis, states, arrivals, target);
    lemma_all_stay_valid(conf, pow_config, genesis, states, arrivals, target);
    lemma_rebuilt_chain_agrees(states.last().inner);
}

/// No block of a graph is partially invalid if none was found so.
pub proof fn lemma_all_stay_valid(
    conf: ConsensusConfig,
    pow_config: ProofOfWorkConfig,
    genesis: BlockHeader,
    states: Seq<ConsensusGraph>,
    arrivals: Seq<Arrival>,
    target: spec_fn(H256) -> U256,
)
    requires
        is_history(conf, pow_config, genesis, states, arrivals, target),
        all_valid(arrivals),
    ensures
        forall|i: int|
            0 <= i < states.last().inner.size() ==> !(#[trigger] states.last().inner.nodes()[i])
                .data.partial_invalid,
    decreases arrivals.len(),
{
    if arrivals.len() > 0 {
        let n = arrivals.len() - 1;
        let s = states.drop_last();
        let t = arrivals.drop_last();
        lemma_shorter(conf, pow_config, genesis, states, arrivals, target);
        lemma_blocks_counted(conf, pow_config, genesis, s, t, target);
        lemma_all_stay_valid(conf, pow_config, genesis, s, t, target);
        assert(arrived(states[n], arrivals[n], states[n + 1], target));
        lemma_arrival(states[n], arrivals[n], states[n + 1], target);
        assert(arrivals[n].fully_valid);
        assert forall|i: int| 0 <= i < states.last().inner.size() implies !(
        #[trigger] states.last().inner.nodes()[i]).data.partial_invalid by {
            if i < states[n].inner.size() {
                assert(!s.last().inner.nodes()[i].data.partial_invalid);
            }
        }
    }
}

/// What a miner is told of a block to come is what the block gets: if it comes in
/// next, with the parent and the difficulty that were asked for, and refers to
/// all that is there, it is stable and adaptive as it was said.
pub proof fn lemma_mined_as_told(
    before: ConsensusGraph,
    pending: ConsensusGraph,
    block: BlockHeader,
    p: PendingBlock,
)
    requires
        before.wf(),
        took_in(before, pending, block),
        p.me == before.inner.size(),
        pending.pending(p),
        anticone_of(pending.inner.dag(), p.me as int) == Set::<int>::empty(),
    ensures
        (p.stable, p.adaptive) == adaptivity(
            before.inner.inner_conf,
            before.inner.nodes(),
            Set::<int>::empty(),
            before.inner.size(),
            before.inner.indices@[block.parent_hash] as int,
            block.difficulty.value(),
        ),
        p.adaptive == told_adaptive(
            before.inner,
            before.inner.indices@[block.parent_hash] as int,
            block.difficulty.value(),
        ),
{
    let conf = before.inner.inner_conf;
    let a = before.inner.nodes();
    let b = pending.inner.nodes();
    let me = p.me as int;
    let k = a.len();
    let none = Set::<int>::empty();
    let parent = b[me].parent as int;
    assert(barrier_of(dag_of(b), me) =~= none);
    lemma_node(b, me);
    assert(same_origins(a, b, k)) by {
        assert forall|i: int| #![trigger a[i]] #![trigger b[i]] 0 <= i < k implies
            crate::frames::same_origin(a[i], b[i]) by {
            assert(b[i].parent == a[i].parent);
        }
    }
    assert(same_weights(a, b, k)) by {
        assert forall|i: int| #![trigger a[i]] #![trigger b[i]] 0 <= i < k implies
            crate::frames::same_weight(a[i], b[i]) by {
            assert(b[i].stable == a[i].stable);
        }
    }
    lemma_same_below(a, b, k);
    let w = weights_without(conf, a, none, k);
    let sw = stable_weights_without(conf, a, none, k);
    let v = weights_without(conf, b, none, k);
    let sv = stable_weights_without(conf, b, none, k);
    assert forall|x: int| #[trigger] ancestor(parents_of(a), x, parent) implies w(x) == v(x)
        && sw(x) == sv(x) by {
        lemma_seen_same(conf, a, b, none, k, x);
    }
    assert forall|i: int| 0 <= i <= parent implies (#[trigger] a[i]).parent == b[i].parent
        && a[i].past_era_weight == b[i].past_era_weight && crate::model::weight_of(conf, a[i])
        == crate::model::weight_of(conf, b[i]) by {
        assert(b[i].past_era_weight == a[i].past_era_weight);
        assert(crate::frames::same_weight(a[i], b[i]));
    }
    lemma_adaptivity_same(
        conf,
        a,
        b,
        (w, w, sw),
        (v, v, sv),
        parent,
        block.difficulty.value(),
    );
}

/// What is seen of the first blocks depends on them alone.
pub proof fn lemma_seen_same(
    conf: ConsensusInnerConfig,
    a: Seq<ConsensusGraphNode>,
    b: Seq<ConsensusGraphNode>,
    barrier: Set<int>,
    k: nat,
    x: int,
)
    requires
        same_origins(a, b, k),
        same_weights(a, b, k),
    ensures
        seen_weight(conf, a, barrier, k, x) == seen_weight(conf, b, barrier, k, x),
        seen_stable_weight(conf, a, barrier, k, x) == seen_stable_weight(conf, b, barrier, k, x),
{
    let par = parents_of(a);
    let oar = parents_of(b);
    lemma_same_below(a, b, k);
    let f = masked(
        |y: int| ancestor(par, x, y) && not_below(par, barrier, y),
        tree_weights(conf, a),
    );
    let g = masked(
        |y: int| ancestor(oar, x, y) && not_below(oar, barrier, y),
        tree_weights(conf, b),
    );
    let fs = masked(
        |y: int| ancestor(par, x, y) && not_below(par, barrier, y),
        stable_weights(conf, a),
    );
    let gs = masked(
        |y: int| ancestor(oar, x, y) && not_below(oar, barrier, y),
        stable_weights(conf, b),
    );
    assert forall|y: int| 0 <= y < k implies #[trigger] f(y) == g(y) && fs(y) == gs(y) by {
        assert(crate::frames::same_weight(a[y], b[y]));
        assert(not_below(par, barrier, y) == not_below(oar, barrier, y)) by {
            assert forall|z: int| ancestor(par, z, y) == ancestor(oar, z, y) by {}
        }
    }
    lemma_sum_congruent(f, g, k);
    assert forall|y: int| 0 <= y < k implies #[trigger] fs(y) == gs(y) by {
        assert(f(y) == g(y));
    }
    lemma_sum_congruent(fs, gs, k);
}

} // verus!
