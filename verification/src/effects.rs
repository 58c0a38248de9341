//! What taking in and settling a block brings about in the graph as a whole.

use vstd::prelude::*;
use crate::anticone::is_last_pivot_below;
use crate::arena::{dag_of, ConsensusGraphNode};
use crate::arrival::block_adaptivity;
use crate::config::ConsensusInnerConfig;
use crate::confirmation::epoch_risk;
use crate::consensus::{difficulty_adjusted, risks_updated, settled, took_in, weight_counted,
    weight_looked_at, ConsensusGraph, PendingBlock, TotalWeightInPast};
use crate::dag::{ancestor, depth};
#[allow(unused_imports)]
use crate::dag::{lemma_ancestor_at_depth, lemma_ancestor_depth, lemma_ancestor_earlier,
    lemma_ancestor_unique};
use crate::decisions::hash_number;
use crate::finish::PivotUpdate;
use crate::graph::{chain_built, restored, total_weight_of};
use crate::heaviest::follows_heaviest;
#[allow(unused_imports)]
use crate::heaviest::is_rival;
use crate::insert::insertable;
use crate::model::{links_ok, parents_of, past_weights_ok, stable_subtree_weight, subtree_weight,
    terminals_ok, weight_of, weights};
#[allow(unused_imports)]
use crate::model::{in_era_past, is_terminal};
use crate::path_tree::is_lowest_common_ancestor;
#[allow(unused_imports)]
use crate::pivot::{pivot_step_at, subtree_weights};
#[allow(unused_imports)]
use crate::risks::lemma_told_risks;
use crate::state::ConsensusGraphInner;
#[allow(unused_imports)]
use crate::state::lemma_node;
use crate::sums::{masked, sum_to};
#[allow(unused_imports)]
use crate::sums::lemma_sum_congruent;
use crate::types::{BlockHeader, H256, U256};
use crate::validity::passes_first_look;
#[allow(unused_imports)]
use crate::validity::{lemma_heavier_irreflexive, lemma_last_pivot_unique, lemma_lca_unique};

verus! {

/// At each block of the pivot chain but the last, the next block of the chain has
/// the heaviest subtree among the valid children, or one as heavy as another and
/// the larger hash.
pub proof fn lemma_pivot_has_heaviest_subtree(
    conf: ConsensusInnerConfig,
    nodes: Seq<ConsensusGraphNode>,
    chain: Seq<usize>,
    i: int,
    d: int,
)
    requires
        follows_heaviest(conf, nodes, chain),
        0 <= i,
        i + 1 < chain.len(),
        0 < d < nodes.len(),
        nodes[d].parent == chain[i],
        d != chain[i + 1],
        !nodes[d].data.partial_invalid,
    ensures
        ({
            let next = chain[i + 1] as int;
            let mine = subtree_weight(conf, nodes, nodes.len(), next);
            let other = subtree_weight(conf, nodes, nodes.len(), d);
            mine > other || mine == other && hash_number(nodes[next].hash) > hash_number(
                nodes[d].hash,
            )
        }),
{
    assert(is_rival(nodes, chain, i, d));
}

/// A block that has been settled counts with its weight in the subtrees of its
/// ancestors and its own, and in no other; among the stable blocks it counts if it
/// is stable. The first block counts with its difficulty.
pub proof fn lemma_block_weighs_on_ancestors(
    conf: ConsensusInnerConfig,
    nodes: Seq<ConsensusGraphNode>,
    y: int,
    x: int,
)
    requires
        0 <= y < nodes.len(),
    ensures
        ({
            let weight = if y == 0 {
                nodes[0].difficulty.value()
            } else {
                weight_of(conf, nodes[y])
            };
            let above = ancestor(parents_of(nodes), x, y);
            &&& subtree_weight(conf, nodes, 0, x) == 0
            &&& stable_subtree_weight(conf, nodes, 0, x) == 0
            &&& subtree_weight(conf, nodes, y as nat + 1, x) - subtree_weight(
                conf,
                nodes,
                y as nat,
                x,
            ) == (if above {
                weight
            } else {
                0
            })
            &&& stable_subtree_weight(conf, nodes, y as nat + 1, x) - stable_subtree_weight(
                conf,
                nodes,
                y as nat,
                x,
            ) == (if above && nodes[y].stable {
                weight
            } else {
                0
            })
        }),
{
    crate::trees::lemma_subtree_step(conf, nodes, y as nat, x);
}

/// The total weight of a block is that of all blocks of which it is an ancestor or
/// which it is, where the first block counts with its difficulty. A hash that no
/// block has is told none.
pub proof fn lemma_total_weight_of_descendants(inner: ConsensusGraphInner, x: int, hash: H256)
    requires
        inner.base_ok(),
        0 <= x < inner.size(),
    ensures
        total_weight_of(inner, inner.nodes()[x].hash) == Some(
            sum_to(
                |y: int|
                    if !ancestor(inner.parents(), x, y) {
                        0
                    } else if y == 0 {
                        inner.nodes()[0].difficulty.value()
                    } else {
                        weight_of(inner.inner_conf, inner.nodes()[y])
                    },
                inner.size(),
            ),
        ),
        total_weight_of(inner, hash) is Some <==> in_graph(inner, hash),
{
    let nodes = inner.nodes();
    let f = |y: int|
        if !ancestor(inner.parents(), x, y) {
            0
        } else if y == 0 {
            nodes[0].difficulty.value()
        } else {
            weight_of(inner.inner_conf, nodes[y])
        };
    assert(inner.indices@[nodes[x].hash] == x);
    lemma_sum_congruent(
        masked(
            crate::model::in_subtree(inner.parents(), x),
            crate::model::tree_weights(inner.inner_conf, nodes),
        ),
        f,
        inner.size(),
    );
    if inner.indices@.contains_key(hash) {
        assert(nodes[inner.indices@[hash] as int].hash == hash);
    }
}

/// The weight of the past: that of a block is that of its parent, the parent itself,
/// and the blocks that the block sees and its parent does not. The first block has
/// none.
pub proof fn lemma_past_from_parent(
    conf: ConsensusInnerConfig,
    nodes: Seq<ConsensusGraphNode>,
    x: int,
)
    requires
        links_ok(nodes),
        past_weights_ok(conf, nodes, nodes.len()),
        0 < x < nodes.len(),
    ensures
        nodes[0].past_weight == 0,
        nodes[x].past_weight == nodes[nodes[x].parent as int].past_weight + weight_of(
            conf,
            nodes[nodes[x].parent as int],
        ) + sum_to(
            masked(
                |y: int|
                    y != x && dag_of(nodes).reaches(x, y) && !dag_of(nodes).reaches(
                        nodes[x].parent as int,
                        y,
                    ),
                weights(conf, nodes),
            ),
            x as nat,
        ),
{
    let g = dag_of(nodes);
    lemma_node(nodes, x);
    assert(past_weights_ok(conf, nodes, x as nat)) by {
        reveal(past_weights_ok);
    }
    crate::past::lemma_past_step(conf, nodes, x);
    let own = |y: int| crate::model::in_own_epoch(g, x, y);
    let seen = |y: int| y != x && g.reaches(x, y) && !g.reaches(nodes[x].parent as int, y);
    lemma_sum_congruent(
        masked(own, weights(conf, nodes)),
        masked(seen, weights(conf, nodes)),
        x as nat,
    );
    reveal(past_weights_ok);
}

/// Settling a block marks it as decided and leaves the marks of all others. Its
/// weight is counted once: nothing if it is not fully valid.
pub proof fn lemma_settled_marks(
    before: ConsensusGraph,
    after: ConsensusGraph,
    p: PendingBlock,
    fully_valid: bool,
    r: PivotUpdate,
    x: int,
)
    requires
        settled(before, after, p, fully_valid, r),
        0 <= p.me < before.inner.size(),
        0 <= x < before.inner.size(),
    ensures
        ({
            let a = before.inner.nodes()[x];
            let b = after.inner.nodes()[x];
            &&& after.inner.size() == before.inner.size()
            &&& x == p.me ==> b.data.partial_invalid == !fully_valid && b.stable == p.stable
                && b.adaptive == p.adaptive
            &&& x != p.me ==> b.data.partial_invalid == a.data.partial_invalid && b.stable
                == a.stable && b.adaptive == a.adaptive
            &&& b.hash == a.hash && b.parent == a.parent && b.difficulty == a.difficulty && b.height
                == a.height && b.past_weight == a.past_weight
        }),
        !fully_valid ==> after.total_weight_in_past_2d.cur.value()
            == before.total_weight_in_past_2d.cur.value(),
        fully_valid && !p.adaptive ==> after.total_weight_in_past_2d.cur.value()
            == before.total_weight_in_past_2d.cur.value()
            + before.inner.nodes()[p.me as int].difficulty.value(),
        fully_valid && p.adaptive && before.inner.nodes()[p.me as int].is_heavy
            ==> after.total_weight_in_past_2d.cur.value()
            == before.total_weight_in_past_2d.cur.value()
            + before.inner.inner_conf.heavy_block_difficulty_ratio,
        fully_valid && p.adaptive && !before.inner.nodes()[p.me as int].is_heavy
            ==> after.total_weight_in_past_2d.cur.value()
            == before.total_weight_in_past_2d.cur.value(),
        !fully_valid ==> after.inner.pivot_chain@ == before.inner.pivot_chain@,
{
}

/// The weight that is told to have come in is what was counted between the last
/// two times it was looked at.
pub proof fn lemma_weight_between_looks(
    before: TotalWeightInPast,
    states: Seq<TotalWeightInPast>,
    counted: Seq<int>,
    after: TotalWeightInPast,
)
    requires
        states.len() == counted.len() + 1,
        weight_looked_at(before, states[0]),
        forall|i: int|
            #![trigger counted[i]]
            0 <= i < counted.len() ==> weight_counted(states[i], states[i + 1], counted[i]),
        weight_looked_at(states.last(), after),
    ensures
        after.delta.value() == sum_to(|i: int| counted[i], counted.len()),
{
    lemma_counted(states, counted, counted.len() as int);
}

proof fn lemma_counted(states: Seq<TotalWeightInPast>, counted: Seq<int>, n: int)
    requires
        states.len() == counted.len() + 1,
        0 <= n <= counted.len(),
        forall|i: int|
            #![trigger counted[i]]
            0 <= i < counted.len() ==> weight_counted(states[i], states[i + 1], counted[i]),
    ensures
        states[n].cur.value() == states[0].cur.value() + sum_to(|i: int| counted[i], n as nat),
        states[n].old == states[0].old,
        states[n].delta == states[0].delta,
    decreases n,
{
    if n > 0 {
        lemma_counted(states, counted, n - 1);
        assert(weight_counted(states[n - 1], states[n - 1 + 1], counted[n - 1]));
    }
}

/// The period ends at the tip of a chain if and only if its height is a multiple of
/// the period and not zero; then the tip is named and the difficulty waits for it.
pub proof fn lemma_period_ends_at_tip(
    before: ConsensusGraph,
    after: ConsensusGraph,
    period_end: Option<H256>,
)
    requires
        before.inner.wf(),
        difficulty_adjusted(before, after, period_end),
        before.inner.pow_config.difficulty_adjustment_epoch_period > 0,
    ensures
        ({
            let chain = before.inner.pivot_chain@;
            let tip = before.inner.nodes()[chain.last() as int];
            let period = before.inner.pow_config.difficulty_adjustment_epoch_period as int;
            let ends = chain.len() > 1 && (chain.len() - 1) % period == 0;
            &&& period_end == (if ends {
                Some(tip.hash)
            } else {
                None
            })
            &&& ends ==> after == before
            &&& !ends && chain.len() > 1 ==> after.inner.current_difficulty == tip.difficulty
            &&& chain.len() == 1 ==> after.inner.current_difficulty.value()
                == before.inner.pow_config.initial_difficulty
        }),
{
    let chain = before.inner.pivot_chain@;
    let tip = chain.last() as int;
    assert(chain[chain.len() - 1] < before.inner.size());
    lemma_node(before.inner.nodes(), tip);
    crate::validity::lemma_chain_index(before.inner.parents(), chain, chain.len() - 1);
    let period = before.inner.pow_config.difficulty_adjustment_epoch_period;
    if chain.len() > 1 && (chain.len() - 1) % (period as int) == 0 {
        assert(after.inner == before.inner);
    }
}

/// After an update no epoch is told a risk below its own, where all the weight
/// that came in between the last two looks counts as withheld.
pub proof fn lemma_risks_count_withheld_weight(
    before: ConsensusGraph,
    after: ConsensusGraph,
    difficulty: Option<U256>,
    e: int,
)
    requires
        risks_updated(before, after, difficulty),
        before.inner.pivot_chain@.len() > 5,
        0 < e <= before.inner.pivot_chain@.len() - 5,
    ensures
        ({
            let inner = after.inner;
            let kept = after.finality_manager.risks_less_than@.len();
            let own = epoch_risk(
                inner,
                subtree_weight(inner.inner_conf, inner.nodes(), inner.size(), 0),
                before.total_weight_in_past_2d.delta.value(),
                e,
            );
            &&& inner.pivot_chain@ == before.inner.pivot_chain@
            &&& e > inner.pivot_chain@.len() - 5 - kept ==> (after.finality_manager.risk_at(
                e,
            ) matches Some(risk) && risk >= own && own > 1)
            &&& e <= inner.pivot_chain@.len() - 5 - kept && kept > 0
                ==> after.finality_manager.risk_at(e) == Some(1u32)
        }),
        difficulty matches Some(d) ==> after.inner.current_difficulty == d,
        difficulty is None ==> after.inner.current_difficulty == before.inner.current_difficulty,
{
    lemma_told_risks(
        after.inner,
        before.total_weight_in_past_2d.delta.value(),
        after.finality_manager,
    );
    assert(after.finality_manager.risk_at(e) == after.finality_manager.risk_at(e));
}

/// The tips of the graph are the blocks that are the parent of no block and that
/// no block refers to.
pub proof fn lemma_tips_are_unreferred(inner: ConsensusGraphInner, i: int)
    requires
        links_ok(inner.nodes()),
        terminals_ok(inner.nodes(), inner.terminal_hashes@),
        0 <= i < inner.size(),
    ensures
        inner.terminal_hashes@.contains(inner.nodes()[i].hash) <==> forall|c: int|
            0 <= c < inner.size() ==> (#[trigger] inner.nodes()[c]).parent != i
                && !inner.nodes()[c].referees@.contains(i as usize),
{
    let nodes = inner.nodes();
    let g = inner.dag();
    reveal(terminals_ok);
    lemma_node(nodes, i);
    assert(inner.terminal_hashes@.contains(nodes[i].hash) <==> is_terminal(g, i));
    if is_terminal(g, i) {
        assert forall|c: int| 0 <= c < nodes.len() implies (#[trigger] nodes[c]).parent != i
            && !nodes[c].referees@.contains(i as usize) by {
            lemma_node(nodes, c);
            assert(!g.edge(c, i));
            if nodes[c].referees@.contains(i as usize) {
                let j = choose|j: int|
                    0 <= j < nodes[c].referees@.len() && nodes[c].referees@[j] == i as usize;
                assert(nodes[c].referees@[j] < c);
            }
        }
    } else {
        let c = choose|c: int| #[trigger] g.edge(c, i);
        lemma_node(nodes, c);
    }
}

/// The recorded weight of the past in the era: that of the blocks which a block sees
/// and which lie in the subtree of the block at which the era of its parent began.
pub proof fn lemma_past_in_era(
    conf: ConsensusInnerConfig,
    nodes: Seq<ConsensusGraphNode>,
    x: int,
    start: int,
    first: int,
)
    requires
        links_ok(nodes),
        past_weights_ok(conf, nodes, nodes.len()),
        0 < x < nodes.len(),
        start % 10_000 == 0,
        start <= depth(parents_of(nodes), nodes[x].parent as int) < start + 10_000,
        ancestor(parents_of(nodes), first, nodes[x].parent as int),
        depth(parents_of(nodes), first) == start,
    ensures
        nodes[x].past_era_weight == sum_to(
            masked(
                |y: int|
                    y != x && dag_of(nodes).reaches(x, y) && ancestor(
                        parents_of(nodes),
                        first,
                        y,
                    ),
                weights(conf, nodes),
            ),
            x as nat,
        ),
{
    let par = parents_of(nodes);
    let g = dag_of(nodes);
    let p = nodes[x].parent as int;
    lemma_node(nodes, x);
    crate::decisions::lemma_eras(depth(par, p) as int, start);
    lemma_ancestor_unique(par, first, p);
    reveal(past_weights_ok);
    let seen = |y: int| y != x && g.reaches(x, y) && ancestor(par, first, y);
    lemma_sum_congruent(
        masked(in_era_past(g, x), weights(conf, nodes)),
        masked(seen, weights(conf, nodes)),
        x as nat,
    );
}

/// The first look refuses a block only where its path leaves the pivot chain below
/// the tip, and then if and only if its side, with itself, weighs less than the
/// pivot side weighs at the least in its view: all of the pivot side but what may
/// lie outside the past of the last pivot block that it is sure to see.
pub proof fn lemma_first_look_refuses_iff(
    inner: ConsensusGraphInner,
    me: int,
    lca: int,
    last_pivot: usize,
    side: int,
)
    requires
        inner.linked(me),
        is_lowest_common_ancestor(inner.parents(), inner.pivot_chain@.last() as int, me, lca),
        is_last_pivot_below(inner.nodes(), me, last_pivot),
        depth(inner.parents(), lca) + 1 < inner.pivot_chain@.len(),
        ancestor(inner.parents(), side, me),
        depth(inner.parents(), side) == depth(inner.parents(), lca) + 1,
    ensures
        ({
            let nodes = inner.nodes();
            let chain = inner.pivot_chain@;
            let w = |x: int| subtree_weight(inner.inner_conf, nodes, me as nat, x);
            let surely_seen = nodes[chain[last_pivot as int] as int].past_weight;
            let rival = chain[depth(inner.parents(), lca) as int + 1] as int;
            let least = w(rival) - (w(0) - surely_seen);
            passes_first_look(inner.inner_conf, nodes, chain, me) <==> nodes[me].parent
                == chain.last() || least < 0 || w(side) + weight_of(inner.inner_conf, nodes[me])
                >= least
        }),
{
    let nodes = inner.nodes();
    let chain = inner.pivot_chain@;
    let par = inner.parents();
    let conf = inner.inner_conf;
    lemma_node(nodes, me);
    lemma_ancestor_unique(par, side, me);
    assert forall|a: int, b: usize|
        #[trigger] is_lowest_common_ancestor(par, chain.last() as int, me, a)
            && #[trigger] is_last_pivot_below(nodes, me, b) implies a == lca && b == last_pivot by {
        lemma_lca_unique(par, chain.last() as int, me, a, lca);
        lemma_last_pivot_unique(nodes, me, b, last_pivot);
    }
}

/// A block can come in if and only if its hash is new, it hangs one higher than the
/// block that it names as its parent, that block and all blocks that it refers to
/// are in the graph, and the graph has room for it.
pub proof fn lemma_insertable_iff(inner: ConsensusGraphInner, block: BlockHeader)
    requires
        inner.base_ok(),
    ensures
        insertable(inner, block) <==> {
            &&& block.parent_hash != (H256 { hi: 0, lo: 0 })
            &&& forall|i: int|
                0 <= i < inner.size() ==> (#[trigger] inner.nodes()[i]).hash != block.hash
            &&& exists|i: int|
                0 <= i < inner.size() && (#[trigger] inner.nodes()[i]).hash == block.parent_hash
                    && block.height == inner.nodes()[i].height + 1
            &&& forall|j: int|
                0 <= j < block.referee_hashes@.len() ==> in_graph(
                    inner,
                    #[trigger] block.referee_hashes@[j],
                )
            &&& inner.size() < crate::bits::index_limit()
            &&& inner.sequence_number_of_block_entrance < u64::MAX
            &&& crate::insert::room_for(inner.inner_conf, inner.nodes(), block.difficulty)
        },
{
    let indices = inner.indices@;
    let nodes = inner.nodes();
    assert forall|h: H256| #[trigger] indices.contains_key(h) <==> in_graph(inner, h) by {
        if indices.contains_key(h) {
            assert(nodes[indices[h] as int].hash == h);
        }
    }
    if insertable(inner, block) {
        assert(nodes[indices[block.parent_hash] as int].hash == block.parent_hash);
        assert(!in_graph(inner, block.hash)) by {
            assert(!indices.contains_key(block.hash));
        }
        assert forall|j: int| 0 <= j < block.referee_hashes@.len() implies in_graph(
            inner,
            #[trigger] block.referee_hashes@[j],
        ) by {
            assert(indices.contains_key(block.referee_hashes@[j]));
        }
    }
    if (forall|i: int| 0 <= i < inner.size() ==> (#[trigger] nodes[i]).hash != block.hash) {
        assert(!in_graph(inner, block.hash));
        assert(!indices.contains_key(block.hash));
    }
}

/// A block of the graph has the hash.
pub open spec fn in_graph(inner: ConsensusGraphInner, hash: H256) -> bool {
    exists|i: int| 0 <= i < inner.size() && (#[trigger] inner.nodes()[i]).hash == hash
}

/// A block that came in stands at the end under its hash: its parent and the blocks
/// it refers to are those that its header names, and it is one higher than its
/// parent. The blocks that were there keep their places, hashes and links.
pub proof fn lemma_taken_in(before: ConsensusGraph, after: ConsensusGraph, block: BlockHeader)
    requires
        before.inner.base_ok(),
        insertable(before.inner, block),
        took_in(before, after, block),
    ensures
        ({
            let me = before.inner.size() as int;
            let a = before.inner.nodes();
            let b = after.inner.nodes();
            &&& b.len() == me + 1
            &&& b[me].hash == block.hash
            &&& after.inner.indices@[block.hash] == me
            &&& b[b[me].parent as int].hash == block.parent_hash
            &&& b[me].height == b[b[me].parent as int].height + 1
            &&& b[me].referees@.len() == block.referee_hashes@.len()
            &&& forall|j: int|
                0 <= j < block.referee_hashes@.len() ==> b[#[trigger] b[me].referees@[j] as int].hash
                    == block.referee_hashes@[j]
            &&& forall|i: int|
                #![trigger b[i]]
                0 <= i < me ==> b[i].hash == a[i].hash && b[i].parent == a[i].parent
                    && b[i].referees@ == a[i].referees@ && b[i].height == a[i].height
            &&& after.inner.pivot_chain@ == before.inner.pivot_chain@
            &&& after.statistics.inserted_block_count == me + 1
        }),
{
    let me = before.inner.size() as int;
    let a = before.inner.nodes();
    let b = after.inner.nodes();
    let indices = before.inner.indices@;
    assert(a[indices[block.parent_hash] as int].hash == block.parent_hash);
    assert forall|j: int| 0 <= j < block.referee_hashes@.len() implies b[
    #[trigger] b[me].referees@[j] as int].hash == block.referee_hashes@[j] by {
        assert(indices.contains_key(block.referee_hashes@[j]));
        assert(b[me].referees@[j] == indices[block.referee_hashes@[j]]);
        assert(a[indices[block.referee_hashes@[j]] as int].hash == block.referee_hashes@[j]);
    }
}

/// A block that is read back is partially invalid if it is known to be, and then
/// keeps what its header says of its adaptivity. Otherwise it is valid, and what it
/// is called is worked out as for a block that arrives.
pub proof fn lemma_read_back_marks(
    before: ConsensusGraph,
    mid: ConsensusGraph,
    after: ConsensusGraph,
    block: BlockHeader,
    partial_invalid: Option<bool>,
)
    requires
        restored(before, mid, after, block, partial_invalid),
        before.inner.size() < mid.inner.size(),
    ensures
        ({
            let me = before.inner.size() as int;
            let node = after.inner.nodes()[me];
            &&& node.data.partial_invalid <==> partial_invalid == Some(true)
            &&& node.data.partial_invalid ==> node.stable && node.adaptive == block.adaptive
            &&& !node.data.partial_invalid ==> (node.stable, node.adaptive) == block_adaptivity(
                mid.inner.inner_conf,
                mid.inner.nodes(),
                me,
            )
            &&& node.hash == block.hash
            &&& after.inner.pivot_chain@ == before.inner.pivot_chain@
        }),
{
}

/// When the chain was built at once, the difficulty is that of its tip, but the
/// initial one after the first block alone and left open at the end of a period,
/// where the tip is named.
pub proof fn lemma_built_difficulty(
    before: ConsensusGraph,
    after: ConsensusGraph,
    period_end: Option<H256>,
)
    requires
        after.inner.wf(),
        chain_built(before, after, period_end),
        before.inner.pow_config.difficulty_adjustment_epoch_period > 0,
    ensures
        ({
            let chain = after.inner.pivot_chain@;
            let tip = after.inner.nodes()[chain.last() as int];
            let period = before.inner.pow_config.difficulty_adjustment_epoch_period as int;
            let ends = chain.len() > 1 && (chain.len() - 1) % period == 0;
            &&& period_end == (if ends {
                Some(tip.hash)
            } else {
                None
            })
            &&& ends ==> after.inner.current_difficulty == before.inner.current_difficulty
            &&& !ends && chain.len() > 1 ==> after.inner.current_difficulty == tip.difficulty
            &&& chain.len() == 1 ==> after.inner.current_difficulty.value()
                == before.inner.pow_config.initial_difficulty
        }),
{
    let chain = after.inner.pivot_chain@;
    let tip = chain.last() as int;
    assert(chain[chain.len() - 1] < after.inner.size());
    lemma_node(after.inner.nodes(), tip);
    crate::validity::lemma_chain_index(after.inner.parents(), chain, chain.len() - 1);
}

/// The fork is where the chain changed first: below it the chain is as it was, and
/// at it stands another block than before, or the first one beyond the old tip. A
/// chain that did not change has its fork beyond its tip.
pub proof fn lemma_fork_is_first_change(
    before: ConsensusGraph,
    after: ConsensusGraph,
    p: PendingBlock,
    fully_valid: bool,
    r: PivotUpdate,
)
    requires
        settled(before, after, p, fully_valid, r),
        p.me < before.inner.size(),
    ensures
        ({
            let chain = before.inner.pivot_chain@;
            let next = after.inner.pivot_chain@;
            let fork = r.fork_at as int;
            &&& r.old_len == chain.len()
            &&& forall|i: int|
                0 <= i < fork && i < chain.len() ==> i < next.len() && #[trigger] next[i] == chain[i]
            &&& fork < chain.len() ==> fork < next.len() && next[fork] != chain[fork]
            &&& next != chain ==> fork < next.len()
            &&& next == chain ==> fork >= chain.len()
            &&& !fully_valid ==> next == chain
            &&& fully_valid && before.inner.nodes()[p.me as int].parent == chain.last() ==> next
                == chain.push(p.me) && fork == chain.len()
            &&& r.extended <==> fully_valid && before.inner.nodes()[p.me as int].parent
                == chain.last()
        }),
{
    let chain = before.inner.pivot_chain@;
    let next = after.inner.pivot_chain@;
    let nodes = after.inner.nodes();
    let me = p.me as int;
    let w = subtree_weights(after.inner.inner_conf, nodes, nodes.len());
    let fork = r.fork_at as int;
    assert(nodes[me].parent == before.inner.nodes()[me].parent);
    if fully_valid && nodes[me].parent != chain.last() {
        let lca = choose|lca: int| #[trigger]
            is_lowest_common_ancestor(parents_of(nodes), chain.last() as int, me, lca)
                && pivot_step_at(nodes, w, chain, me, next, fork, lca);
        if fork < chain.len() {
            assert forall|i: int| 0 <= i < fork implies #[trigger] next[i] == chain[i] by {
                assert(next.take(fork)[i] == chain.take(fork)[i]);
            }
            lemma_heavier_irreflexive(w(chain[fork] as int), nodes[chain[fork] as int].hash);
        }
    }
}

/// The records of the last pivot block below, after a block has been settled and the
/// chain did not grow by it alone: a pivot block from the fork on records itself. Of
/// the others, the new block and those that recorded a pivot block right before the
/// fork or later record the last of what the blocks record that they refer to, and
/// the rest keep what they recorded.
pub proof fn lemma_records_brought_up_to_date(
    before: ConsensusGraph,
    after: ConsensusGraph,
    p: PendingBlock,
    fully_valid: bool,
    r: PivotUpdate,
    x: int,
)
    requires
        before.inner.base_ok(),
        before.inner.tail_holds(p.me as nat),
        before.inner.size() == p.me + 1,
        settled(before, after, p, fully_valid, r),
        !r.extended,
        0 < x < before.inner.size(),
    ensures
        ({
            let a = before.inner.nodes();
            let b = after.inner.nodes();
            let chain = after.inner.pivot_chain@;
            let late = exists|i: int| r.fork_at <= i < chain.len() && #[trigger] chain[i] == x;
            let old_record = a[x].last_pivot_in_past;
            let record = b[x].last_pivot_in_past;
            &&& forall|i: int|
                r.fork_at <= i < chain.len() && #[trigger] chain[i] == x ==> record == i
            &&& !late && (x == p.me || old_record + 1 >= r.fork_at) ==> {
                &&& b[b[x].parent as int].last_pivot_in_past <= record
                &&& forall|j: int|
                    0 <= j < b[x].referees@.len() ==> b[
                    #[trigger] b[x].referees@[j] as int].last_pivot_in_past <= record
                &&& b[b[x].parent as int].last_pivot_in_past == record || exists|j: int|
                    0 <= j < b[x].referees@.len() && b[
                    #[trigger] b[x].referees@[j] as int].last_pivot_in_past == record
            }
            &&& !late && x != p.me && old_record + 1 < r.fork_at ==> record == old_record
        }),
{
    reveal(crate::model::metadata_ok);
    reveal(crate::finish::records_settled);
    let a = before.inner.nodes();
    let lists = before.inner.pivot_chain_metadata@;
    let chain = after.inner.pivot_chain@;
    let fork = r.fork_at as int;
    let stale = crate::finish::outdated(lists, p.me as int, fork - 1);
    let old_record = a[x].last_pivot_in_past as int;
    if x != p.me {
        assert(a[x].last_pivot_in_past < before.inner.pivot_chain@.len());
        assert(lists[old_record].last_pivot_in_past_blocks@.contains(x as usize));
        assert(stale.contains(x) <==> old_record + 1 >= fork) by {
            if stale.contains(x) {
                let i = choose|i: int|
                    fork - 1 <= i < lists.len() && 0 <= x < p.me
                        && #[trigger] lists[i].last_pivot_in_past_blocks@.contains(x as usize);
            }
        }
    }
    assert(crate::metadata::is_late_pivot(chain, fork, x) <==> exists|i: int|
        r.fork_at <= i < chain.len() && #[trigger] chain[i] == x);
    assert(crate::metadata::is_recomputed(chain, fork, stale, x) <==> stale.contains(x)
        && !crate::metadata::is_late_pivot(chain, fork, x));
}

/// Where the chain grew by the new block alone, that block records itself, and all
/// others keep what they recorded.
pub proof fn lemma_records_of_extension(
    before: ConsensusGraph,
    after: ConsensusGraph,
    p: PendingBlock,
    r: PivotUpdate,
    x: int,
)
    requires
        settled(before, after, p, true, r),
        before.inner.nodes()[p.me as int].parent == before.inner.pivot_chain@.last(),
        before.inner.size() == p.me + 1,
        0 <= x < before.inner.size(),
    ensures
        x == p.me ==> after.inner.nodes()[x].last_pivot_in_past + 1
            == after.inner.pivot_chain@.len(),
        x != p.me ==> after.inner.nodes()[x].last_pivot_in_past
            == before.inner.nodes()[x].last_pivot_in_past,
{
    reveal(crate::finish::records_settled);
}

} // verus!
