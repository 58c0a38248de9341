//! What the decisions on a block come down to: which blocks are fully valid, which
//! difficulty they must have, which parent they may hang on, and when they are
//! stable and adaptive.

use vstd::prelude::*;
#[allow(unused_imports)]
use crate::adaptive::{came_since, diluted_at, some_on_path, unstable_at};
use crate::arena::{dag_of, ConsensusGraphNode};
use crate::arrival::{block_adaptivity, plain_stable_weights, plain_weights, seen_table};
#[allow(unused_imports)]
use crate::brutal::{adaptivity_brutal, table};
use crate::config::ConsensusInnerConfig;
use crate::consensus::{validity, ConsensusGraph, PendingBlock, Validity};
use crate::dag::{ancestor, ancestor_at_depth, depth};
#[allow(unused_imports)]
use crate::dag::{lemma_ancestor_at_depth, lemma_ancestor_depth, lemma_ancestor_earlier,
    lemma_ancestor_is_reached, lemma_ancestor_transitive, lemma_ancestor_unique,
    lemma_reaches_earlier};
use crate::history::difficulty_is_set;
use crate::insert::node_of;
use crate::model::{era_height, in_own_epoch, links_ok, parents_of, weight_of};
use crate::path_tree::is_lowest_common_ancestor;
use crate::queries::{difficulty_after, Difficulty};
use crate::rule::{is_newest, past_stable_subtree_weight, past_subtree_weight};
#[allow(unused_imports)]
use crate::rule::{lemma_adaptivity_same, lemma_both_ways_agree, lemma_table_is_past};
use crate::state::ConsensusGraphInner;
#[allow(unused_imports)]
use crate::state::lemma_node;
use crate::types::{BlockHeader, H256, U256};
use crate::validity::{has_correct_parent, heavier};

verus! {

/// A hash as a number of 256 bits.
pub open spec fn hash_number(h: H256) -> int {
    h.hi * 0x1_0000_0000_0000_0000_0000_0000_0000_0000 + h.lo
}

/// A block may have this difficulty under its parent: the initial one until the
/// first period is over, the one worked out for the period at the end of a
/// period, and that of the parent otherwise.
pub open spec fn may_have_difficulty(
    inner: ConsensusGraphInner,
    parent: int,
    difficulty: U256,
    worked_out: Option<U256>,
) -> bool {
    let height = depth(inner.parents(), parent);
    let period = inner.pow_config.difficulty_adjustment_epoch_period as nat;
    &&& height < period ==> difficulty.value() == inner.pow_config.initial_difficulty
    &&& height >= period && height % period == 0 ==> worked_out == Some(difficulty)
    &&& height >= period && height % period != 0 ==> difficulty
        == inner.nodes()[parent].difficulty
}

/// Inside a period that is not the first, the difficulty of the parent is kept; in
/// the first it is the initial one; and at the end of a period the parent is the
/// block from whose period it is worked out.
pub proof fn lemma_difficulty_expected(inner: ConsensusGraphInner, parent: int)
    requires
        links_ok(inner.nodes()),
        0 <= parent < inner.size(),
        inner.pow_config.difficulty_adjustment_epoch_period > 0,
    ensures
        ({
            let height = depth(inner.parents(), parent);
            let period = inner.pow_config.difficulty_adjustment_epoch_period as nat;
            &&& height < period ==> (difficulty_after(inner, parent) matches Difficulty::Known(d)
                && d.value() == inner.pow_config.initial_difficulty)
            &&& height >= period && height % period != 0 ==> difficulty_after(inner, parent)
                == Difficulty::Known(inner.nodes()[parent].difficulty)
            &&& height >= period && height % period == 0 ==> difficulty_after(inner, parent)
                == Difficulty::PeriodEndingAt(inner.nodes()[parent].hash)
        }),
{
    lemma_node(inner.nodes(), parent);
}

/// What miners are told is the difficulty of the tip of the chain, but the initial
/// one after the first block alone and the one worked out for the period where a
/// period ends at the tip. Past the first period it is what validity demands of a
/// child of the tip.
pub proof fn lemma_told_difficulty_is_demanded(
    inner: ConsensusGraphInner,
    target: spec_fn(H256) -> U256,
)
    requires
        inner.wf(),
        difficulty_is_set(inner, target),
        inner.pow_config.difficulty_adjustment_epoch_period > 0,
    ensures
        ({
            let tip = inner.pivot_chain@.last() as int;
            let top = inner.pivot_chain@.len() - 1;
            let period = inner.pow_config.difficulty_adjustment_epoch_period as int;
            &&& top == 0 ==> inner.current_difficulty.value() == inner.pow_config.initial_difficulty
            &&& top > 0 && top % period == 0 ==> inner.current_difficulty == target(
                inner.nodes()[tip].hash,
            )
            &&& top > 0 && top % period != 0 ==> inner.current_difficulty
                == inner.nodes()[tip].difficulty
            &&& top >= period && top % period != 0 ==> difficulty_after(inner, tip)
                == Difficulty::Known(inner.current_difficulty)
            &&& top >= period && top % period == 0 ==> difficulty_after(inner, tip)
                == Difficulty::PeriodEndingAt(inner.nodes()[tip].hash)
            &&& top >= period ==> may_have_difficulty(
                inner,
                tip,
                inner.current_difficulty,
                Some(target(inner.nodes()[tip].hash)),
            )
        }),
{
    let chain = inner.pivot_chain@;
    let tip = chain.last() as int;
    assert(chain[chain.len() - 1] < inner.size());
    lemma_node(inner.nodes(), tip);
    crate::validity::lemma_chain_index(inner.parents(), chain, chain.len() - 1);
}

/// If the check names a block for the roots, it is the ancestor of the new block
/// five heights up.
pub proof fn lemma_roots_of_deferred_ancestor(
    graph: ConsensusGraph,
    p: PendingBlock,
    target: Option<U256>,
    roots: Option<(H256, H256)>,
    hash: H256,
)
    requires
        graph.pending(p),
        validity(graph, p, target, roots) == Validity::NeedsRoots(hash),
    ensures
        exists|a: int| #[trigger]
            ancestor(graph.inner.parents(), a, p.me as int) && depth(graph.inner.parents(), a) + 5
                == depth(graph.inner.parents(), p.me as int) && graph.inner.nodes()[a].hash
                == hash,
        roots is None,
{
    let par = graph.inner.parents();
    let me = p.me as int;
    lemma_node(graph.inner.nodes(), me);
    let h = (depth(par, me) - 5) as nat;
    lemma_ancestor_at_depth(par, me, h);
    let a = ancestor_at_depth(par, me, h);
    assert(ancestor(par, a, me));
}

/// If the check names the end of a period, it is the parent of the new block, at a
/// multiple of the period.
pub proof fn lemma_target_of_parent(
    graph: ConsensusGraph,
    p: PendingBlock,
    target: Option<U256>,
    roots: Option<(H256, H256)>,
    hash: H256,
)
    requires
        graph.pending(p),
        validity(graph, p, target, roots) == Validity::NeedsTargetDifficulty(hash),
        graph.inner.pow_config.difficulty_adjustment_epoch_period > 0,
    ensures
        ({
            let parent = graph.inner.nodes()[p.me as int].parent as int;
            let period = graph.inner.pow_config.difficulty_adjustment_epoch_period as nat;
            &&& graph.inner.nodes()[parent].hash == hash
            &&& depth(graph.inner.parents(), parent) > 0
            &&& depth(graph.inner.parents(), parent) % period == 0
            &&& target is None
        }),
{
    let me = p.me as int;
    lemma_node(graph.inner.nodes(), me);
    lemma_node(graph.inner.nodes(), graph.inner.nodes()[me].parent as int);
}

/// A block is settled as fully valid if and only if its parent is accepted, it has
/// the difficulty that it may have, it says of itself that it is adaptive exactly
/// if it is (which bench mode does not look at), and the deferred roots in its
/// header are right: below height five those of the first block, and from there on
/// those given for its ancestor five heights up. It is asked about, and not refused,
/// if the difficulty that follows a period is not given and its parent ends one, or
/// if all but the roots is right and those are not given.
pub proof fn lemma_fully_valid_iff(
    graph: ConsensusGraph,
    p: PendingBlock,
    target: Option<U256>,
    roots: Option<(H256, H256)>,
)
    requires
        graph.pending(p),
        graph.inner.pow_config.difficulty_adjustment_epoch_period > 0,
    ensures
        ({
            let node = graph.inner.nodes()[p.me as int];
            let height = depth(graph.inner.parents(), p.me as int);
            let above = depth(graph.inner.parents(), node.parent as int);
            let period = graph.inner.pow_config.difficulty_adjustment_epoch_period as nat;
            let sound = p.parent_accepted && may_have_difficulty(
                graph.inner,
                node.parent as int,
                node.difficulty,
                target,
            ) && (graph.conf.bench_mode || node.adaptive == p.adaptive);
            &&& validity(graph, p, target, roots) == Validity::Settled(true) <==> sound && (
            height < 5 ==> p.deferred_state_root == graph.inner.genesis_block_state_root
                && p.deferred_receipts_root == graph.inner.genesis_block_receipts_root) && (height
                >= 5 ==> roots == Some((p.deferred_state_root, p.deferred_receipts_root)))
            &&& validity(graph, p, target, roots) is NeedsRoots <==> sound && height >= 5 && roots
                is None
            &&& validity(graph, p, target, roots) is NeedsTargetDifficulty <==> target is None
                && p.parent_accepted && above >= period && above % period == 0
        }),
{
    let me = p.me as int;
    let node = graph.inner.nodes()[me];
    lemma_node(graph.inner.nodes(), me);
    lemma_node(graph.inner.nodes(), node.parent as int);
    lemma_difficulty_expected(graph.inner, node.parent as int);
    node.difficulty.lemma_value_decides(
        U256 { hi: 0, lo: graph.inner.pow_config.initial_difficulty as u128 },
    );
}

/// A block is refused for a reason: its parent is not accepted, its difficulty is
/// not the one that it must have, it is adaptive and does not say so or the other
/// way round, or its deferred roots are wrong. That an answer is not there yet is
/// none.
pub proof fn lemma_refused_for_a_reason(
    graph: ConsensusGraph,
    p: PendingBlock,
    target: Option<U256>,
    roots: Option<(H256, H256)>,
)
    requires
        graph.pending(p),
        graph.inner.pow_config.difficulty_adjustment_epoch_period > 0,
        validity(graph, p, target, roots) == Validity::Settled(false),
    ensures
        ({
            let node = graph.inner.nodes()[p.me as int];
            let parent = node.parent as int;
            let height = depth(graph.inner.parents(), p.me as int);
            ||| !p.parent_accepted
            ||| !may_have_difficulty(graph.inner, parent, node.difficulty, target) && (target
                is Some || depth(graph.inner.parents(), parent)
                % (graph.inner.pow_config.difficulty_adjustment_epoch_period as nat) != 0
                || depth(graph.inner.parents(), parent) == 0)
            ||| node.adaptive != p.adaptive
            ||| height < 5 && (p.deferred_state_root != graph.inner.genesis_block_state_root
                || p.deferred_receipts_root != graph.inner.genesis_block_receipts_root)
            ||| height >= 5 && roots is Some && roots != Some(
                (p.deferred_state_root, p.deferred_receipts_root),
            )
        }),
{
    let me = p.me as int;
    lemma_fully_valid_iff(graph, p, target, roots);
    lemma_node(graph.inner.nodes(), me);
    let parent = graph.inner.nodes()[me].parent as int;
    lemma_node(graph.inner.nodes(), parent);
    lemma_difficulty_expected(graph.inner, parent);
    let h = depth(graph.inner.parents(), parent);
    let period = graph.inner.pow_config.difficulty_adjustment_epoch_period as nat;
    if h < period && h > 0 {
        assert(h % period != 0) by (nonlinear_arith)
            requires
                0 < h < period,
        ;
    }
}

/// A block weighs nothing if it is partially invalid, its difficulty if it is not
/// adaptive, and the heavy ratio if it is adaptive and heavy; an adaptive block
/// that is not heavy weighs nothing.
pub proof fn lemma_block_weighs(conf: ConsensusInnerConfig, node: ConsensusGraphNode)
    ensures
        node.data.partial_invalid ==> weight_of(conf, node) == 0,
        !node.data.partial_invalid && !node.adaptive ==> weight_of(conf, node)
            == node.difficulty.value(),
        node.adaptive && !node.is_heavy ==> weight_of(conf, node) == 0,
        !node.data.partial_invalid && node.adaptive && node.is_heavy ==> weight_of(conf, node)
            == conf.heavy_block_difficulty_ratio,
{
}

/// A block is heavy if and only if its proof of work is worth the heavy ratio times
/// its difficulty, and it keeps what its header says of itself.
pub proof fn lemma_heavy_by_quality(
    conf: ConsensusInnerConfig,
    header: BlockHeader,
    indices: Map<H256, usize>,
    node: ConsensusGraphNode,
)
    requires
        node_of(conf, header, indices, node),
    ensures
        node.is_heavy <==> conf.heavy_block_difficulty_ratio * header.difficulty.value()
            <= header.pow_quality.value(),
        node.hash == header.hash,
        node.height == header.height,
        node.difficulty == header.difficulty,
        node.adaptive == header.adaptive,
        node.referees@.len() == header.referee_hashes@.len(),
        forall|j: int|
            0 <= j < node.referees@.len() ==> #[trigger] node.referees@[j]
                == indices[header.referee_hashes@[j]],
{
}

/// Of two blocks the one of more weight is the heavier, and of two of the same
/// weight the one whose hash is the larger number.
pub proof fn lemma_heavier_by_weight_and_hash(wa: int, ha: H256, wb: int, hb: H256)
    ensures
        heavier(wa, ha, wb, hb) <==> wa > wb || wa == wb && hash_number(ha) > hash_number(hb),
{
}

/// An era begins at every multiple of ten thousand. A height belongs to the era
/// that began at the last of them, and the era before is the one before that, if
/// there is one.
pub proof fn lemma_eras(height: int, start: int)
    requires
        0 <= height,
        start % 10_000 == 0,
        start <= height < start + 10_000,
    ensures
        era_height(height, 0) == start,
        era_height(height, 10_000) == (if start == 0 {
            0
        } else {
            start - 10_000
        }),
{
}

/// A block may hang where it hangs if and only if for every valid block that it
/// sees and its parent does not: where the way to that block parts from the way to
/// the parent, in the era of the parent, it does not part at the parent itself, nor
/// does it lead into the heavier of the two branches.
pub proof fn lemma_parent_iff_heaviest(
    nodes: Seq<ConsensusGraphNode>,
    w: spec_fn(int) -> int,
    me: int,
    start: int,
)
    requires
        links_ok(nodes),
        0 < me < nodes.len(),
        start % 10_000 == 0,
        start <= depth(parents_of(nodes), nodes[me].parent as int) < start + 10_000,
    ensures
        has_correct_parent(nodes, w, me) <==> forall|y: int, a: int|
            #![trigger dag_of(nodes).reaches(me, y), is_lowest_common_ancestor(parents_of(nodes), y, nodes[me].parent as int, a)]
            y != me && dag_of(nodes).reaches(me, y) && !dag_of(nodes).reaches(
                nodes[me].parent as int,
                y,
            ) && !nodes[y].data.partial_invalid && is_lowest_common_ancestor(
                parents_of(nodes),
                y,
                nodes[me].parent as int,
                a,
            ) && depth(parents_of(nodes), a) >= start ==> a != nodes[me].parent
                && !branch_wins(nodes, w, a, y, nodes[me].parent as int),
{
    let par = parents_of(nodes);
    let g = dag_of(nodes);
    let parent = nodes[me].parent as int;
    lemma_node(nodes, me);
    lemma_eras(depth(par, parent) as int, start);
    assert forall|y: int, a: int|
        #![trigger g.reaches(me, y), is_lowest_common_ancestor(par, y, parent, a)]
        g.reaches(me, y) && !g.reaches(parent, y) && is_lowest_common_ancestor(
            par,
            y,
            parent,
            a,
        ) && a != parent implies branch_wins(nodes, w, a, y, parent) == {
        let fork = ancestor_at_depth(par, y, depth(par, a) + 1);
        let pivot = ancestor_at_depth(par, parent, depth(par, a) + 1);
        heavier(w(fork), nodes[fork].hash, w(pivot), nodes[pivot].hash)
    } by {
        lemma_reaches_earlier(g, me, y);
        lemma_ancestor_depth(par, a, parent);
        lemma_ancestor_depth(par, a, y);
        if a == y {
            lemma_ancestor_is_reached(g, y, parent);
        }
        let h = depth(par, a) + 1;
        lemma_ancestor_at_depth(par, y, h);
        lemma_ancestor_at_depth(par, parent, h);
        let fork = ancestor_at_depth(par, y, h);
        let pivot = ancestor_at_depth(par, parent, h);
        lemma_child_on_path(nodes, a, y, fork);
        lemma_child_on_path(nodes, a, parent, pivot);
        lemma_heavier_by_weight_and_hash(w(fork), nodes[fork].hash, w(pivot), nodes[pivot].hash);
        assert(ancestor(par, fork, y) && ancestor(par, pivot, parent));
    }
    if has_correct_parent(nodes, w, me) {
        assert forall|y: int, a: int|
            #![trigger g.reaches(me, y), is_lowest_common_ancestor(par, y, parent, a)]
            y != me && g.reaches(me, y) && !g.reaches(parent, y) && !nodes[y].data.partial_invalid
                && is_lowest_common_ancestor(par, y, parent, a) && depth(par, a)
                >= start implies a != parent && !branch_wins(nodes, w, a, y, parent) by {
            assert(in_own_epoch(g, me, y));
        }
    } else {
        let y = choose|y: int| #[trigger]
            in_own_epoch(g, me, y) && crate::validity::shows_wrong_parent(nodes, w, parent, y);
        let a = choose|a: int| #[trigger]
            is_lowest_common_ancestor(par, y, parent, a) && crate::validity::fork_is_wrong(
                nodes,
                w,
                parent,
                y,
                a,
            );
        assert(g.reaches(me, y) && is_lowest_common_ancestor(par, y, parent, a));
    }
}

/// Of the two children of `a` on the ways to `y` and to `p`, the first is the
/// heavier.
pub open spec fn branch_wins(
    nodes: Seq<ConsensusGraphNode>,
    w: spec_fn(int) -> int,
    a: int,
    y: int,
    p: int,
) -> bool {
    exists|c: int, d: int|
        #![trigger ancestor(parents_of(nodes), c, y), ancestor(parents_of(nodes), d, p)]
        ancestor(parents_of(nodes), c, y) && ancestor(parents_of(nodes), d, p) && c > 0 && d > 0
            && nodes[c].parent == a && nodes[d].parent == a && (w(c) > w(d) || w(c) == w(d)
            && hash_number(nodes[c].hash) > hash_number(nodes[d].hash))
}

/// The child of `a` on the way to `x` is the ancestor of `x` one step below.
proof fn lemma_child_on_path(nodes: Seq<ConsensusGraphNode>, a: int, x: int, child: int)
    requires
        links_ok(nodes),
        0 <= x < nodes.len(),
        ancestor(parents_of(nodes), a, x),
        child == ancestor_at_depth(parents_of(nodes), x, depth(parents_of(nodes), a) + 1),
        depth(parents_of(nodes), a) < depth(parents_of(nodes), x),
    ensures
        0 < child <= x,
        nodes[child].parent == a,
        forall|c: int| #[trigger]
            ancestor(parents_of(nodes), c, x) && c > 0 && nodes[c].parent == a ==> c == child,
{
    let par = parents_of(nodes);
    lemma_node(nodes, x);
    let h = depth(par, a) + 1;
    lemma_ancestor_at_depth(par, x, h);
    lemma_node(nodes, child);
    assert(child > 0);
    let q = par[child] as int;
    assert(ancestor(par, q, q));
    assert(ancestor(par, q, child));
    lemma_ancestor_transitive(par, q, child, x);
    lemma_ancestor_unique(par, q, x);
    lemma_ancestor_unique(par, a, x);
    assert forall|c: int| #[trigger] ancestor(par, c, x) && c > 0 && nodes[c].parent
        == a implies c == child by {
        lemma_ancestor_earlier(par, c, x);
        lemma_node(nodes, c);
        lemma_ancestor_unique(par, c, x);
    }
}

/// In every era: a block is stable unless at some block on the path to its parent,
/// after the one at which the era began, more than the threshold has come since
/// and less than alpha of it into the subtree. It is adaptive if at some such
/// block the subtree of the parent weighs more than the threshold and the stable
/// blocks in its own less than alpha of that, or if the same holds of all blocks at
/// some block on the path in the era before.
pub proof fn lemma_rule_in_every_era(
    conf: ConsensusInnerConfig,
    nodes: Seq<ConsensusGraphNode>,
    me: int,
    start: int,
)
    requires
        is_newest(conf, nodes, me),
        start % 10_000 == 0,
        start <= depth(parents_of(nodes), nodes[me].parent as int) < start + 10_000,
    ensures
        ({
            let par = parents_of(nodes);
            let p = nodes[me].parent as int;
            let first = ancestor_at_depth(par, p, start as nat);
            let beta = conf.adaptive_weight_beta * nodes[me].difficulty.value();
            let num = conf.adaptive_weight_alpha_num as int;
            let den = conf.adaptive_weight_alpha_den as int;
            let w = |x: int| past_subtree_weight(conf, nodes, me, x);
            let sw = |x: int| past_stable_subtree_weight(conf, nodes, me, x);
            let since = |a: int|
                w(first) - nodes[nodes[a].parent as int].past_era_weight - weight_of(
                    conf,
                    nodes[nodes[a].parent as int],
                );
            &&& block_adaptivity(conf, nodes, me).0 <==> forall|a: int| #[trigger]
                ancestor(par, a, p) && depth(par, a) > start ==> since(a) <= beta || den * w(a)
                    >= num * since(a)
            &&& block_adaptivity(conf, nodes, me).1 <==> (exists|a: int| #[trigger]
                ancestor(par, a, p) && depth(par, a) > start && w(nodes[a].parent as int) > beta
                    && den * sw(a) < num * w(nodes[a].parent as int)) || (exists|a: int|
             #[trigger]
                ancestor(par, a, first) && depth(par, a) > start - 10_000 && depth(par, a) > 0
                    && w(nodes[a].parent as int) > beta && den * w(a) < num * w(
                    nodes[a].parent as int,
                ))
        }),
{
    let par = parents_of(nodes);
    lemma_node(nodes, me);
    let p = nodes[me].parent as int;
    let difficulty = nodes[me].difficulty.value();
    let beta = conf.adaptive_weight_beta * difficulty;
    let num = conf.adaptive_weight_alpha_num as int;
    let den = conf.adaptive_weight_alpha_den as int;
    let w = |x: int| past_subtree_weight(conf, nodes, me, x);
    let sw = |x: int| past_stable_subtree_weight(conf, nodes, me, x);
    let tw = seen_table(nodes, me, plain_weights(conf, nodes));
    let ts = seen_table(nodes, me, plain_stable_weights(conf, nodes));
    lemma_both_ways_agree(conf, nodes, me);
    assert(block_adaptivity(conf, nodes, me) == adaptivity_brutal(
        conf,
        nodes,
        tw,
        tw,
        ts,
        p,
        difficulty,
    ));
    assert forall|a: int| #[trigger] ancestor(par, a, p) implies table(tw)(a) == w(a) && table(
        ts,
    )(a) == sw(a) by {
        lemma_ancestor_earlier(par, a, p);
        lemma_table_is_past(conf, nodes, me, a);
    }
    lemma_adaptivity_same(
        conf,
        nodes,
        nodes,
        (table(tw), table(tw), table(ts)),
        (w, w, sw),
        p,
        difficulty,
    );
    lemma_eras(depth(par, p) as int, start);
    let first = ancestor_at_depth(par, p, start as nat);
    let total = w(first);
    let unstable = |a: int| unstable_at(conf, nodes, w, total, beta, a);
    let diluted = |a: int| diluted_at(conf, nodes, sw, w, beta, a);
    let before = |a: int| diluted_at(conf, nodes, w, w, beta, a);
    let two = era_height(depth(par, p) as int, 10_000);
    assert(block_adaptivity(conf, nodes, me) == (
        !some_on_path(par, p, start, unstable),
        some_on_path(par, p, start, diluted) || some_on_path(par, first, two, before),
    ));
    if !some_on_path(par, p, start, unstable) {
        assert forall|a: int| #[trigger] ancestor(par, a, p) && depth(par, a)
            > start implies came_since(conf, nodes, total, a) <= beta || den * w(a) >= num
            * came_since(conf, nodes, total, a) by {
            assert(!unstable(a));
        }
    } else {
        let a = choose|a: int| #[trigger]
            ancestor(par, a, p) && depth(par, a) > start && unstable(a);
        assert(ancestor(par, a, p));
    }
    if some_on_path(par, p, start, diluted) {
        let a = choose|a: int| #[trigger]
            ancestor(par, a, p) && depth(par, a) > start && diluted(a);
        assert(ancestor(par, a, p));
    }
    if exists|a: int| #[trigger]
        ancestor(par, a, p) && depth(par, a) > start && w(nodes[a].parent as int) > beta && den
            * sw(a) < num * w(nodes[a].parent as int) {
        let a = choose|a: int| #[trigger]
            ancestor(par, a, p) && depth(par, a) > start && w(nodes[a].parent as int) > beta && den
                * sw(a) < num * w(nodes[a].parent as int);
        assert(diluted(a));
    }
    if some_on_path(par, first, two, before) {
        let a = choose|a: int| #[trigger]
            ancestor(par, a, first) && depth(par, a) > two && before(a);
        assert(ancestor(par, a, first));
    }
    if exists|a: int| #[trigger]
        ancestor(par, a, first) && depth(par, a) > start - 10_000 && depth(par, a) > 0 && w(
            nodes[a].parent as int,
        ) > beta && den * w(a) < num * w(nodes[a].parent as int) {
        let a = choose|a: int| #[trigger]
            ancestor(par, a, first) && depth(par, a) > start - 10_000 && depth(par, a) > 0 && w(
                nodes[a].parent as int,
            ) > beta && den * w(a) < num * w(nodes[a].parent as int);
        assert(before(a));
    }
}

} // verus!
