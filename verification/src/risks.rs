//! What the risks that are told of epochs come down to.

use vstd::prelude::*;
use crate::confirmation::{epoch_risk, heaviest_other, is_finality, largest_risk, risk_for,
    FinalityManager};
use crate::model::{links_ok, subtree_weight, weight_of};
use crate::state::ConsensusGraphInner;
#[allow(unused_imports)]
use crate::state::lemma_node;

verus! {

/// The largest of some risks is one of them, and none is larger.
proof fn lemma_largest(risks: Seq<u32>, n: int)
    requires
        0 < n <= risks.len(),
    ensures
        forall|i: int| 0 <= i < n ==> (#[trigger] risks[i]) <= largest_risk(risks, n),
        exists|i: int| 0 <= i < n && #[trigger] risks[i] == largest_risk(risks, n),
    decreases n,
{
    if n > 1 {
        lemma_largest(risks, n - 1);
        let i = choose|i: int| 0 <= i < n - 1 && #[trigger] risks[i] == largest_risk(risks, n - 1);
        if largest_risk(risks, n - 1) < risks[n - 1] {
            assert(risks[n - 1] == largest_risk(risks, n));
        } else {
            assert(risks[i] == largest_risk(risks, n));
        }
    } else {
        assert(largest_risk(risks, 0) == 0);
        assert(risks[0] == largest_risk(risks, n));
    }
}

/// After an update, the risks of a run of epochs are kept that ends with the
/// newest epoch whose state can be read, five below the length of the chain, and
/// that goes back while a risk is worth keeping, over ten epochs at most. What is
/// told of a kept epoch is the largest risk among the kept epochs up to it; it is
/// never less than its own. Epochs below the kept ones are told to be as good as
/// settled, and of those above nothing is told.
pub proof fn lemma_told_risks(inner: ConsensusGraphInner, w_4: int, finality: FinalityManager)
    requires
        inner.pivot_chain@.len() > 5,
        is_finality(inner, w_4, finality),
    ensures
        ({
            let w_0 = subtree_weight(inner.inner_conf, inner.nodes(), inner.size(), 0);
            let top = inner.pivot_chain@.len() - 5;
            let kept = finality.risks_less_than@.len();
            &&& kept <= 10
            &&& kept <= top
            &&& forall|e: int|
                top - kept < e <= top ==> #[trigger] epoch_risk(inner, w_0, w_4, e) > 1
            &&& kept < 10 && kept < top ==> epoch_risk(inner, w_0, w_4, top - kept) <= 1
            &&& forall|e: int|
                #![trigger finality.risk_at(e)]
                top - kept < e <= top ==> finality.risk_at(e) is Some
                    && finality.risk_at(e)->Some_0 >= epoch_risk(inner, w_0, w_4, e)
            &&& forall|e: int|
                #![trigger finality.risk_at(e)]
                top - kept < e <= top ==> exists|f: int|
                    top - kept < f <= e && #[trigger] epoch_risk(inner, w_0, w_4, f)
                        == finality.risk_at(e)->Some_0
            &&& forall|e: int, f: int|
                #![trigger finality.risk_at(e), epoch_risk(inner, w_0, w_4, f)]
                top - kept < f <= e <= top ==> epoch_risk(inner, w_0, w_4, f) <= finality.risk_at(
                    e,
                )->Some_0
            &&& kept > 0 ==> forall|e: int|
                0 < e <= top - kept ==> #[trigger] finality.risk_at(e) == Some(1u32)
            &&& kept > 0 ==> finality.risk_at(top) is Some
            &&& kept == 0 ==> forall|e: int|
                e > 0 ==> #[trigger] finality.risk_at(e) == None::<u32>
            &&& forall|e: int| e > top ==> #[trigger] finality.risk_at(e) == None::<u32>
            &&& finality.risk_at(0) == Some(0u32)
        }),
{
    let w_0 = subtree_weight(inner.inner_conf, inner.nodes(), inner.size(), 0);
    let top = inner.pivot_chain@.len() - 5;
    let kept = finality.risks_less_than@.len() as int;
    let risks = finality.risks_less_than@;
    assert forall|e: int| #![trigger finality.risk_at(e)] top - kept < e <= top implies {
        &&& finality.risk_at(e) is Some
        &&& finality.risk_at(e)->Some_0 >= epoch_risk(inner, w_0, w_4, e)
        &&& exists|f: int|
            top - kept < f <= e && #[trigger] epoch_risk(inner, w_0, w_4, f) == finality.risk_at(
                e,
            )->Some_0
        &&& forall|f: int|
            top - kept < f <= e ==> #[trigger] epoch_risk(inner, w_0, w_4, f) <= finality.risk_at(
                e,
            )->Some_0
    } by {
        let at = e - finality.lowest_epoch_num;
        lemma_largest(risks, at + 1);
        let i = choose|i: int| 0 <= i < at + 1 && #[trigger] risks[i] == largest_risk(
            risks,
            at + 1,
        );
        assert(epoch_risk(inner, w_0, w_4, top - kept + 1 + i) == risks[i]);
        assert(epoch_risk(inner, w_0, w_4, e) == risks[at]);
        assert forall|f: int| top - kept < f <= e implies #[trigger] epoch_risk(inner, w_0, w_4, f)
            <= finality.risk_at(e)->Some_0 by {
            assert(risks[f - (top - kept + 1)] == epoch_risk(inner, w_0, w_4, f));
        }
    }
    if kept > 0 {
        assert(finality.risk_at(top) is Some);
    }
}

/// The heaviest of the other listed blocks is one of them, and none is heavier.
proof fn lemma_heaviest_other(inner: ConsensusGraphInner, list: Seq<usize>, idx: int)
    ensures
        ({
            let most = heaviest_other(inner.inner_conf, inner.nodes(), list, idx);
            &&& most >= 0
            &&& forall|j: int|
                0 <= j < list.len() && (#[trigger] list[j]) != idx ==> weight_of(
                    inner.inner_conf,
                    inner.nodes()[list[j] as int],
                ) <= most
            &&& most == 0 || exists|j: int|
                0 <= j < list.len() && (#[trigger] list[j]) != idx && weight_of(
                    inner.inner_conf,
                    inner.nodes()[list[j] as int],
                ) == most
        }),
    decreases list.len(),
{
    if list.len() > 0 {
        let rest = list.drop_last();
        lemma_heaviest_other(inner, rest, idx);
        let most = heaviest_other(inner.inner_conf, inner.nodes(), list, idx);
        let before = heaviest_other(inner.inner_conf, inner.nodes(), rest, idx);
        assert forall|j: int| 0 <= j < list.len() && (#[trigger] list[j]) != idx implies weight_of(
            inner.inner_conf,
            inner.nodes()[list[j] as int],
        ) <= most by {
            if j < rest.len() {
                assert(rest[j] == list[j]);
            }
        }
        if most == before {
            if most != 0 {
                let j = choose|j: int|
                    0 <= j < rest.len() && (#[trigger] rest[j]) != idx && weight_of(
                        inner.inner_conf,
                        inner.nodes()[rest[j] as int],
                    ) == most;
                assert(list[j] == rest[j]);
            }
        } else {
            assert(list[list.len() - 1] == list.last());
        }
    }
}

/// The risk of an epoch, by whole blocks of the current difficulty: `n` is one
/// more than the blocks by which the pivot block leads over its heaviest sibling
/// with everything that may be withheld, and `m` counts the blocks in the tree
/// beyond its past. The risk is high while `n` is at most two fifths of `m` and
/// thirteen, and at most two sevenths of `m` and thirty-six; else it is low while
/// that holds with nineteen and fifty-seven; else it is not worth keeping.
pub proof fn lemma_epoch_risk(
    inner: ConsensusGraphInner,
    w_0: int,
    w_4: int,
    epoch: int,
    rival: int,
    n: int,
    m: int,
)
    requires
        links_ok(inner.nodes()),
        0 < epoch < inner.pivot_chain@.len(),
        0 < inner.pivot_chain@[epoch] < inner.size(),
        inner.current_difficulty.value() > 0,
        rival >= 0,
        forall|y: int|
            0 < y < inner.size() && y != inner.pivot_chain@[epoch] && (
            #[trigger] inner.nodes()[y]).parent
                == inner.nodes()[inner.pivot_chain@[epoch] as int].parent ==> weight_of(
                inner.inner_conf,
                inner.nodes()[y],
            ) <= rival,
        rival == 0 || exists|y: int|
            0 < y < inner.size() && y != inner.pivot_chain@[epoch] && (
            #[trigger] inner.nodes()[y]).parent
                == inner.nodes()[inner.pivot_chain@[epoch] as int].parent && weight_of(
                inner.inner_conf,
                inner.nodes()[y],
            ) == rival,
        n >= 1,
        ({
            let d = inner.current_difficulty.value();
            let lead = weight_of(
                inner.inner_conf,
                inner.nodes()[inner.pivot_chain@[epoch] as int],
            ) - rival - w_4;
            &&& lead >= 0 ==> (n - 1) * d <= lead < n * d
            &&& lead < 0 ==> n == 1
        }),
        ({
            let d = inner.current_difficulty.value();
            let since = w_0 - inner.nodes()[inner.pivot_chain@[epoch] as int].past_weight;
            &&& since >= 0 ==> m * d <= since < (m + 1) * d
            &&& since < 0 ==> m == 0
        }),
    ensures
        ({
            let high = 5 * (n - 13) <= 2 * m && 7 * (n - 36) <= 2 * m;
            let low = 5 * (n - 19) <= 2 * m && 7 * (n - 57) <= 2 * m;
            let risk = epoch_risk(inner, w_0, w_4, epoch);
            &&& high ==> risk == 900_000
            &&& !high && low ==> risk == 100
            &&& !high && !low ==> risk == 1
        }),
{
    let nodes = inner.nodes();
    let idx = inner.pivot_chain@[epoch] as int;
    let parent = nodes[idx].parent as int;
    let list = nodes[parent].children@;
    let w_1 = weight_of(inner.inner_conf, nodes[idx]);
    let w_2 = heaviest_other(inner.inner_conf, nodes, list, idx);
    let w_3 = nodes[idx].past_weight as int;
    let d = inner.current_difficulty.value();
    lemma_node(nodes, idx);
    lemma_heaviest_other(inner, list, idx);
    assert(w_2 == rival) by {
        reveal(links_ok);
        if w_2 != 0 {
            let j = choose|j: int|
                0 <= j < list.len() && (#[trigger] list[j]) != idx && weight_of(
                    inner.inner_conf,
                    inner.nodes()[list[j] as int],
                ) == w_2;
            lemma_node(nodes, parent);
            assert(nodes[list[j] as int].parent == parent);
            assert(w_2 <= rival);
        }
        if rival != 0 {
            let y = choose|y: int|
                0 < y < inner.size() && y != inner.pivot_chain@[epoch] && (
                #[trigger] inner.nodes()[y]).parent == parent && weight_of(
                    inner.inner_conf,
                    inner.nodes()[y],
                ) == rival;
            assert(list.contains(y as usize));
            let j = choose|j: int| 0 <= j < list.len() && list[j] == y as usize;
            assert(list[j] != idx);
        }
    }
    let lead = crate::confirmation::excess(w_1, w_2 + w_4);
    let since = crate::confirmation::excess(w_0, w_3);
    if w_1 < w_2 + w_4 {
        assert((n - 1) * d == 0 && n * d == d) by (nonlinear_arith)
            requires
                n == 1,
        ;
    }
    if w_0 < w_3 {
        assert(m * d == 0 && (m + 1) * d == d) by (nonlinear_arith)
            requires
                m == 0,
        ;
    }
    assert(lead / d == n - 1) by (nonlinear_arith)
        requires
            d > 0,
            (n - 1) * d <= lead < n * d,
    ;
    assert(since / d == m) by (nonlinear_arith)
        requires
            d > 0,
            m * d <= since < (m + 1) * d,
    ;
    assert(epoch_risk(inner, w_0, w_4, epoch) == risk_for(n, m));
}

} // verus!
