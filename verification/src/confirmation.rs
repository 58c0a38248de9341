//! How likely it is that an epoch of the pivot chain will still be replaced.

use vstd::prelude::*;
use crate::arena::ConsensusGraphNode;
use crate::config::{ConsensusInnerConfig, DEFERRED_STATE_EPOCH_COUNT, MAX_NUM_MAINTAINED_RISK,
    MIN_MAINTAINED_RISK};
use crate::dag::NULL;
use crate::model::{subtree_weight, weight_limit, weight_of};
#[allow(unused_imports)]
use crate::past::lemma_recorded_bounds;
use crate::state::ConsensusGraphInner;
#[allow(unused_imports)]
use crate::state::lemma_node;
use crate::types::H256;

verus! {

/// The risks of the newest epochs whose state can be read, oldest first, each in
/// millionths, and the height of the first of them.
pub struct FinalityManager {
    pub lowest_epoch_num: usize,
    pub risks_less_than: Vec<u32>,
}

/// The risk of a block with a small advantage, in millionths.
pub const RISK_HIGH: u32 = 900_000;

/// The risk of a block with a fair advantage, in millionths.
pub const RISK_LOW: u32 = 100;

/// The heaviest weight among the listed blocks other than `idx`.
pub open spec fn heaviest_other(
    conf: ConsensusInnerConfig,
    nodes: Seq<ConsensusGraphNode>,
    list: Seq<usize>,
    idx: int,
) -> int
    decreases list.len(),
{
    if list.len() == 0 {
        0
    } else {
        let rest = heaviest_other(conf, nodes, list.drop_last(), idx);
        let w = weight_of(conf, nodes[list.last() as int]);
        if list.last() != idx && w > rest {
            w
        } else {
            rest
        }
    }
}

/// The advantage up to which a risk holds after `m` blocks: it grows by two
/// fifths of them from `a`, but by no more than two sevenths of them from `b`.
pub open spec fn advantage_limit(m: int, a: int, b: int) -> int {
    let fast = 2 * m / 5 + a;
    let slow = 2 * m / 7 + b;
    if fast < slow {
        fast
    } else {
        slow
    }
}

/// The risk that goes with an advantage of `n` blocks after `m` blocks.
pub open spec fn risk_for(n: int, m: int) -> u32 {
    if n <= advantage_limit(m, 13, 36) {
        RISK_HIGH
    } else if n <= advantage_limit(m, 19, 57) {
        RISK_LOW
    } else {
        MIN_MAINTAINED_RISK
    }
}

/// A difference, or nothing if it is negative.
pub open spec fn excess(a: int, b: int) -> int {
    if a >= b {
        a - b
    } else {
        0
    }
}

/// The risk of replacing the pivot block at a height: `w_0` is the weight of
/// the whole tree and `w_4` the weight that may still be withheld.
pub open spec fn epoch_risk(inner: ConsensusGraphInner, w_0: int, w_4: int, epoch: int) -> u32 {
    let nodes = inner.nodes();
    let idx = inner.pivot_chain@[epoch] as int;
    let w_1 = weight_of(inner.inner_conf, nodes[idx]);
    let w_2 = heaviest_other(
        inner.inner_conf,
        nodes,
        nodes[nodes[idx].parent as int].children@,
        idx,
    );
    let w_3 = nodes[idx].past_weight as int;
    let d = inner.current_difficulty.value();
    risk_for(excess(w_1, w_2 + w_4) / d + 1, excess(w_0, w_3) / d)
}

/// The more blocks came, the higher is the limit of the advantage.
proof fn lemma_limit_grows(m: int, n: int, a: int, b: int)
    requires
        m <= n,
    ensures
        advantage_limit(m, a, b) <= advantage_limit(n, a, b),
{
}

/// The risk of replacing a pivot block is one of three values. It never shrinks
/// when the whole tree weighs more, nor when more weight may be withheld.
pub proof fn lemma_risk_grows_with_weight(
    inner: ConsensusGraphInner,
    w_0: int,
    w_4: int,
    more_0: int,
    more_4: int,
    epoch: int,
)
    requires
        inner.current_difficulty.value() > 0,
        w_0 <= more_0,
        w_4 <= more_4,
    ensures
        epoch_risk(inner, w_0, w_4, epoch) <= epoch_risk(inner, more_0, more_4, epoch),
        epoch_risk(inner, w_0, w_4, epoch) == RISK_HIGH || epoch_risk(inner, w_0, w_4, epoch)
            == RISK_LOW || epoch_risk(inner, w_0, w_4, epoch) == MIN_MAINTAINED_RISK,
{
    let nodes = inner.nodes();
    let idx = inner.pivot_chain@[epoch] as int;
    let w_1 = weight_of(inner.inner_conf, nodes[idx]);
    let w_2 = heaviest_other(
        inner.inner_conf,
        nodes,
        nodes[nodes[idx].parent as int].children@,
        idx,
    );
    let w_3 = nodes[idx].past_weight as int;
    let d = inner.current_difficulty.value();
    vstd::arithmetic::div_mod::lemma_div_is_ordered(
        excess(w_1, w_2 + more_4),
        excess(w_1, w_2 + w_4),
        d,
    );
    vstd::arithmetic::div_mod::lemma_div_is_ordered(excess(w_0, w_3), excess(more_0, w_3), d);
    let m = excess(w_0, w_3) / d;
    let n = excess(more_0, w_3) / d;
    lemma_limit_grows(m, n, 13, 36);
    lemma_limit_grows(m, n, 19, 57);
}

/// The largest of the first `n` risks.
pub open spec fn largest_risk(risks: Seq<u32>, n: int) -> int
    decreases n,
{
    if n <= 0 {
        0
    } else {
        let rest = largest_risk(risks, n - 1);
        if rest < risks[n - 1] {
            risks[n - 1] as int
        } else {
            rest
        }
    }
}

impl FinalityManager {
    /// Only risks worth keeping are kept.
    pub open spec fn wf(&self) -> bool {
        &&& forall|i: int|
            0 <= i < self.risks_less_than@.len() ==> (#[trigger] self.risks_less_than@[i])
                > MIN_MAINTAINED_RISK
        &&& self.lowest_epoch_num + self.risks_less_than@.len() <= usize::MAX
    }

    /// The risk that an epoch is replaced: a risk of an earlier epoch is one of
    /// it, too.
    pub open spec fn risk_at(&self, epoch: int) -> Option<u32> {
        let at = epoch - self.lowest_epoch_num;
        if epoch == 0 {
            Some(0)
        } else if at < 0 {
            Some(MIN_MAINTAINED_RISK)
        } else if at < self.risks_less_than@.len() {
            Some(largest_risk(self.risks_less_than@, at + 1) as u32)
        } else {
            None
        }
    }

    pub fn new() -> (finality: FinalityManager)
        ensures
            finality.wf(),
            finality.lowest_epoch_num == 0,
            finality.risks_less_than@.len() == 0,
    {
        FinalityManager { lowest_epoch_num: 0, risks_less_than: Vec::new() }
    }

    /// The risk that the epoch at a height is replaced, in millionths, where it
    /// is known.
    pub fn risk_of_epoch(&self, epoch_num: usize) -> (risk: Option<u32>)
        requires
            self.wf(),
        ensures
            risk == self.risk_at(epoch_num as int),
    {
        if epoch_num == 0 {
            return Some(0);
        }
        if epoch_num < self.lowest_epoch_num {
            return Some(MIN_MAINTAINED_RISK);
        }
        let idx: usize = epoch_num - self.lowest_epoch_num;
        if idx < self.risks_less_than.len() {
            let end: usize = idx + 1;
            let mut max_risk: u32 = 0;
            let mut i: usize = 0;
            while i < end
                invariant
                    i <= end <= self.risks_less_than@.len(),
                    max_risk == largest_risk(self.risks_less_than@, i as int),
                decreases end - i,
            {
                let risk: u32 = self.risks_less_than[i];
                if max_risk < risk {
                    max_risk = risk;
                }
                i += 1;
            }
            Some(max_risk)
        } else {
            None
        }
    }
}

proof fn lemma_largest_risk(risks: Seq<u32>, n: int)
    requires
        0 <= n <= risks.len(),
    ensures
        0 <= largest_risk(risks, n) <= u32::MAX,
        forall|i: int| 0 <= i < n ==> (#[trigger] risks[i]) <= largest_risk(risks, n),
    decreases n,
{
    if n > 0 {
        lemma_largest_risk(risks, n - 1);
    }
}

proof fn lemma_largest_risk_grows(risks: Seq<u32>, m: int, n: int)
    requires
        m <= n,
    ensures
        largest_risk(risks, m) <= largest_risk(risks, n),
    decreases n - m,
{
    if m < n {
        lemma_largest_risk_grows(risks, m, n - 1);
        if n <= 0 {
            assert(largest_risk(risks, m) == 0);
        }
    }
}

/// Where the risks of two epochs are known, that of the later one is not
/// smaller.
pub proof fn lemma_risk_grows(finality: FinalityManager, early: int, late: int)
    requires
        finality.wf(),
        0 <= early <= late,
        finality.risk_at(early) is Some,
        finality.risk_at(late) is Some,
    ensures
        finality.risk_at(early)->Some_0 <= finality.risk_at(late)->Some_0,
{
    let risks = finality.risks_less_than@;
    let at = late - finality.lowest_epoch_num;
    if late > 0 && 0 <= at < risks.len() {
        lemma_largest_risk(risks, at + 1);
        assert(risks[0] > MIN_MAINTAINED_RISK);
        let before = early - finality.lowest_epoch_num;
        if early > 0 && before >= 0 {
            lemma_largest_risk(risks, before + 1);
            lemma_largest_risk_grows(risks, before + 1, at + 1);
        }
    }
}

/// The risks that were kept, after an update: those of the newest epochs whose
/// state can be read, down to the first that is not worth keeping, and at most
/// `MAX_NUM_MAINTAINED_RISK` of them.
pub open spec fn is_finality_of(
    inner: ConsensusGraphInner,
    w_0: int,
    w_4: int,
    count: int,
    finality: FinalityManager,
) -> bool {
    let top = inner.pivot_chain@.len() - DEFERRED_STATE_EPOCH_COUNT;
    &&& 0 <= count <= MAX_NUM_MAINTAINED_RISK
    &&& count <= top
    &&& forall|e: int|
        top - count < e <= top ==> #[trigger] epoch_risk(inner, w_0, w_4, e) > MIN_MAINTAINED_RISK
    &&& count == MAX_NUM_MAINTAINED_RISK || count == top || epoch_risk(
        inner,
        w_0,
        w_4,
        top - count,
    ) <= MIN_MAINTAINED_RISK
    &&& finality.risks_less_than@.len() == count
    &&& forall|i: int|
        0 <= i < count ==> #[trigger] finality.risks_less_than@[i] == epoch_risk(
            inner,
            w_0,
            w_4,
            top - count + 1 + i,
        )
    &&& finality.lowest_epoch_num == (if count == 0 {
        0
    } else {
        top - count + 1
    })
}

/// The same for the weight of the whole tree and as many risks as there are.
pub open spec fn is_finality(
    inner: ConsensusGraphInner,
    w_4: int,
    finality: FinalityManager,
) -> bool {
    is_finality_of(
        inner,
        subtree_weight(inner.inner_conf, inner.nodes(), inner.size(), 0),
        w_4,
        finality.risks_less_than@.len() as int,
        finality,
    )
}

/// The risk that a block leaves its epoch, where it is known.
pub open spec fn block_risk(
    inner: ConsensusGraphInner,
    finality: FinalityManager,
    hash: H256,
) -> Option<u32> {
    if inner.indices@.contains_key(hash)
        && inner.nodes()[inner.indices@[hash] as int].data.epoch_number != NULL {
        finality.risk_at(inner.nodes()[inner.indices@[hash] as int].data.epoch_number as int)
    } else {
        None
    }
}

impl ConsensusGraphInner {
    /// The weight of the heaviest sibling of a block.
    fn heaviest_sibling(&self, idx: usize) -> (weight: i128)
        requires
            self.base_ok(),
            0 < idx < self.size(),
        ensures
            weight == heaviest_other(
                self.inner_conf,
                self.nodes(),
                self.nodes()[self.nodes()[idx as int].parent as int].children@,
                idx as int,
            ),
            0 <= weight <= weight_limit(),
    {
        proof {
            lemma_node(self.nodes(), idx as int);
        }
        let parent: usize = self.arena.get(idx).parent;
        let ghost list = self.nodes()[parent as int].children@;
        proof {
            lemma_node(self.nodes(), parent as int);
        }
        let mut max_weight: i128 = 0;
        let mut i: usize = 0;
        let count: usize = self.arena.get(parent).children.len();
        assert(list.take(0) =~= Seq::<usize>::empty());
        while i < count
            invariant
                self.base_ok(),
                parent < self.size(),
                list == self.nodes()[parent as int].children@,
                count == list.len(),
                i <= count,
                forall|j: int| 0 <= j < list.len() ==> (#[trigger] list[j]) < self.size(),
                max_weight == heaviest_other(
                    self.inner_conf,
                    self.nodes(),
                    list.take(i as int),
                    idx as int,
                ),
                0 <= max_weight <= weight_limit(),
            decreases count - i,
        {
            let child: usize = self.arena.get(parent).children[i];
            assert(list[i as int] == child);
            let weight: i128 = self.block_weight(child, false);
            proof {
                let upto = list.take(i + 1);
                assert(upto.drop_last() =~= list.take(i as int));
                assert(upto.last() == child);
            }
            if child != idx && !self.arena.get(child).data.partial_invalid {
                if weight > max_weight {
                    max_weight = weight;
                }
            }
            i += 1;
        }
        assert(list.take(count as int) =~= list);
        max_weight
    }

    /// The risk that the pivot block at a height is replaced, in millionths.
    pub fn confirmation_risk(&self, w_0: i128, w_4: i128, epoch_num: usize) -> (risk: u32)
        requires
            self.base_ok(),
            0 < epoch_num < self.pivot_chain@.len(),
            0 <= w_0 <= weight_limit(),
            0 <= w_4 <= i128::MAX - weight_limit(),
            self.current_difficulty.fits_weight(),
            self.current_difficulty.value() != 0,
        ensures
            risk == epoch_risk(*self, w_0 as int, w_4 as int, epoch_num as int),
            risk == RISK_HIGH || risk == RISK_LOW || risk == MIN_MAINTAINED_RISK,
    {
        let idx: usize = self.pivot_chain[epoch_num];
        proof {
            assert(self.pivot_chain@[epoch_num as int] < self.size());
            assert(self.pivot_chain@[0] < self.size());
            lemma_node(self.nodes(), 0);
            crate::validity::lemma_chain_index(
                self.parents(),
                self.pivot_chain@,
                epoch_num as int,
            );
            crate::dag::lemma_root_is_ancestor(self.parents(), idx as int);
            lemma_recorded_bounds(self.inner_conf, self.nodes(), self.size(), idx as int);
            self.current_difficulty.lemma_value_decides(self.current_difficulty);
        }
        let w_1: i128 = self.block_weight(idx, false);
        let w_2: i128 = self.heaviest_sibling(idx);
        let w_3: i128 = self.arena.get(idx).past_weight;
        let d: i128 = self.current_difficulty.to_weight();
        let w_2_4: i128 = w_2 + w_4;
        let lead: i128 = if w_1 >= w_2_4 {
            w_1 - w_2_4
        } else {
            0
        };
        proof {
            vstd::arithmetic::div_mod::lemma_div_is_ordered_by_denominator(
                lead as int,
                1,
                d as int,
            );
            vstd::arithmetic::div_mod::lemma_div_pos_is_pos(lead as int, d as int);
        }
        let n: i128 = lead / d + 1;
        let since: i128 = if w_0 >= w_3 {
            w_0 - w_3
        } else {
            0
        };
        proof {
            vstd::arithmetic::div_mod::lemma_div_is_ordered_by_denominator(
                since as int,
                1,
                d as int,
            );
            vstd::arithmetic::div_mod::lemma_div_pos_is_pos(since as int, d as int);
        }
        let m: i128 = since / d;
        let m_2: i128 = 2 * m;
        let e_1: i128 = m_2 / 5;
        let e_2: i128 = m_2 / 7;
        let fast: i128 = e_1 + 13;
        let slow: i128 = e_2 + 36;
        let n_min: i128 = if fast < slow {
            fast
        } else {
            slow
        };
        if n <= n_min {
            return RISK_HIGH;
        }
        let fast: i128 = e_1 + 19;
        let slow: i128 = e_2 + 57;
        let n_min: i128 = if fast < slow {
            fast
        } else {
            slow
        };
        if n <= n_min {
            return RISK_LOW;
        }
        MIN_MAINTAINED_RISK
    }

    /// The risks of the newest epochs whose state can be read, when the chain is
    /// long enough to have one.
    pub fn update_confirmation_risks(&self, w_4: i128) -> (finality: Option<FinalityManager>)
        requires
            self.ready(),
            0 <= w_4 <= i128::MAX - weight_limit(),
            self.pivot_chain@.len() > DEFERRED_STATE_EPOCH_COUNT
                ==> self.current_difficulty.fits_weight() && self.current_difficulty.value() != 0,
        ensures
            finality is Some <==> self.pivot_chain@.len() > DEFERRED_STATE_EPOCH_COUNT,
            finality matches Some(f) ==> f.wf(),
            finality matches Some(f) ==> is_finality(*self, w_4 as int, f),
    {
        let len: usize = self.pivot_chain.len();
        if len <= DEFERRED_STATE_EPOCH_COUNT as usize {
            return None;
        }
        let ghost n = self.size();
        proof {
            assert(self.pivot_chain@[0] < n);
            self.lemma_tree_weight_at(n, 0);
            crate::trees::lemma_tree_weight_bounds(self.inner_conf, self.nodes(), n, 0);
        }
        let w_0: i128 = self.trees.weight_tree.get(self.genesis_block_index);
        assert(w_0 == subtree_weight(self.inner_conf, self.nodes(), n, 0));
        let top: usize = len - DEFERRED_STATE_EPOCH_COUNT as usize;
        let mut epoch_num: usize = top;
        let mut risks: Vec<u32> = Vec::new();
        let mut count: usize = 0;
        let mut more: bool = true;
        while more && epoch_num > 0 && count < MAX_NUM_MAINTAINED_RISK
            invariant
                self.ready(),
                len == self.pivot_chain@.len(),
                len > DEFERRED_STATE_EPOCH_COUNT,
                top == len - DEFERRED_STATE_EPOCH_COUNT,
                0 <= w_0 <= weight_limit(),
                0 <= w_4 <= i128::MAX - weight_limit(),
                self.current_difficulty.fits_weight(),
                self.current_difficulty.value() != 0,
                count <= MAX_NUM_MAINTAINED_RISK,
                count <= top,
                epoch_num == top - count,
                !more ==> epoch_num > 0 && epoch_risk(
                    *self,
                    w_0 as int,
                    w_4 as int,
                    epoch_num as int,
                ) <= MIN_MAINTAINED_RISK,
                risks@.len() == count,
                forall|e: int|
                    top - count < e <= top ==> #[trigger] epoch_risk(
                        *self,
                        w_0 as int,
                        w_4 as int,
                        e,
                    ) > MIN_MAINTAINED_RISK,
                forall|i: int|
                    0 <= i < count ==> #[trigger] risks@[i] == epoch_risk(
                        *self,
                        w_0 as int,
                        w_4 as int,
                        top - count + 1 + i,
                    ),
            decreases (if more {
                1int
            } else {
                0
            }), epoch_num,
        {
            let risk: u32 = self.confirmation_risk(w_0, w_4, epoch_num);
            if risk <= MIN_MAINTAINED_RISK {
                more = false;
            } else {
                let ghost before = risks@;
                risks.insert(0, risk);
                epoch_num -= 1;
                count += 1;
                proof {
                    assert forall|i: int| 0 <= i < count implies #[trigger] risks@[i]
                        == epoch_risk(
                        *self,
                        w_0 as int,
                        w_4 as int,
                        top - count + 1 + i,
                    ) by {
                        if i > 0 {
                            assert(risks@[i] == before[i - 1]);
                        }
                    }
                }
            }
        }
        let lowest: usize = if risks.len() == 0 {
            0
        } else {
            epoch_num + 1
        };
        let finality = FinalityManager { lowest_epoch_num: lowest, risks_less_than: risks };
        proof {
            assert(finality.wf()) by {
                assert forall|i: int| 0 <= i < finality.risks_less_than@.len() implies (
                #[trigger] finality.risks_less_than@[i]) > MIN_MAINTAINED_RISK by {
                    assert(epoch_risk(*self, w_0 as int, w_4 as int, top - count + 1 + i)
                        > MIN_MAINTAINED_RISK);
                }
            }
            assert(is_finality_of(*self, w_0 as int, w_4 as int, count as int, finality));
        }
        Some(finality)
    }

    /// The risk that a block leaves its epoch, in millionths, where it is known.
    pub fn confirmation_risk_by_hash(
        &self,
        finality: &FinalityManager,
        hash: H256,
    ) -> (risk: Option<u32>)
        requires
            self.base_ok(),
            finality.wf(),
        ensures
            risk == (if self.indices@.contains_key(hash)
                && self.nodes()[self.indices@[hash] as int].data.epoch_number != NULL {
                finality.risk_at(
                    self.nodes()[self.indices@[hash] as int].data.epoch_number as int,
                )
            } else {
                None
            }),
            risk == block_risk(*self, *finality, hash),
    {
        match self.get_block_epoch_number(&hash) {
            Some(epoch_num) => {
                if epoch_num == NULL {
                    None
                } else {
                    finality.risk_of_epoch(epoch_num)
                }
            },
            None => None,
        }
    }
}

} // verus!
