//! Taking a new block in, up to the questions that only others can answer.

use vstd::prelude::*;
use crate::adaptive::{adaptivity, weights_without};
use crate::anticone::barrier_of;
use crate::arena::{dag_of, ConsensusGraphNode};
use crate::bits::BlockSet;
use crate::brutal::{adaptivity_brutal, table};
use crate::config::{ConsensusInnerConfig, ANTICONE_BARRIER_CAP};
#[allow(unused_imports)]
use crate::dag::{lemma_ancestor_earlier, lemma_reaches_earlier};
use crate::model::{limits_ok, links_ok, parents_of, tree_weights, weight_of};
#[allow(unused_imports)]
use crate::removal::{lemma_barrier_of, not_below};
use crate::removal::seen_sum;
use crate::state::ConsensusGraphInner;
#[allow(unused_imports)]
use crate::state::lemma_node;
#[allow(unused_imports)]
use crate::sums::{lemma_sum_congruent, masked, sum_to};
use crate::validity::{has_correct_parent, passes_first_look};

verus! {

/// A block that hangs in the trees and whose weight is not counted yet.
pub struct WeighedBlock {
    pub me: usize,
    pub anticone_barrier: BlockSet,
    pub weight_tuple: Option<(Vec<i128>, Vec<i128>, Vec<i128>)>,
    pub stable: bool,
    pub adaptive: bool,
}

/// The sums of `f` over the subtrees of all blocks, of the part that `me` sees.
pub open spec fn seen_table(
    nodes: Seq<ConsensusGraphNode>,
    me: int,
    f: spec_fn(int) -> int,
) -> Seq<i128> {
    Seq::new(
        nodes.len(),
        |x: int|
            seen_sum(
                parents_of(nodes),
                barrier_of(dag_of(nodes), me).insert(me),
                f,
                nodes.len(),
                x,
            ) as i128,
    )
}

/// The weights of the blocks.
pub open spec fn plain_weights(
    conf: ConsensusInnerConfig,
    nodes: Seq<ConsensusGraphNode>,
) -> spec_fn(int) -> int {
    |y: int| weight_of(conf, nodes[y])
}

/// The weights of the stable blocks.
pub open spec fn plain_stable_weights(
    conf: ConsensusInnerConfig,
    nodes: Seq<ConsensusGraphNode>,
) -> spec_fn(int) -> int {
    |y: int|
        if nodes[y].stable {
            weight_of(conf, nodes[y])
        } else {
            0
        }
}

/// The anticone of the block is so broken up that its view is summed up block
/// by block and not taken out of the trees.
pub open spec fn has_wide_anticone(nodes: Seq<ConsensusGraphNode>, me: int) -> bool {
    barrier_of(dag_of(nodes), me).len() > ANTICONE_BARRIER_CAP
}

/// Whether the newest block is stable and whether it must be adaptive.
pub open spec fn block_adaptivity(
    conf: ConsensusInnerConfig,
    nodes: Seq<ConsensusGraphNode>,
    me: int,
) -> (bool, bool) {
    let parent = nodes[me].parent as int;
    let difficulty = nodes[me].difficulty.value();
    if has_wide_anticone(nodes, me) {
        adaptivity_brutal(
            conf,
            nodes,
            seen_table(nodes, me, plain_weights(conf, nodes)),
            seen_table(nodes, me, plain_weights(conf, nodes)),
            seen_table(nodes, me, plain_stable_weights(conf, nodes)),
            parent,
            difficulty,
        )
    } else {
        adaptivity(
            conf,
            nodes,
            barrier_of(dag_of(nodes), me),
            me as nat,
            parent,
            difficulty,
        )
    }
}

/// The subtree weights that the newest block sees.
pub open spec fn weights_seen(
    conf: ConsensusInnerConfig,
    nodes: Seq<ConsensusGraphNode>,
    me: int,
) -> spec_fn(int) -> int {
    weights_without(conf, nodes, barrier_of(dag_of(nodes), me), me as nat)
}

/// The newest block may hang where it hangs: under a fully valid block, in the
/// branch that is the heaviest in its own view.
pub open spec fn parent_accepted(
    conf: ConsensusInnerConfig,
    nodes: Seq<ConsensusGraphNode>,
    chain: Seq<usize>,
    me: int,
) -> bool {
    &&& passes_first_look(conf, nodes, chain, me)
    &&& !nodes[nodes[me].parent as int].data.partial_invalid
    &&& has_correct_parent(nodes, weights_seen(conf, nodes, me), me)
}

/// What the newest block sees of a subtree weighs the same whether it is summed
/// up block by block or taken out of the trees.
pub proof fn lemma_view_summed_up(
    conf: ConsensusInnerConfig,
    nodes: Seq<ConsensusGraphNode>,
    me: int,
    x: int,
)
    requires
        links_ok(nodes),
        0 < me == nodes.len() - 1,
        0 < x < nodes.len(),
    ensures
        seen_sum(
            parents_of(nodes),
            barrier_of(dag_of(nodes), me).insert(me),
            plain_weights(conf, nodes),
            nodes.len(),
            x,
        ) == weights_seen(conf, nodes, me)(x),
{
    let par = parents_of(nodes);
    let barrier = barrier_of(dag_of(nodes), me);
    let wide = barrier.insert(me);
    let a = masked(
        |y: int| crate::dag::ancestor(par, x, y) && not_below(par, wide, y),
        plain_weights(conf, nodes),
    );
    let b = masked(
        |y: int| crate::dag::ancestor(par, x, y) && not_below(par, barrier, y),
        tree_weights(conf, nodes),
    );
    assert(a(me) == 0) by {
        assert(wide.contains(me));
        assert(crate::dag::ancestor(par, me, me));
    }
    assert forall|y: int| 0 <= y < me implies #[trigger] a(y) == b(y) by {
        assert(!crate::dag::ancestor(par, me, y)) by {
            if crate::dag::ancestor(par, me, y) {
                lemma_ancestor_earlier(par, me, y);
            }
        }
        assert(not_below(par, wide, y) == not_below(par, barrier, y)) by {
            if not_below(par, wide, y) {
                assert forall|c: int| #[trigger] barrier.contains(c) implies !crate::dag::ancestor(
                    par,
                    c,
                    y,
                ) by {
                    assert(wide.contains(c));
                }
            }
        }
        if y == 0 && crate::dag::ancestor(par, x, y) {
            lemma_ancestor_earlier(par, x, 0);
        }
    }
    assert(sum_to(a, nodes.len()) == sum_to(a, me as nat) + a(me));
    lemma_sum_congruent(a, b, me as nat);
}

/// What a block sees of a subtree fits the type of a weight.
proof fn lemma_seen_fits(
    conf: ConsensusInnerConfig,
    nodes: Seq<ConsensusGraphNode>,
    me: int,
    x: int,
)
    requires
        links_ok(nodes),
        limits_ok(conf, nodes),
        0 < me == nodes.len() - 1,
        0 < x < nodes.len(),
    ensures
        0 <= weights_seen(conf, nodes, me)(x) <= i128::MAX,
{
    let par = parents_of(nodes);
    let barrier = barrier_of(dag_of(nodes), me);
    let p = |y: int| crate::dag::ancestor(par, x, y) && not_below(par, barrier, y);
    let f = tree_weights(conf, nodes);
    assert forall|i: int| 0 <= i < nodes.len() implies 0 <= #[trigger] f(i)
        <= crate::model::weight_cap(conf)(nodes[i]) by {
        crate::state::lemma_weight_bounds(conf, nodes, i);
    }
    crate::state::lemma_masked_weight_bounds(conf, nodes, p, f, me as nat);
}

/// It does not matter for the check of the parent of a block, in any era, whether
/// the view of the block is taken out of the trees or summed up block by block.
pub proof fn lemma_parent_check_agrees(g: ConsensusGraphInner, me: int)
    requires
        links_ok(g.nodes()),
        limits_ok(g.inner_conf, g.nodes()),
        0 < me == g.size() - 1,
    ensures
        has_correct_parent(
            g.nodes(),
            table(seen_table(g.nodes(), me, plain_weights(g.inner_conf, g.nodes()))),
            me,
        ) == has_correct_parent(
            g.nodes(),
            weights_without(g.inner_conf, g.nodes(), barrier_of(g.dag(), me), me as nat),
            me,
        ),
{
    let conf = g.inner_conf;
    let nodes = g.nodes();
    let t = seen_table(nodes, me, plain_weights(conf, nodes));
    let w = weights_without(conf, nodes, barrier_of(g.dag(), me), me as nat);
    assert forall|x: int| #[trigger] g.dag().reaches(me, x) && x != 0 implies table(t)(x) == w(
        x,
    ) by {
        lemma_reaches_earlier(g.dag(), me, x);
        lemma_view_summed_up(conf, nodes, me, x);
        lemma_seen_fits(conf, nodes, me, x);
    }
    g.lemma_correct_parent_same(me, table(t), w);
}

impl ConsensusGraphInner {
    /// Finds the anticone of an inserted block, hangs the block into the trees and
    /// decides whether it is stable and whether it must be adaptive.
    #[verifier::rlimit(30)]
    pub fn weigh_block(&mut self, me: usize) -> (w: WeighedBlock)
        requires
            old(self).inserted(me as int),
        ensures
            w.me == me,
            final(self).linked(me as int),
            *final(self) == (ConsensusGraphInner {
                anticone_cache: final(self).anticone_cache,
                trees: final(self).trees,
                ..*old(self)
            }),
            (w.stable, w.adaptive) == block_adaptivity(
                final(self).inner_conf,
                final(self).nodes(),
                w.me as int,
            ),
            w.anticone_barrier.wf(),
            w.anticone_barrier@ == barrier_of(final(self).dag(), w.me as int),
            w.weight_tuple is Some <==> has_wide_anticone(final(self).nodes(), w.me as int),
            w.weight_tuple matches Some(t) ==> t.0@ == seen_table(
                final(self).nodes(),
                w.me as int,
                plain_weights(final(self).inner_conf, final(self).nodes()),
            ) && t.1@ == seen_table(
                final(self).nodes(),
                w.me as int,
                plain_weights(final(self).inner_conf, final(self).nodes()),
            ) && t.2@ == seen_table(
                final(self).nodes(),
                w.me as int,
                plain_stable_weights(final(self).inner_conf, final(self).nodes()),
            ) && crate::brutal::tuple_ok(
                final(self).inner_conf,
                final(self).nodes(),
                t.0@,
                t.1@,
                t.2@,
            ),
    {
        let barrier: BlockSet = self.compute_anticone(me);
        let ghost nodes = self.nodes();
        let ghost conf = self.inner_conf;
        proof {
            lemma_node(nodes, me as int);
            lemma_barrier_of(nodes, me as int);
            assert(!barrier@.contains(0));
            let g = self.dag();
            let parent = nodes[me as int].parent as int;
            assert(g.edge(me as int, parent));
            assert(g.reaches(parent, parent));
            crate::dag::lemma_reaches_step(g, me as int, parent, parent);
        }
        let tuple: Option<(Vec<i128>, Vec<i128>, Vec<i128>)> = if barrier.len()
            > ANTICONE_BARRIER_CAP {
            Some(self.compute_subtree_weights(me, &barrier))
        } else {
            None
        };
        self.update_lcts_initial(me);
        let ghost before = *self;
        let (stable, adaptive) = match &tuple {
            Some(t) => {
                proof {
                    assert(t.0@ =~= seen_table(
                        nodes,
                        me as int,
                        plain_weights(conf, nodes),
                    )) by {
                        assert(plain_weights(conf, nodes) == (|y: int|
                            weight_of(conf, nodes[y])));
                    }
                    assert(t.1@ =~= seen_table(
                        nodes,
                        me as int,
                        plain_weights(conf, nodes),
                    )) by {
                        assert(plain_weights(conf, nodes) == (|y: int|
                            weight_of(conf, nodes[y])));
                    }
                    assert(t.2@ =~= seen_table(
                        nodes,
                        me as int,
                        plain_stable_weights(conf, nodes),
                    )) by {
                        assert(plain_stable_weights(conf, nodes) == (|y: int|
                            if nodes[y].stable {
                                weight_of(conf, nodes[y])
                            } else {
                                0
                            }));
                    }
                }
                self.adaptive_weight(me, &barrier, Some(t), Ghost(me as nat))
            },
            None => self.adaptive_weight(me, &barrier, None, Ghost(me as nat)),
        };
        WeighedBlock { me, anticone_barrier: barrier, weight_tuple: tuple, stable, adaptive }
    }

    /// Whether the newest block may hang where it hangs.
    pub fn accept_parent(&mut self, w: &WeighedBlock) -> (accepted: bool)
        requires
            old(self).linked(w.me as int),
            w.anticone_barrier.wf(),
            w.anticone_barrier@ == barrier_of(old(self).dag(), w.me as int),
            w.weight_tuple matches Some(t) ==> t.0@ == seen_table(
                old(self).nodes(),
                w.me as int,
                plain_weights(old(self).inner_conf, old(self).nodes()),
            ) && crate::brutal::tuple_ok(
                old(self).inner_conf,
                old(self).nodes(),
                t.0@,
                t.1@,
                t.2@,
            ),
        ensures
            final(self).linked(w.me as int),
            *final(self) == (ConsensusGraphInner { trees: final(self).trees, ..*old(self) }),
            accepted == parent_accepted(
                old(self).inner_conf,
                old(self).nodes(),
                old(self).pivot_chain@,
                w.me as int,
            ),
    {
        let me: usize = w.me;
        let ghost nodes = self.nodes();
        let ghost conf = self.inner_conf;
        let ghost par = self.parents();
        proof {
            lemma_node(nodes, me as int);
            lemma_barrier_of(nodes, me as int);
        }
        if !self.preliminary_check_validity(me) {
            return false;
        }
        let parent: usize = self.arena.get(me).parent;
        if self.arena.get(parent).data.partial_invalid {
            return false;
        }
        let ghost start = *self;
        match &w.weight_tuple {
            Some(t) => {
                let correct: bool = self.check_correct_parent(
                    me,
                    &w.anticone_barrier,
                    Some(t),
                    Ghost(me as nat),
                );
                proof {
                    assert(t.0@ == seen_table(nodes, me as int, plain_weights(conf, nodes)));
                    lemma_parent_check_agrees(start, me as int);
                }
                correct
            },
            None => {
                let correct: bool = self.check_correct_parent(
                    me,
                    &w.anticone_barrier,
                    None,
                    Ghost(me as nat),
                );
                correct
            },
        }
    }
}

} // verus!
