//! The pivot chain: from every block to its heaviest child.

use vstd::prelude::*;
use crate::arena::ConsensusGraphNode;
use crate::config::ConsensusInnerConfig;
use crate::dag::{ancestor, ancestor_at_depth, depth, rooted, NULL};
#[allow(unused_imports)]
use crate::dag::{lemma_ancestor_depth, lemma_ancestor_earlier, lemma_ancestor_unique};
use crate::model::{chain_ok, links_ok, parents_of, subtree_weight, tip_ok, tree_shape, trees_ok};
use crate::order::distinct_hashes;
use crate::path_tree::is_lowest_common_ancestor;
use crate::state::ConsensusGraphInner;
#[allow(unused_imports)]
use crate::state::{lemma_depth_bounded, lemma_node};
use crate::validity::heavier;
#[allow(unused_imports)]
use crate::validity::{lemma_chain_index, lemma_heavier_total, lemma_heavier_transitive};

verus! {

/// The weight of each subtree of the first `k` blocks.
pub open spec fn subtree_weights(
    conf: ConsensusInnerConfig,
    nodes: Seq<ConsensusGraphNode>,
    k: nat,
) -> spec_fn(int) -> int {
    |x: int| subtree_weight(conf, nodes, k, x)
}

/// `c` is the child of `u` with the heaviest subtree.
pub open spec fn is_heaviest_child(
    nodes: Seq<ConsensusGraphNode>,
    w: spec_fn(int) -> int,
    u: int,
    c: usize,
) -> bool {
    &&& nodes[u].children@.contains(c)
    &&& forall|d: usize| #[trigger]
        nodes[u].children@.contains(d) && d != c ==> heavier(
            w(c as int),
            nodes[c as int].hash,
            w(d as int),
            nodes[d as int].hash,
        )
}

/// The list leads from its first block down along the heaviest children to a
/// block without any.
pub open spec fn is_heaviest_path(
    nodes: Seq<ConsensusGraphNode>,
    w: spec_fn(int) -> int,
    list: Seq<usize>,
) -> bool {
    &&& list.len() > 0
    &&& forall|i: int, j: int|
        #![trigger list[i], list[j]]
        0 <= i && j == i + 1 && j < list.len() ==> is_heaviest_child(
            nodes,
            w,
            list[i] as int,
            list[j],
        )
    &&& nodes[list.last() as int].children@.len() == 0
}

/// The pivot chain after the newest block `me`, and the place from which on it
/// is new: one past the end for a block that is partially invalid.
pub open spec fn pivot_step(
    nodes: Seq<ConsensusGraphNode>,
    w: spec_fn(int) -> int,
    chain: Seq<usize>,
    me: int,
    fully_valid: bool,
    next: Seq<usize>,
    fork_at: int,
) -> bool {
    if !fully_valid {
        next == chain && fork_at == chain.len() + 1
    } else if nodes[me].parent == chain.last() {
        next == chain.push(me as usize) && fork_at == chain.len()
    } else {
        exists|lca: int| #[trigger]
            is_lowest_common_ancestor(parents_of(nodes), chain.last() as int, me, lca)
                && pivot_step_at(nodes, w, chain, me, next, fork_at, lca)
    }
}

/// The same where the branch of `me` leaves the chain at `lca`: the chain
/// follows the branch if it became the heavier one.
pub open spec fn pivot_step_at(
    nodes: Seq<ConsensusGraphNode>,
    w: spec_fn(int) -> int,
    chain: Seq<usize>,
    me: int,
    next: Seq<usize>,
    fork_at: int,
    lca: int,
) -> bool {
    let at = depth(parents_of(nodes), lca) + 1;
    let new = ancestor_at_depth(parents_of(nodes), me, at);
    let prev = chain[at as int] as int;
    &&& at < chain.len()
    &&& if heavier(w(new), nodes[new].hash, w(prev), nodes[prev].hash) {
        &&& fork_at == at
        &&& next.len() > at
        &&& next.take(at as int) == chain.take(at as int)
        &&& next[at as int] == new
        &&& is_heaviest_path(nodes, w, next.skip(at as int))
    } else {
        next == chain && fork_at == chain.len()
    }
}

/// A heaviest path has the blocks of a chain.
pub proof fn lemma_heaviest_path_links(
    nodes: Seq<ConsensusGraphNode>,
    w: spec_fn(int) -> int,
    list: Seq<usize>,
    i: int,
)
    requires
        links_ok(nodes),
        is_heaviest_path(nodes, w, list),
        list[0] < nodes.len(),
        0 <= i < list.len(),
    ensures
        list[i] < nodes.len(),
        i > 0 ==> nodes[list[i] as int].parent == list[i - 1],
        depth(parents_of(nodes), list[i] as int) == depth(parents_of(nodes), list[0] as int) + i,
    decreases i,
{
    if i > 0 {
        lemma_heaviest_path_links(nodes, w, list, i - 1);
        let u = list[i - 1] as int;
        let c = list[i];
        assert(is_heaviest_child(nodes, w, u, c));
        let j = nodes[u].children@.index_of(c);
        assert(nodes[u].children@[j] == c);
        lemma_node(nodes, u);
        assert(nodes[c as int].parent == u) by {
            reveal(links_ok);
        }
        lemma_node(nodes, c as int);
        assert(parents_of(nodes)[c as int] == u);
    }
}

/// From a block only one heaviest path leads down.
pub proof fn lemma_heaviest_path_unique(
    nodes: Seq<ConsensusGraphNode>,
    w: spec_fn(int) -> int,
    a: Seq<usize>,
    b: Seq<usize>,
)
    requires
        links_ok(nodes),
        distinct_hashes(nodes),
        is_heaviest_path(nodes, w, a),
        is_heaviest_path(nodes, w, b),
        a[0] == b[0],
        a[0] < nodes.len(),
    ensures
        a == b,
{
    assert forall|i: int| 0 <= i < a.len() implies i < b.len() && a[i] == b[i] by {
        lemma_heaviest_paths_agree(nodes, w, a, b, i);
    }
    assert forall|i: int| 0 <= i < b.len() implies i < a.len() && a[i] == b[i] by {
        lemma_heaviest_paths_agree(nodes, w, b, a, i);
    }
    assert(a =~= b);
}

proof fn lemma_heaviest_paths_agree(
    nodes: Seq<ConsensusGraphNode>,
    w: spec_fn(int) -> int,
    a: Seq<usize>,
    b: Seq<usize>,
    i: int,
)
    requires
        links_ok(nodes),
        distinct_hashes(nodes),
        is_heaviest_path(nodes, w, a),
        is_heaviest_path(nodes, w, b),
        a[0] == b[0],
        a[0] < nodes.len(),
        0 <= i < a.len(),
    ensures
        i < b.len(),
        a[i] == b[i],
    decreases i,
{
    if i > 0 {
        lemma_heaviest_paths_agree(nodes, w, a, b, i - 1);
        let u = a[i - 1] as int;
        assert(is_heaviest_child(nodes, w, u, a[i]));
        if i == b.len() {
            assert(b.last() == b[i - 1]);
            let k = nodes[u].children@.index_of(a[i]);
            assert(nodes[u].children@.len() > k);
        }
        assert(is_heaviest_child(nodes, w, b[i - 1] as int, b[i]));
        lemma_heaviest_path_links(nodes, w, a, i);
        lemma_heaviest_path_links(nodes, w, b, i);
        if a[i] != b[i] {
            let x = a[i] as int;
            let y = b[i] as int;
            assert(heavier(w(x), nodes[x].hash, w(y), nodes[y].hash));
            assert(heavier(w(y), nodes[y].hash, w(x), nodes[x].hash));
            assert(x < y ==> nodes[x].hash != nodes[y].hash);
            assert(y < x ==> nodes[y].hash != nodes[x].hash);
        }
    }
}

/// A block without children has no descendants.
pub proof fn lemma_childless(nodes: Seq<ConsensusGraphNode>, u: int, y: int)
    requires
        links_ok(nodes),
        0 <= u < nodes.len(),
        0 <= y < nodes.len(),
        nodes[u].children@.len() == 0,
        ancestor(parents_of(nodes), u, y),
    ensures
        u == y,
    decreases y,
{
    if u != y {
        lemma_node(nodes, y);
        let p = nodes[y].parent as int;
        assert(ancestor(parents_of(nodes), u, p));
        lemma_childless(nodes, u, p);
        assert(nodes[nodes[y].parent as int].children@.contains(y as usize)) by {
            reveal(links_ok);
        }
    }
}

/// A new end put behind the beginning of a chain makes a chain.
proof fn lemma_chain_joined(
    nodes: Seq<ConsensusGraphNode>,
    w: spec_fn(int) -> int,
    chain: Seq<usize>,
    at: int,
    list: Seq<usize>,
)
    requires
        links_ok(nodes),
        chain_ok(parents_of(nodes), chain),
        0 < at <= chain.len(),
        is_heaviest_path(nodes, w, list),
        list[0] < nodes.len(),
        nodes[list[0] as int].parent == chain[at - 1],
    ensures
        chain_ok(parents_of(nodes), chain.take(at).add(list)),
{
    let par = parents_of(nodes);
    let next = chain.take(at).add(list);
    assert forall|i: int| 0 <= i < next.len() implies (#[trigger] next[i]) < par.len() by {
        if i < at {
            assert(next[i] == chain[i]);
        } else {
            assert(next[i] == list[i - at]);
            lemma_heaviest_path_links(nodes, w, list, i - at);
        }
    }
    assert forall|i: int, j: int|
        #![trigger next[i], next[j]]
        0 <= i && j == i + 1 && j < next.len() implies par[next[j] as int] == next[i] by {
        if j < at {
            assert(next[i] == chain[i] && next[j] == chain[j]);
        } else if j == at {
            assert(next[i] == chain[at - 1] && next[j] == list[0]);
        } else {
            assert(next[i] == list[i - at] && next[j] == list[j - at]);
            lemma_heaviest_path_links(nodes, w, list, j - at);
        }
    }
    assert(next[0] == chain[0]);
}

/// A chain is no longer than there are blocks.
pub proof fn lemma_chain_length(par: Seq<usize>, chain: Seq<usize>)
    requires
        rooted(par),
        chain_ok(par, chain),
    ensures
        chain.len() <= par.len(),
{
    lemma_chain_index(par, chain, chain.len() - 1);
    assert(chain[chain.len() - 1] < par.len());
    lemma_depth_bounded(par, chain[chain.len() - 1] as int);
}

impl ConsensusGraphInner {
    /// The child with the heaviest subtree, `NULL` where there is none.
    pub fn heaviest_child(&self, u: usize) -> (heaviest: usize)
        requires
            self.arena.wf(),
            links_ok(self.nodes()),
            distinct_hashes(self.nodes()),
            tree_shape(self.trees.weight_tree, self.parents(), self.size()),
            u < self.size(),
        ensures
            heaviest == NULL <==> self.nodes()[u as int].children@.len() == 0,
            heaviest != NULL ==> is_heaviest_child(
                self.nodes(),
                |x: int| self.trees.weight_tree.values()[x] as int,
                u as int,
                heaviest,
            ) && u < heaviest < self.size(),
    {
        let ghost nodes = self.nodes();
        let ghost w = |x: int| self.trees.weight_tree.values()[x] as int;
        let ghost kids = nodes[u as int].children@;
        proof {
            lemma_node(nodes, u as int);
            assert(kids.no_duplicates()) by {
                reveal(links_ok);
            }
        }
        let mut heaviest: usize = NULL;
        let mut heaviest_weight: i128 = 0;
        let mut j: usize = 0;
        while j < self.arena.get(u).children.len()
            invariant
                self.arena.wf(),
                nodes == self.nodes(),
                links_ok(nodes),
                distinct_hashes(nodes),
                tree_shape(self.trees.weight_tree, self.parents(), self.size()),
                u < nodes.len() < NULL,
                kids == nodes[u as int].children@,
                kids.no_duplicates(),
                forall|i: int| 0 <= i < kids.len() ==> u < (#[trigger] kids[i]) < nodes.len(),
                w == (|x: int| self.trees.weight_tree.values()[x] as int),
                j <= kids.len(),
                heaviest == NULL <==> j == 0,
                heaviest != NULL ==> {
                    &&& u < heaviest < nodes.len()
                    &&& heaviest_weight == w(heaviest as int)
                    &&& exists|i: int| 0 <= i < j && #[trigger] kids[i] == heaviest
                    &&& forall|i: int|
                        0 <= i < j && #[trigger] kids[i] != heaviest ==> heavier(
                            w(heaviest as int),
                            nodes[heaviest as int].hash,
                            w(kids[i] as int),
                            nodes[kids[i] as int].hash,
                        )
                },
            decreases kids.len() - j,
        {
            let index: usize = self.arena.get(u).children[j];
            assert(kids[j as int] == index);
            let weight: i128 = self.trees.weight_tree.get(index);
            assert(w(index as int) == weight);
            if heaviest == NULL {
                heaviest = index;
                heaviest_weight = weight;
            } else {
                proof {
                    assert(index != heaviest);
                    assert(index < heaviest ==> nodes[index as int].hash
                        != nodes[heaviest as int].hash);
                    assert(heaviest < index ==> nodes[heaviest as int].hash
                        != nodes[index as int].hash);
                    lemma_heavier_total(
                        w(index as int),
                        nodes[index as int].hash,
                        w(heaviest as int),
                        nodes[heaviest as int].hash,
                    );
                }
                if Self::is_heavier(
                    (weight, &self.arena.get(index).hash),
                    (heaviest_weight, &self.arena.get(heaviest).hash),
                ) {
                    proof {
                        assert forall|i: int|
                            0 <= i < j + 1 && #[trigger] kids[i] != index implies heavier(
                            w(index as int),
                            nodes[index as int].hash,
                            w(kids[i] as int),
                            nodes[kids[i] as int].hash,
                        ) by {
                            if kids[i] != heaviest {
                                lemma_heavier_transitive(
                                    w(index as int),
                                    nodes[index as int].hash,
                                    w(heaviest as int),
                                    nodes[heaviest as int].hash,
                                    w(kids[i] as int),
                                    nodes[kids[i] as int].hash,
                                );
                            }
                        }
                    }
                    heaviest = index;
                    heaviest_weight = weight;
                }
            }
            j = j + 1;
        }
        proof {
            if heaviest != NULL {
                assert forall|d: usize| #[trigger]
                    kids.contains(d) && d != heaviest implies heavier(
                    w(heaviest as int),
                    nodes[heaviest as int].hash,
                    w(d as int),
                    nodes[d as int].hash,
                ) by {
                    let i = kids.index_of(d);
                    assert(kids[i] == d);
                }
            }
        }
        heaviest
    }

    /// The path from `u` down along the heaviest children.
    pub fn heaviest_path(&self, u: usize) -> (list: Vec<usize>)
        requires
            self.arena.wf(),
            links_ok(self.nodes()),
            distinct_hashes(self.nodes()),
            tree_shape(self.trees.weight_tree, self.parents(), self.size()),
            u < self.size(),
        ensures
            is_heaviest_path(
                self.nodes(),
                |x: int| self.trees.weight_tree.values()[x] as int,
                list@,
            ),
            list@[0] == u,
    {
        let ghost nodes = self.nodes();
        let ghost w = |x: int| self.trees.weight_tree.values()[x] as int;
        let mut list: Vec<usize> = Vec::new();
        list.push(u);
        let mut at: usize = u;
        let mut next: usize = self.heaviest_child(u);
        while next != NULL
            invariant
                self.arena.wf(),
                nodes == self.nodes(),
                links_ok(nodes),
                distinct_hashes(nodes),
                tree_shape(self.trees.weight_tree, self.parents(), self.size()),
                w == (|x: int| self.trees.weight_tree.values()[x] as int),
                list@.len() > 0,
                list@[0] == u,
                list@.last() == at,
                at < nodes.len(),
                next == NULL <==> nodes[at as int].children@.len() == 0,
                next != NULL ==> at < next < nodes.len() && is_heaviest_child(
                    nodes,
                    w,
                    at as int,
                    next,
                ),
                forall|i: int, j: int|
                    #![trigger list@[i], list@[j]]
                    0 <= i && j == i + 1 && j < list@.len() ==> is_heaviest_child(
                        nodes,
                        w,
                        list@[i] as int,
                        list@[j],
                    ),
            decreases (if next == NULL {
                0
            } else {
                nodes.len() - at
            }),
        {
            let ghost before = list@;
            list.push(next);
            at = next;
            next = self.heaviest_child(at);
            proof {
                assert forall|i: int, j: int|
                    #![trigger list@[i], list@[j]]
                    0 <= i && j == i + 1 && j < list@.len() implies is_heaviest_child(
                    nodes,
                    w,
                    list@[i] as int,
                    list@[j],
                ) by {
                    if j < before.len() {
                        assert(list@[i] == before[i] && list@[j] == before[j]);
                    } else {
                        assert(list@[i] == before.last());
                    }
                }
            }
        }
        list
    }

    /// The chain as it is with the newest block `me`, which is fully valid, and
    /// the place from which on it is new.
    pub fn next_pivot_chain(&self, me: usize) -> (r: (Vec<usize>, usize))
        requires
            self.arena.wf(),
            links_ok(self.nodes()),
            distinct_hashes(self.nodes()),
            self.is_newest(me as int),
            self.trees_hold(self.size(), self.size()),
            chain_ok(self.parents(), self.pivot_chain@),
            tip_ok(self.nodes(), self.pivot_chain@, me as nat),
            forall|i: int|
                0 <= i < self.pivot_chain@.len() ==> (#[trigger] self.pivot_chain@[i]) != me,
            !self.nodes()[self.nodes()[me as int].parent as int].data.partial_invalid,
        ensures
            pivot_step(
                self.nodes(),
                subtree_weights(self.inner_conf, self.nodes(), self.size()),
                self.pivot_chain@,
                me as int,
                true,
                r.0@,
                r.1 as int,
            ),
            chain_ok(self.parents(), r.0@),
            0 < r.1 <= self.pivot_chain@.len(),
            r.1 <= r.0@.len() < NULL,
            r.0@.take(r.1 as int) == self.pivot_chain@.take(r.1 as int),
            tip_ok(self.nodes(), r.0@, self.size()),
            r.1 == self.pivot_chain@.len() && self.nodes()[me as int].parent
                != self.pivot_chain@.last() ==> r.0@ == self.pivot_chain@,
    {
        let ghost conf = self.inner_conf;
        let ghost nodes = self.nodes();
        let ghost par = self.parents();
        let ghost chain = self.pivot_chain@;
        let ghost n = nodes.len();
        let ghost w = subtree_weights(conf, nodes, n);
        let len: usize = self.pivot_chain.len();
        let last: usize = self.pivot_chain[len - 1];
        proof {
            lemma_node(nodes, me as int);
            lemma_chain_length(par, chain);
            lemma_chain_index(par, chain, len - 1);
            assert(chain[len - 1] < par.len());
            assert(self.trees.shaped(par, n) && forall|x: int| 0 <= x < n
                ==> #[trigger] self.trees.weight_tree.values()[x] == w(x)) by {
                reveal(trees_ok);
            }
        }
        let parent: usize = self.arena.get(me).parent;
        let mut next: Vec<usize> = Vec::new();
        if parent == last {
            let mut i: usize = 0;
            while i < len
                invariant
                    len == self.pivot_chain@.len(),
                    i <= len,
                    next@ == self.pivot_chain@.take(i as int),
                decreases len - i,
            {
                next.push(self.pivot_chain[i]);
                i = i + 1;
                assert(self.pivot_chain@.take(i as int) =~= self.pivot_chain@.take(i - 1).push(
                    self.pivot_chain@[i - 1],
                ));
            }
            next.push(me);
            proof {
                assert(chain.take(len as int) =~= chain);
                assert(next@.take(len as int) =~= chain);
                assert forall|a: int, b: int|
                    #![trigger next@[a], next@[b]]
                    0 <= a && b == a + 1 && b < next@.len() implies par[next@[b] as int]
                    == next@[a] by {
                    if b < len {
                        assert(next@[a] == chain[a] && next@[b] == chain[b]);
                    } else {
                        assert(next@[a] == chain[len - 1]);
                    }
                }
                assert forall|a: int| 0 <= a < next@.len() implies (#[trigger] next@[a])
                    < par.len() by {
                    if a < len {
                        assert(next@[a] == chain[a]);
                    }
                }
                assert(next@[0] == chain[0]);
                lemma_chain_length(par, next@);
                assert(tip_ok(nodes, next@, n)) by {
                    assert forall|x: int|
                        0 <= x < n && #[trigger] ancestor(par, next@.last() as int, x) && x
                            != next@.last() implies nodes[x].data.partial_invalid by {
                        lemma_ancestor_earlier(par, me as int, x);
                    }
                }
            }
            return (next, len);
        }
        let lca: usize = self.lca_of(last, me);
        proof {
            lemma_node(nodes, lca as int);
            lemma_ancestor_depth(par, lca as int, me as int);
            lemma_ancestor_depth(par, lca as int, last as int);
            lemma_depth_bounded(par, me as int);
            assert(last != me);
            assert(lca != me);
            // Below the tip of the chain there are partially invalid blocks only.
            assert(lca != last) by {
                if lca == last {
                    let p = nodes[me as int].parent as int;
                    assert(par[me as int] == p);
                    assert(ancestor(par, last as int, me as int));
                    assert(ancestor(par, last as int, p));
                    assert(ancestor(parents_of(nodes), chain.last() as int, p));
                    assert(nodes[p].data.partial_invalid);
                }
            }
        }
        let fork_at: usize = self.arena.get(lca).height as usize + 1;
        let prev: usize = self.pivot_chain[fork_at];
        assert(chain[fork_at as int] < par.len());
        let new: usize = self.ancestor_of(me, fork_at);
        let prev_weight: i128 = self.trees.weight_tree.get(prev);
        let new_weight: i128 = self.trees.weight_tree.get(new);
        assert(w(prev as int) == prev_weight && w(new as int) == new_weight);
        let heavier_new: bool = Self::is_heavier(
            (new_weight, &self.arena.get(new).hash),
            (prev_weight, &self.arena.get(prev).hash),
        );
        let keep: usize = if heavier_new {
            fork_at
        } else {
            len
        };
        let mut i: usize = 0;
        while i < keep
            invariant
                keep <= self.pivot_chain@.len(),
                i <= keep,
                next@ == self.pivot_chain@.take(i as int),
            decreases keep - i,
        {
            next.push(self.pivot_chain[i]);
            i = i + 1;
            assert(self.pivot_chain@.take(i as int) =~= self.pivot_chain@.take(i - 1).push(
                self.pivot_chain@[i - 1],
            ));
        }
        assert(chain.take(len as int) =~= chain);
        if heavier_new {
            let list: Vec<usize> = self.heaviest_path(new);
            let ghost vals = |x: int| self.trees.weight_tree.values()[x] as int;
            let ghost head = next@;
            let mut j: usize = 0;
            while j < list.len()
                invariant
                    j <= list@.len(),
                    next@ == head.add(list@.take(j as int)),
                decreases list@.len() - j,
            {
                next.push(list[j]);
                j = j + 1;
                assert(list@.take(j as int) =~= list@.take(j - 1).push(list@[j - 1]));
            }
            proof {
                assert(list@.take(list@.len() as int) =~= list@);
                lemma_heaviest_path_same(nodes, vals, w, list@);
                // The branch begins at the child of the chain block at which it leaves.
                lemma_node(nodes, new as int);
                let q = nodes[new as int].parent as int;
                assert(ancestor(par, lca as int, q)) by {
                    lemma_ancestor_unique(par, lca as int, me as int);
                    lemma_branch_parent(par, lca as int, new as int, me as int);
                }
                assert(depth(par, q) == depth(par, lca as int));
                lemma_ancestor_depth(par, lca as int, q);
                assert(q == lca);
                assert(lca == chain[fork_at - 1]) by {
                    lemma_chain_index(par, chain, fork_at - 1);
                    assert(ancestor(par, chain[fork_at - 1] as int, last as int));
                    lemma_ancestor_unique(par, chain[fork_at - 1] as int, last as int);
                    lemma_ancestor_unique(par, lca as int, last as int);
                }
                lemma_chain_joined(nodes, w, chain, fork_at as int, list@);
                assert(next@ =~= chain.take(fork_at as int).add(list@));
                assert(next@.skip(fork_at as int) =~= list@);
                assert(next@.take(fork_at as int) =~= chain.take(fork_at as int));
                lemma_chain_length(par, next@);
                assert(next@.last() == list@.last());
                assert(next@[next@.len() - 1] < par.len());
                assert(tip_ok(nodes, next@, n)) by {
                    assert forall|x: int|
                        0 <= x < n && #[trigger] ancestor(par, next@.last() as int, x) && x
                            != next@.last() implies nodes[x].data.partial_invalid by {
                        lemma_childless(nodes, next@.last() as int, x);
                    }
                }
            }
            (next, fork_at)
        } else {
            proof {
                assert(tip_ok(nodes, chain, n)) by {
                    assert forall|x: int|
                        0 <= x < n && #[trigger] ancestor(par, chain.last() as int, x) && x
                            != chain.last() implies nodes[x].data.partial_invalid by {
                        if x == me {
                            assert(ancestor(par, last as int, last as int));
                            assert(ancestor(par, last as int, lca as int));
                            lemma_ancestor_depth(par, last as int, lca as int);
                        }
                    }
                }
            }
            (next, len)
        }
    }
}

/// The parent of the ancestor of `me` one below `lca` is below `lca`.
proof fn lemma_branch_parent(par: Seq<usize>, lca: int, new: int, me: int)
    requires
        ancestor(par, lca, me),
        ancestor(par, new, me),
        0 <= me,
        0 < new < par.len(),
        par[new] < new,
        depth(par, new) == depth(par, lca) + 1,
    ensures
        ancestor(par, lca, par[new] as int),
{
    crate::dag::lemma_ancestors_chain(par, lca, new, me);
}

/// The path depends on the weights of the blocks alone.
pub proof fn lemma_heaviest_path_same(
    nodes: Seq<ConsensusGraphNode>,
    u: spec_fn(int) -> int,
    w: spec_fn(int) -> int,
    list: Seq<usize>,
)
    requires
        links_ok(nodes),
        is_heaviest_path(nodes, u, list),
        list[0] < nodes.len(),
        forall|x: int| 0 <= x < nodes.len() ==> #[trigger] u(x) == w(x),
    ensures
        is_heaviest_path(nodes, w, list),
{
    assert forall|i: int, j: int|
        #![trigger list[i], list[j]]
        0 <= i && j == i + 1 && j < list.len() implies is_heaviest_child(
        nodes,
        w,
        list[i] as int,
        list[j],
    ) by {
        let p = list[i] as int;
        let c = list[j];
        lemma_heaviest_path_links(nodes, u, list, i);
        lemma_heaviest_path_links(nodes, u, list, j);
        assert(is_heaviest_child(nodes, u, p, c));
        assert forall|d: usize| #[trigger]
            nodes[p].children@.contains(d) && d != c implies heavier(
            w(c as int),
            nodes[c as int].hash,
            w(d as int),
            nodes[d as int].hash,
        ) by {
            lemma_node(nodes, p);
            let k = nodes[p].children@.index_of(d);
            assert(nodes[p].children@[k] == d);
            assert(u(c as int) == w(c as int) && u(d as int) == w(d as int));
        }
    }
}

} // verus!
