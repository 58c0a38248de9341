//! What a block sees: its own epoch and the epochs of its ancestors.

use vstd::prelude::*;
use std::collections::HashSet;
use crate::arena::{dag_of, ConsensusGraphNode, ConsensusGraphNodeData};
use crate::dag::{ancestor, Dag};
#[allow(unused_imports)]
use crate::dag::{lemma_ancestor_is_reached, lemma_reaches_earlier, lemma_reaches_transitive};
use crate::model::{epoch_list_ok, in_own_epoch, links_ok, max_epoch_attained, min_epoch_attained,
    sees_as_own, views_ok};
#[allow(unused_imports)]
use crate::order::{distinct_hashes, is_topological_order, lemma_order_carried, ordered_by_hash};
use crate::sums::{masked, sum_along, sum_to};
#[allow(unused_imports)]
use crate::sums::{lemma_sum_along_is_masked, lemma_sum_ordered};

verus! {

broadcast use vstd::std_specs::hash::group_hash_axioms;

/// The nearest ancestor-or-self of `p`, going up, whose epoch holds `y`.
pub open spec fn epoch_holder(g: Dag, p: int, y: int) -> int
    decreases p,
{
    if 0 < p < g.len() && g.parent[p] < p && g.reaches(g.parent[p] as int, y) {
        epoch_holder(g, g.parent[p] as int, y)
    } else {
        p
    }
}

/// The epochs of the ancestors of `p`, `p` included, hold all that `p` sees.
pub proof fn lemma_epoch_holder(g: Dag, p: int, y: int)
    requires
        g.well_formed(),
        0 <= p < g.len(),
        g.reaches(p, y),
    ensures
        ancestor(g.parent, epoch_holder(g, p, y), p),
        sees_as_own(g, epoch_holder(g, p, y), y),
        0 <= epoch_holder(g, p, y) <= p,
    decreases p,
{
    if 0 < p && g.reaches(g.parent[p] as int, y) {
        lemma_epoch_holder(g, g.parent[p] as int, y);
    }
}

/// An ancestor that holds `y` in its epoch sees `y`, and so does `p`.
pub proof fn lemma_ancestor_sees(g: Dag, a: int, p: int, y: int)
    requires
        ancestor(g.parent, a, p),
        0 <= p,
        g.reaches(a, y),
    ensures
        g.reaches(p, y),
{
    lemma_ancestor_is_reached(g, a, p);
    lemma_reaches_transitive(g, p, a, y);
}

/// A list of distinct indices below `m` has at most `m` items.
pub proof fn lemma_distinct_below(s: Seq<usize>, m: nat)
    requires
        s.no_duplicates(),
        m <= usize::MAX,
        forall|j: int| 0 <= j < s.len() ==> (#[trigger] s[j]) < m,
    ensures
        s.len() <= m,
{
    let one = |i: int| 1int;
    lemma_count(s);
    lemma_sum_along_is_masked(one, s, m);
    let p = |i: int| s.contains(i as usize) && 0 <= i < m;
    lemma_sum_ordered(masked(p, one), one, m);
    lemma_sum_ones(m);
}

proof fn lemma_count(s: Seq<usize>)
    ensures
        sum_along(|i: int| 1int, s) == s.len(),
    decreases s.len(),
{
    if s.len() > 0 {
        lemma_count(s.drop_last());
    }
}

proof fn lemma_sum_ones(m: nat)
    ensures
        sum_to(|i: int| 1int, m) == m,
    decreases m,
{
    if m > 0 {
        lemma_sum_ones((m - 1) as nat);
    }
}

/// The node after it was seen in an epoch at height `h`.
pub open spec fn seen_at(node: ConsensusGraphNode, h: u64) -> ConsensusGraphNode {
    ConsensusGraphNode {
        data: ConsensusGraphNodeData {
            min_epoch_in_other_views: if node.data.min_epoch_in_other_views <= h {
                node.data.min_epoch_in_other_views
            } else {
                h
            },
            max_epoch_in_other_views: if node.data.max_epoch_in_other_views >= h {
                node.data.max_epoch_in_other_views
            } else {
                h
            },
            ..node.data
        },
        ..node
    }
}

/// The nodes after `pivot` took its own epoch into account.
pub open spec fn with_own_view(
    a: Seq<ConsensusGraphNode>,
    b: Seq<ConsensusGraphNode>,
    pivot: int,
) -> bool {
    &&& a.len() == b.len()
    &&& forall|i: int|
        0 <= i < a.len() && i != pivot ==> #[trigger] b[i] == (if in_own_epoch(
            dag_of(a),
            pivot,
            i,
        ) {
            seen_at(a[i], a[pivot].height)
        } else {
            a[i]
        })
    &&& b[pivot] == (ConsensusGraphNode {
        data: ConsensusGraphNodeData {
            blockset_in_own_view_of_epoch: b[pivot].data.blockset_in_own_view_of_epoch,
            ordered_epoch_blocks: b[pivot].data.ordered_epoch_blocks,
            ..a[pivot].data
        },
        ..a[pivot]
    })
}

/// Links speak of nothing that views change.
pub open spec fn same_links(a: Seq<ConsensusGraphNode>, b: Seq<ConsensusGraphNode>) -> bool {
    &&& a.len() == b.len()
    &&& forall|i: int|
        #![trigger a[i]]
        #![trigger b[i]]
        0 <= i < a.len() ==> {
            &&& a[i].parent == b[i].parent
            &&& a[i].referees == b[i].referees
            &&& a[i].children == b[i].children
            &&& a[i].referrers == b[i].referrers
            &&& a[i].height == b[i].height
            &&& a[i].hash == b[i].hash
            &&& a[i].data.sequence_number == b[i].data.sequence_number
        }
}

pub proof fn lemma_same_links(a: Seq<ConsensusGraphNode>, b: Seq<ConsensusGraphNode>)
    requires
        same_links(a, b),
    ensures
        dag_of(a) == dag_of(b),
        links_ok(a) ==> links_ok(b),
        distinct_hashes(a) ==> distinct_hashes(b),
{
    assert(dag_of(a).parent =~= dag_of(b).parent);
    assert(dag_of(a).referees =~= dag_of(b).referees);
    if links_ok(a) {
        reveal(links_ok);
        assert forall|p: int, j: int|
            0 <= p < b.len() && 0 <= j < b[p].children@.len() implies {
            &&& (#[trigger] b[p].children@[j]) < b.len()
            &&& b[b[p].children@[j] as int].parent == p
        } by {
            assert(a[p].children@[j] < a.len());
        }
        assert forall|c: int| 0 < c < b.len() implies b[(
        #[trigger] b[c]).parent as int].children@.contains(c as usize) by {
            assert(a[a[c].parent as int].children@.contains(c as usize));
            assert(a[c].parent < c) by {
                assert(dag_of(a).parent[c] == a[c].parent);
            }
            assert(a[a[c].parent as int].children == b[a[c].parent as int].children);
        }
        assert forall|p: int| 0 <= p < b.len() implies (
        #[trigger] b[p]).children@.no_duplicates() by {
            assert(a[p].children@.no_duplicates());
        }
        assert forall|p: int, j: int|
            0 <= p < b.len() && 0 <= j < b[p].referrers@.len() implies {
            &&& (#[trigger] b[p].referrers@[j]) < b.len()
            &&& b[b[p].referrers@[j] as int].referees@.contains(p as usize)
        } by {
            assert(a[p].referrers@[j] < a.len());
        }
        assert forall|c: int, j: int|
            0 <= c < b.len() && 0 <= j < b[c].referees@.len() implies b[(
        #[trigger] b[c].referees@[j]) as int].referrers@.contains(c as usize) by {
            let r = a[c].referees@[j];
            assert(a[r as int].referrers@.contains(c as usize));
            assert(r < c) by {
                assert(dag_of(a).referees[c] == a[c].referees@);
                assert(dag_of(a).referees[c][j] < c);
            }
            assert(a[r as int].referrers == b[r as int].referrers);
        }
    }
}

/// One step up from a proper descendant.
pub proof fn lemma_ancestor_step(parent: Seq<usize>, a: int, d: int)
    requires
        ancestor(parent, a, d),
        0 < a < parent.len(),
        parent[a] < a,
    ensures
        ancestor(parent, parent[a] as int, d),
    decreases d,
{
    if a != d {
        lemma_ancestor_step(parent, a, parent[d] as int);
    } else {
        assert(ancestor(parent, parent[a] as int, parent[a] as int));
    }
}

/// The order of a set does not change with what views change.
pub proof fn lemma_order_same(
    a: Seq<ConsensusGraphNode>,
    b: Seq<ConsensusGraphNode>,
    s: Set<usize>,
    list: Seq<usize>,
)
    requires
        same_links(a, b),
        is_topological_order(b, s, list),
        forall|y: usize| #[trigger] s.contains(y) ==> y < a.len(),
    ensures
        is_topological_order(a, s, list),
{
    lemma_same_links(a, b);
    assert forall|i: int| 0 <= i < list.len() implies crate::order::is_best_source(
        a,
        list.take(i + 1).to_set(),
        #[trigger] list[i],
    ) by {
        let t = list.take(i + 1).to_set();
        assert(crate::order::is_best_source(b, t, list[i]));
        assert(list.to_set().contains(list[i]));
        assert forall|c: usize| #[trigger]
            crate::order::is_source(dag_of(a), t, c) implies c == list[i]
            || a[list[i] as int].hash.exceeds(a[c as int].hash) by {
            assert(list.take(i + 1).contains(c));
            let k = list.take(i + 1).index_of(c);
            assert(list[k] == c);
            assert(list.to_set().contains(c));
            assert(crate::order::is_source(dag_of(b), t, c));
        }
    }
}

/// The views hold with one more viewer.
pub proof fn lemma_views_extended(
    a: Seq<ConsensusGraphNode>,
    c: Seq<ConsensusGraphNode>,
    pivot: usize,
)
    requires
        links_ok(a),
        pivot == a.len() - 1,
        views_ok(a, pivot as nat),
        with_own_view(a, c, pivot as int),
        a[pivot as int].data.min_epoch_in_other_views == a[pivot as int].height,
        a[pivot as int].data.max_epoch_in_other_views == a[pivot as int].height,
        forall|y: usize| #[trigger]
            c[pivot as int].data.blockset_in_own_view_of_epoch@.contains(y) <==> in_own_epoch(
                dag_of(a),
                pivot as int,
                y as int,
            ),
        epoch_list_ok(dag_of(a), pivot as int, c[pivot as int].data.ordered_epoch_blocks@),
        ordered_by_hash(c, pivot as int),
    ensures
        views_ok(c, (pivot + 1) as nat),
{
    reveal(views_ok);
    let g = dag_of(a);
    let k = (pivot + 1) as nat;
    assert(same_links(a, c));
    lemma_same_links(a, c);
    assert(dag_of(c) == g);
    assert forall|x: int, y: usize| 0 <= x < k implies (
    #[trigger] c[x].data.blockset_in_own_view_of_epoch@.contains(y) <==> in_own_epoch(
        g,
        x,
        y as int,
    )) by {
        if x < pivot {
            assert(a[x].data.blockset_in_own_view_of_epoch@.contains(y) <==> in_own_epoch(
                g,
                x,
                y as int,
            ));
        }
    }
    assert forall|x: int| 0 <= x < k implies epoch_list_ok(
        g,
        x,
        (#[trigger] c[x]).data.ordered_epoch_blocks@,
    ) by {
        if x < pivot {
            assert(epoch_list_ok(g, x, a[x].data.ordered_epoch_blocks@));
        }
    }
    assert forall|x: int| 0 <= x < k implies #[trigger] ordered_by_hash(c, x) by {
        if x < pivot {
            assert(ordered_by_hash(a, x));
            let set = a[x].data.blockset_in_own_view_of_epoch@;
            let list = a[x].data.ordered_epoch_blocks@.drop_last();
            assert(c[x].data.blockset_in_own_view_of_epoch@ == set);
            assert(c[x].data.ordered_epoch_blocks@.drop_last() == list);
            assert forall|y: usize| #[trigger] set.contains(y) implies y < a.len() by {
                lemma_reaches_earlier(g, x, y as int);
            }
            lemma_order_carried(a, c, set, list, a.len());
        }
    }
    assert forall|x: int, y: int|
        0 <= x < k && 0 <= y < k && #[trigger] sees_as_own(g, x, y) implies
        c[y].data.min_epoch_in_other_views <= c[x].height <= c[y].data.max_epoch_in_other_views by {
        lemma_reaches_earlier(g, x, y);
        if x < pivot {
            assert(a[y].data.min_epoch_in_other_views <= a[x].height
                <= a[y].data.max_epoch_in_other_views);
        }
    }
    assert forall|y: int| 0 <= y < k implies #[trigger] min_epoch_attained(c, k, y) by {
        if y == pivot {
            assert(sees_as_own(g, y, y));
        } else if c[y].data.min_epoch_in_other_views
            == a[y].data.min_epoch_in_other_views {
            assert(min_epoch_attained(a, pivot as nat, y));
            let x = choose|x: int|
                0 <= x < pivot && #[trigger] sees_as_own(g, x, y)
                    && a[y].data.min_epoch_in_other_views == a[x].height;
            assert(sees_as_own(g, x, y) && c[x].height == a[x].height);
        } else {
            assert(sees_as_own(g, pivot as int, y));
        }
    }
    assert forall|y: int| 0 <= y < k implies #[trigger] max_epoch_attained(c, k, y) by {
        if y == pivot {
            assert(sees_as_own(g, y, y));
        } else if c[y].data.max_epoch_in_other_views
            == a[y].data.max_epoch_in_other_views {
            assert(max_epoch_attained(a, pivot as nat, y));
            let x = choose|x: int|
                0 <= x < pivot && #[trigger] sees_as_own(g, x, y)
                    && a[y].data.max_epoch_in_other_views == a[x].height;
            assert(sees_as_own(g, x, y) && c[x].height == a[x].height);
        } else {
            assert(sees_as_own(g, pivot as int, y));
        }
    }
}

} // verus!
