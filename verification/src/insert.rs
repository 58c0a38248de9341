//! Taking a block into the graph.

use vstd::prelude::*;
use crate::arena::{dag_of, ConsensusGraphNode, ConsensusGraphNodeData};
use crate::bits::index_limit;
use crate::config::ConsensusInnerConfig;
use crate::dag::{ancestor, depth, NULL};
#[allow(unused_imports)]
use crate::dag::{lemma_all_reach_root, lemma_reaches_earlier};
use crate::frames::{same_origin, same_origins, same_places, same_recorded, same_weights};
#[allow(unused_imports)]
use crate::frames::{lemma_frame_cache, lemma_frame_chain, lemma_frame_past, lemma_frame_tail,
    lemma_frame_trees, lemma_same_below};
use crate::model::{epoch_list_ok, epoch_ok, epochs_ok, era_genesis, in_era_past, in_own_epoch,
    in_past, indices_ok, is_terminal, last_pivots_ok, limits_ok, links_ok, max_epoch_attained,
    min_epoch_attained, parents_of, past_weights_ok, respects_edges, scale, sees_as_own,
    terminals_ok, total_cap, tree_shape, trees_ok, views_ok, weight_cap, weight_limit, weight_of,
    weights};
#[allow(unused_imports)]
use crate::order::{distinct_hashes, lemma_edges_listed, lemma_indices_distinct,
    lemma_order_carried, lemma_push_contains, ordered_by_hash};
#[allow(unused_imports)]
use crate::past::{lemma_era_past_step, lemma_past_step, lemma_recorded_bounds};
use crate::state::{fresh, sequence_ok, ConsensusGraphInner};
#[allow(unused_imports)]
use crate::state::{lemma_node, lemma_weight_bounds};
use crate::sums::{masked, sum_to};
#[allow(unused_imports)]
use crate::sums::lemma_sum_congruent;
use crate::types::{BlockHeader, H256, U256};
#[allow(unused_imports)]
use crate::views::{lemma_same_links, same_links};
use crate::wide::U512;
#[allow(unused_imports)]
use crate::wide::two_512;

verus! {

broadcast use vstd::std_specs::hash::group_hash_axioms;

/// A block is heavy if the quality of its proof of work reaches the heavy
/// ratio times its difficulty.
pub open spec fn header_is_heavy(conf: ConsensusInnerConfig, header: BlockHeader) -> bool {
    header.pow_quality.value() >= conf.heavy_block_difficulty_ratio * header.difficulty.value()
}

/// The new node says what the header says.
pub open spec fn node_of(
    conf: ConsensusInnerConfig,
    header: BlockHeader,
    indices: Map<H256, usize>,
    node: ConsensusGraphNode,
) -> bool {
    &&& node.hash == header.hash
    &&& node.height == header.height
    &&& node.is_heavy == header_is_heavy(conf, header)
    &&& node.difficulty == header.difficulty
    &&& node.pow_quality == header.pow_quality
    &&& node.adaptive == header.adaptive
    &&& node.referees@ == header.referee_hashes@.map_values(|h: H256| indices[h])
}

/// What a header has to satisfy before its block can enter the graph: its
/// parent and referees are known, it is new, it lies one above its parent, and
/// there is room for its index and its weight.
pub open spec fn insertable(inner: ConsensusGraphInner, header: BlockHeader) -> bool {
    &&& header.parent_hash != H256::spec_zero()
    &&& !inner.indices@.contains_key(header.hash)
    &&& inner.indices@.contains_key(header.parent_hash)
    &&& forall|j: int|
        0 <= j < header.referee_hashes@.len() ==> inner.indices@.contains_key(
            #[trigger] header.referee_hashes@[j],
        )
    &&& header.height == inner.nodes()[inner.indices@[header.parent_hash] as int].height + 1
    &&& inner.size() < index_limit()
    &&& inner.sequence_number_of_block_entrance < u64::MAX
    &&& room_for(inner.inner_conf, inner.nodes(), header.difficulty)
}

/// The weights leave room for one more block of the given difficulty.
pub open spec fn room_for(
    conf: ConsensusInnerConfig,
    nodes: Seq<ConsensusGraphNode>,
    difficulty: U256,
) -> bool {
    &&& difficulty.fits_weight()
    &&& (total_cap(conf, nodes) + conf.heavy_block_difficulty_ratio + difficulty.value()) * scale(
        conf,
    ) <= weight_limit()
}

/// The list followed by `n`, once for every entry of `refs` that is `i`.
pub open spec fn referrers_after(
    list: Seq<usize>,
    refs: Seq<usize>,
    i: int,
    n: int,
) -> Seq<usize>
    decreases refs.len(),
{
    if refs.len() == 0 {
        list
    } else {
        let before = referrers_after(list, refs.drop_last(), i, n);
        if refs.last() == i {
            before.push(n as usize)
        } else {
            before
        }
    }
}

/// The lists of children and referrers of the blocks `a`, behind which one more
/// came: it is the last child of its parent and the last referrer of its
/// referees, as often as it names them, and no other list changed.
pub open spec fn lists_grown(a: Seq<ConsensusGraphNode>, b: Seq<ConsensusGraphNode>) -> bool {
    let n = a.len() as int;
    &&& forall|i: int|
        0 <= i < n ==> (#[trigger] b[i]).children@ == (if i == b[n].parent {
            a[i].children@.push(n as usize)
        } else {
            a[i].children@
        })
    &&& forall|i: int|
        0 <= i < n ==> (#[trigger] b[i]).referrers@ == referrers_after(
            a[i].referrers@,
            b[n].referees@,
            i,
            n,
        )
}

/// The tips of the graph after a block came in: it takes the place of its parent
/// and its referees.
pub open spec fn terminals_after(terminals: Set<H256>, block: BlockHeader) -> Set<H256> {
    terminals.difference(block.referee_hashes@.to_set()).remove(block.parent_hash).insert(
        block.hash,
    )
}

/// The blocks that were there are what they were, but for their links to the
/// new block and the epochs in which they are seen.
pub open spec fn grown(a: Seq<ConsensusGraphNode>, b: Seq<ConsensusGraphNode>) -> bool {
    &&& b.len() == a.len() + 1
    &&& lists_grown(a, b)
    &&& forall|i: int|
        0 <= i < a.len() ==> #[trigger] b[i] == (ConsensusGraphNode {
            children: b[i].children,
            referrers: b[i].referrers,
            data: ConsensusGraphNodeData {
                min_epoch_in_other_views: b[i].data.min_epoch_in_other_views,
                max_epoch_in_other_views: b[i].data.max_epoch_in_other_views,
                ..a[i].data
            },
            ..a[i]
        })
}

/// The new node hangs behind its parent and referees.
pub open spec fn linked_behind(a: Seq<ConsensusGraphNode>, b: Seq<ConsensusGraphNode>) -> bool {
    let n = a.len() as int;
    &&& b.len() == n + 1
    &&& b[n].parent < n
    &&& forall|j: int| 0 <= j < b[n].referees@.len() ==> (#[trigger] b[n].referees@[j]) < n
    &&& b[n].height == a[b[n].parent as int].height + 1
    &&& b[n].children@.len() == 0
    &&& b[n].referrers@.len() == 0
    &&& forall|i: int|
        0 <= i < n ==> #[trigger] b[i] == (ConsensusGraphNode {
            children: b[i].children,
            referrers: b[i].referrers,
            ..a[i]
        })
    &&& forall|i: int|
        0 <= i < n ==> (#[trigger] b[i]).children@ == (if i == b[n].parent {
            a[i].children@.push(n as usize)
        } else {
            a[i].children@
        })
    &&& forall|i: int, c: usize|
        0 <= i < n ==> (#[trigger] b[i].referrers@.contains(c) <==> a[i].referrers@.contains(c) || (
        c == n && b[n].referees@.contains(i as usize)))
}

/// The hashes that a header names are those of the blocks that it is linked to.
proof fn lemma_named_hashes(inner: ConsensusGraphInner, header: BlockHeader, refs: Seq<usize>)
    requires
        indices_ok(inner.nodes(), inner.indices@),
        insertable(inner, header),
        refs == header.referee_hashes@.map_values(|h: H256| inner.indices@[h]),
    ensures
        inner.nodes()[inner.indices@[header.parent_hash] as int].hash == header.parent_hash,
        forall|h: H256|
            (forall|k: int|
                0 <= k < refs.len() ==> inner.nodes()[#[trigger] refs[k] as int].hash != h)
                <==> !#[trigger] header.referee_hashes@.to_set().contains(h),
{
    assert(inner.indices@.contains_key(header.parent_hash));
    assert forall|k: int| 0 <= k < refs.len() implies inner.nodes()[
    #[trigger] refs[k] as int].hash == header.referee_hashes@[k] by {
        assert(inner.indices@.contains_key(header.referee_hashes@[k]));
    }
    assert forall|h: H256|
        (forall|k: int|
            0 <= k < refs.len() ==> inner.nodes()[#[trigger] refs[k] as int].hash != h)
            <==> !#[trigger] header.referee_hashes@.to_set().contains(h) by {
        if header.referee_hashes@.to_set().contains(h) {
            let k = header.referee_hashes@.index_of(h);
            assert(inner.nodes()[refs[k] as int].hash == header.referee_hashes@[k]);
        }
        if exists|k: int|
            0 <= k < refs.len() && inner.nodes()[#[trigger] refs[k] as int].hash == h {
            let k = choose|k: int|
                0 <= k < refs.len() && inner.nodes()[#[trigger] refs[k] as int].hash == h;
            assert(header.referee_hashes@.contains(header.referee_hashes@[k]));
        }
    }
}

/// The children are right with the new node.
#[verifier::spinoff_prover]
proof fn lemma_children_extended(a: Seq<ConsensusGraphNode>, b: Seq<ConsensusGraphNode>)
    requires
        links_ok(a),
        a.len() < index_limit(),
        linked_behind(a, b),
    ensures
        forall|p: int, j: int|
            0 <= p < b.len() && 0 <= j < b[p].children@.len() ==> {
                &&& (#[trigger] b[p].children@[j]) < b.len()
                &&& b[b[p].children@[j] as int].parent == p
            },
        forall|c: int|
            0 < c < b.len() ==> b[(#[trigger] b[c]).parent as int].children@.contains(c as usize),
        forall|p: int| 0 <= p < b.len() ==> (#[trigger] b[p]).children@.no_duplicates(),
{
    let n = a.len() as int;
    let g = dag_of(a);
    reveal(links_ok);
    assert forall|p: int, j: int|
        0 <= p < b.len() && 0 <= j < b[p].children@.len() implies {
        &&& (#[trigger] b[p].children@[j]) < b.len()
        &&& b[b[p].children@[j] as int].parent == p
    } by {
        if p < n {
            if j < a[p].children@.len() {
                let c = a[p].children@[j];
                assert(c < a.len() && a[c as int].parent == p);
                assert(b[p].children@[j] == c);
            } else {
                assert(b[p].children@[j] == n);
            }
        }
    }
    assert forall|c: int| 0 < c < b.len() implies b[(
    #[trigger] b[c]).parent as int].children@.contains(c as usize) by {
        let p = b[c].parent as int;
        if c < n {
            assert(a[a[c].parent as int].children@.contains(c as usize));
            assert(g.parent[c] < c);
            lemma_push_contains(a[p].children@, n as usize, c as usize);
            assert(b[p].children@ == a[p].children@ || b[p].children@ == a[p].children@.push(
                n as usize,
            ));
        } else {
            assert(b[p].children@ == a[p].children@.push(n as usize));
            lemma_push_contains(a[p].children@, n as usize, c as usize);
        }
    }
    assert forall|p: int| 0 <= p < b.len() implies (
    #[trigger] b[p]).children@.no_duplicates() by {
        if p < n {
            assert(a[p].children@.no_duplicates());
            assert forall|j: int| 0 <= j < a[p].children@.len() implies
                #[trigger] a[p].children@[j] != n by {
                assert(a[p].children@[j] < a.len());
            }
        }
    }
}

/// The referrers are right with the new node.
#[verifier::spinoff_prover]
proof fn lemma_referrers_extended(a: Seq<ConsensusGraphNode>, b: Seq<ConsensusGraphNode>)
    requires
        links_ok(a),
        a.len() < index_limit(),
        linked_behind(a, b),
    ensures
        forall|p: int, j: int|
            0 <= p < b.len() && 0 <= j < b[p].referrers@.len() ==> {
                &&& (#[trigger] b[p].referrers@[j]) < b.len()
                &&& b[b[p].referrers@[j] as int].referees@.contains(p as usize)
            },
        forall|c: int, j: int|
            0 <= c < b.len() && 0 <= j < b[c].referees@.len() ==> b[(
            #[trigger] b[c].referees@[j]) as int].referrers@.contains(c as usize),
{
    let n = a.len() as int;
    let g = dag_of(a);
    reveal(links_ok);
    assert forall|p: int, j: int|
        0 <= p < b.len() && 0 <= j < b[p].referrers@.len() implies {
        &&& (#[trigger] b[p].referrers@[j]) < b.len()
        &&& b[b[p].referrers@[j] as int].referees@.contains(p as usize)
    } by {
        let c = b[p].referrers@[j];
        if p < n {
            assert(b[p].referrers@.contains(c));
            if a[p].referrers@.contains(c) {
                let k = a[p].referrers@.index_of(c);
                assert(a[p].referrers@[k] == c);
                assert(a[c as int].referees@.contains(p as usize));
            }
        }
    }
    assert forall|c: int, j: int|
        0 <= c < b.len() && 0 <= j < b[c].referees@.len() implies b[(
    #[trigger] b[c].referees@[j]) as int].referrers@.contains(c as usize) by {
        let r = b[c].referees@[j];
        if c < n {
            assert(a[c].referees@[j] == r);
            assert(g.referees[c][j] < c);
            assert(a[r as int].referrers@.contains(c as usize));
            assert(b[r as int].referrers@.contains(c as usize));
        } else {
            assert(b[n].referees@.contains(r));
            assert(b[r as int].referrers@.contains(c as usize));
        }
    }
}

/// The links are right with the new node.
proof fn lemma_links_extended(a: Seq<ConsensusGraphNode>, b: Seq<ConsensusGraphNode>)
    requires
        links_ok(a),
        a.len() < index_limit(),
        linked_behind(a, b),
        forall|i: int|
            0 <= i < a.len() ==> (#[trigger] a[i]).data.sequence_number
                < b[a.len() as int].data.sequence_number,
    ensures
        links_ok(b),
        same_origins(a, b, a.len()),
{
    let n = a.len() as int;
    let g = dag_of(a);
    let h = dag_of(b);
    reveal(links_ok);
    assert forall|i: int| 0 <= i < n implies same_origin(a[i], b[i]) by {}
    lemma_same_below(a, b, a.len());
    assert(h.well_formed()) by {
        assert forall|i: int| 0 < i < h.parent.len() implies (#[trigger] h.parent[i]) < i by {
            if i < n {
                assert(g.parent[i] < i);
                assert(h.parent[i] == b[i].parent && b[i].parent == a[i].parent);
            }
        }
        assert(h.parent[0] == b[0].parent && b[0].parent == a[0].parent && a[0].parent
            == g.parent[0]);
        assert(h.referees[0] == b[0].referees@ && b[0].referees == a[0].referees
            && a[0].referees@ == g.referees[0]);
        assert forall|x: int, j: int|
            0 <= x < h.len() && 0 <= j < h.referees[x].len() implies (
        #[trigger] h.referees[x][j]) < x by {
            assert(h.referees[x] == b[x].referees@);
            if x < n {
                assert(g.referees[x] == a[x].referees@ && a[x].referees == b[x].referees);
                assert(g.referees[x][j] < x);
            } else {
                assert(b[n].referees@[j] < n);
            }
        }
    }
    assert forall|i: int| 0 <= i < b.len() implies (#[trigger] b[i]).height == depth(
        parents_of(b),
        i,
    ) by {
        if i < n {
            assert(a[i].height == depth(parents_of(a), i));
            assert(depth(parents_of(b), i) == depth(parents_of(a), i));
        } else {
            let p = b[n].parent as int;
            assert(a[p].height == depth(parents_of(a), p));
            assert(h.parent[n] == p);
            assert(depth(parents_of(b), n) == depth(parents_of(b), p) + 1);
            assert(depth(parents_of(b), p) == depth(parents_of(a), p));
        }
    }
    lemma_children_extended(a, b);
    lemma_referrers_extended(a, b);
}

/// Views stay right when a node is linked behind them.
proof fn lemma_frame_views(a: Seq<ConsensusGraphNode>, b: Seq<ConsensusGraphNode>)
    requires
        links_ok(a),
        links_ok(b),
        views_ok(a, a.len()),
        linked_behind(a, b),
        same_origins(a, b, a.len()),
    ensures
        views_ok(b, a.len()),
{
    reveal(views_ok);
    let k = a.len();
    let g = dag_of(a);
    let h = dag_of(b);
    lemma_same_below(a, b, k);
    assert forall|x: int, y: int| 0 <= x < k implies #[trigger] in_own_epoch(h, x, y)
        == in_own_epoch(g, x, y) by {
        lemma_node(a, x);
        lemma_node(b, x);
        assert(g.reaches(x, y) == h.reaches(x, y));
        if x > 0 {
            let p = a[x].parent as int;
            assert(g.parent[x] == p && h.parent[x] == p);
            assert(g.reaches(p, y) == h.reaches(p, y));
        }
    }
    assert forall|x: int, y: usize| 0 <= x < k implies (
    #[trigger] b[x].data.blockset_in_own_view_of_epoch@.contains(y) <==> in_own_epoch(
        h,
        x,
        y as int,
    )) by {
        assert(a[x].data.blockset_in_own_view_of_epoch@.contains(y) <==> in_own_epoch(
            g,
            x,
            y as int,
        ));
    }
    assert forall|x: int| 0 <= x < k implies epoch_list_ok(
        h,
        x,
        (#[trigger] b[x]).data.ordered_epoch_blocks@,
    ) by {
        let l = a[x].data.ordered_epoch_blocks@;
        assert(epoch_list_ok(g, x, l));
        assert forall|i: int| 0 <= i < l.len() implies (#[trigger] l[i]) < k by {
            assert(l.contains(l[i]));
            lemma_reaches_earlier(g, x, l[i] as int);
        }
        assert forall|i: int, j: int|
            0 <= i < l.len() && 0 <= j < l.len() && #[trigger] h.edge(
                l[i] as int,
                l[j] as int,
            ) implies j < i by {
            lemma_edges_listed(a, l[i] as int, l[j] as int);
            lemma_edges_listed(b, l[i] as int, l[j] as int);
            assert(same_origin(a[l[i] as int], b[l[i] as int]));
            assert(g.edge(l[i] as int, l[j] as int));
        }
        assert(respects_edges(h, l));
        assert forall|y: usize| #[trigger] l.contains(y) <==> (y == x || in_own_epoch(
            h,
            x,
            y as int,
        )) by {
            assert(in_own_epoch(h, x, y as int) == in_own_epoch(g, x, y as int));
        }
    }
    assert forall|x: int| 0 <= x < k implies #[trigger] ordered_by_hash(b, x) by {
        assert(ordered_by_hash(a, x));
        let set = a[x].data.blockset_in_own_view_of_epoch@;
        let list = a[x].data.ordered_epoch_blocks@.drop_last();
        assert(b[x].data == a[x].data);
        assert forall|y: usize| #[trigger] set.contains(y) implies y < k by {
            lemma_reaches_earlier(g, x, y as int);
        }
        lemma_order_carried(a, b, set, list, k);
    }
    assert forall|x: int, y: int|
        0 <= x < k && 0 <= y < k && #[trigger] sees_as_own(h, x, y) implies
        b[y].data.min_epoch_in_other_views <= b[x].height <= b[y].data.max_epoch_in_other_views by {
        assert(in_own_epoch(h, x, y) == in_own_epoch(g, x, y));
        assert(sees_as_own(g, x, y));
    }
    assert forall|y: int| 0 <= y < k implies #[trigger] min_epoch_attained(b, k, y) by {
        assert(min_epoch_attained(a, k, y));
        let x = choose|x: int|
            0 <= x < k && #[trigger] sees_as_own(g, x, y) && a[y].data.min_epoch_in_other_views
                == a[x].height;
        assert(in_own_epoch(h, x, y) == in_own_epoch(g, x, y));
        assert(sees_as_own(h, x, y) && b[x].height == a[x].height);
    }
    assert forall|y: int| 0 <= y < k implies #[trigger] max_epoch_attained(b, k, y) by {
        assert(max_epoch_attained(a, k, y));
        let x = choose|x: int|
            0 <= x < k && #[trigger] sees_as_own(g, x, y) && a[y].data.max_epoch_in_other_views
                == a[x].height;
        assert(in_own_epoch(h, x, y) == in_own_epoch(g, x, y));
        assert(sees_as_own(h, x, y) && b[x].height == a[x].height);
    }
}

/// The limits hold with a node for which there was room.
proof fn lemma_limits_extended(
    conf: ConsensusInnerConfig,
    a: Seq<ConsensusGraphNode>,
    b: Seq<ConsensusGraphNode>,
)
    requires
        limits_ok(conf, a),
        b.len() == a.len() + 1,
        room_for(conf, a, b[a.len() as int].difficulty),
        forall|i: int|
            #![trigger b[i]]
            0 <= i < a.len() ==> b[i].difficulty == a[i].difficulty,
    ensures
        limits_ok(conf, b),
{
    reveal(limits_ok);
    let n = a.len();
    let ca = |i: int| weight_cap(conf)(a[i]);
    let cb = |i: int| weight_cap(conf)(b[i]);
    assert forall|i: int| 0 <= i < n implies #[trigger] ca(i) == cb(i) by {
        assert(b[i].difficulty == a[i].difficulty);
    }
    lemma_sum_congruent(ca, cb, n);
    assert(total_cap(conf, a) == sum_to(ca, n));
    assert(total_cap(conf, b) == sum_to(cb, n + 1));
    assert(sum_to(cb, n + 1) == sum_to(cb, n) + cb(n as int));
    assert forall|i: int| 0 <= i < b.len() implies (
    #[trigger] b[i]).difficulty.fits_weight() by {
        if i < n {
            assert(a[i].difficulty.fits_weight());
        }
    }
}

/// The tips with the new block.
proof fn lemma_terminals_extended(
    a: Seq<ConsensusGraphNode>,
    b: Seq<ConsensusGraphNode>,
    s: Set<H256>,
    t: Set<H256>,
)
    requires
        links_ok(a),
        links_ok(b),
        distinct_hashes(b),
        same_origins(a, b, a.len()),
        b.len() == a.len() + 1,
        forall|i: int| 0 <= i < a.len() ==> (#[trigger] b[i]).hash == a[i].hash,
        terminals_ok(a, s),
        forall|h: H256| #[trigger]
            t.contains(h) <==> h == b[a.len() as int].hash || (s.contains(h) && h
                != a[b[a.len() as int].parent as int].hash && forall|j: int|
                0 <= j < b[a.len() as int].referees@.len()
                    ==> a[#[trigger] b[a.len() as int].referees@[j] as int].hash != h),
    ensures
        terminals_ok(b, t),
{
    reveal(terminals_ok);
    let n = a.len() as int;
    let g = dag_of(a);
    let h = dag_of(b);
    let me = b[n];
    lemma_node(b, n);
    assert forall|i: int| 0 <= i < b.len() implies (t.contains((#[trigger] b[i]).hash)
        <==> is_terminal(h, i)) by {
        if i == n {
            assert forall|c: int| !#[trigger] h.edge(c, i) by {}
        } else {
            assert(b[i].hash == a[i].hash);
            assert(b[n].hash != b[i].hash);
            assert(s.contains(a[i].hash) <==> is_terminal(g, i));
            assert forall|c: int| 0 <= c < n implies #[trigger] h.edge(c, i) == g.edge(c, i) by {
                lemma_edges_listed(a, c, i);
                lemma_edges_listed(b, c, i);
                assert(same_origin(a[c], b[c]));
            }
            lemma_edges_listed(b, n, i);
            let p = me.parent as int;
            if is_terminal(h, i) {
                assert forall|c: int| !#[trigger] g.edge(c, i) by {
                    assert(!h.edge(c, i));
                    if g.edge(c, i) {
                        assert(h.edge(c, i) == g.edge(c, i));
                    }
                }
                assert(!h.edge(n, i));
                assert(p != i);
                assert(a[p].hash != a[i].hash) by {
                    assert(b[p].hash == a[p].hash);
                    assert(p < i ==> b[p].hash != b[i].hash);
                    assert(i < p ==> b[i].hash != b[p].hash);
                }
                assert forall|j: int| 0 <= j < me.referees@.len() implies a[
                    #[trigger] me.referees@[j] as int].hash != b[i].hash by {
                    let r = me.referees@[j] as int;
                    assert(me.referees@.contains(r as usize));
                    assert(r != i);
                    assert(b[r].hash == a[r].hash);
                    assert(r < i ==> b[r].hash != b[i].hash);
                    assert(i < r ==> b[i].hash != b[r].hash);
                }
            }
            if t.contains(b[i].hash) {
                assert forall|c: int| !#[trigger] h.edge(c, i) by {
                    if h.edge(c, i) {
                        if c < n {
                            assert(h.edge(c, i) == g.edge(c, i));
                            assert(!g.edge(c, i));
                        } else {
                            assert(c == n);
                            if p != i {
                                let j = me.referees@.index_of(i as usize);
                                assert(me.referees@[j] == i);
                            }
                        }
                    }
                }
            }
        }
    }
    assert forall|x: H256| #[trigger] t.contains(x) implies exists|i: int|
        0 <= i < b.len() && (#[trigger] b[i]).hash == x by {
        if x == b[n].hash {
        } else {
            let i = choose|i: int| 0 <= i < a.len() && (#[trigger] a[i]).hash == x;
            assert(b[i].hash == x);
        }
    }
}

/// The state with the new block, apart from the block's own records.
proof fn lemma_inserted(old_inner: ConsensusGraphInner, inner: ConsensusGraphInner)
    requires
        old_inner.ready(),
        inner.arena.wf(),
        inner == (ConsensusGraphInner {
            arena: inner.arena,
            indices: inner.indices,
            terminal_hashes: inner.terminal_hashes,
            sequence_number_of_block_entrance: inner.sequence_number_of_block_entrance,
            ..old_inner
        }),
        grown(old_inner.nodes(), inner.nodes()),
        links_ok(inner.nodes()),
        indices_ok(inner.nodes(), inner.indices@),
        views_ok(inner.nodes(), inner.size()),
        limits_ok(inner.inner_conf, inner.nodes()),
        past_weights_ok(inner.inner_conf, inner.nodes(), inner.size()),
        inner.terminal_hashes.wf(),
        terminals_ok(inner.nodes(), inner.terminal_hashes@),
        sequence_ok(inner.nodes(), inner.sequence_number_of_block_entrance),
        fresh(inner.nodes()[inner.size() - 1]),
    ensures
        inner.inserted(inner.size() - 1),
        old_inner.tail_holds(old_inner.size()) ==> inner.tail_holds(old_inner.size()),
{
    let a = old_inner.nodes();
    let b = inner.nodes();
    let k = a.len();
    let chain = inner.pivot_chain@;
    assert(k > 0) by {
        reveal(links_ok);
    }
    assert(same_origins(a, b, k));
    assert(same_weights(a, b, k));
    assert(same_recorded(a, b, k));
    assert(same_places(a, b, k));
    lemma_frame_trees(inner.inner_conf, a, b, inner.trees, k, k);
    lemma_frame_cache(a, b, inner.anticone_cache@, k);
    lemma_frame_chain(a, b, chain, k);
    if old_inner.tail_holds(k) {
        lemma_frame_tail(a, b, inner.pivot_chain_metadata@, chain, k);
    }
    lemma_same_below(a, b, k);
    let me = k as int;
    lemma_node(b, me);
    assert(epochs_ok(b, chain)) by {
        reveal(epochs_ok);
        assert forall|x: int| 0 <= x < b.len() implies epoch_ok(
            dag_of(b),
            chain,
            x,
            (#[trigger] b[x]).data.epoch_number,
        ) by {
            if x < k {
                assert(epoch_ok(dag_of(a), chain, x, a[x].data.epoch_number));
            } else {
                let last = chain.last() as int;
                assert(chain[chain.len() - 1] < a.len());
                if dag_of(b).reaches(last, x) {
                    lemma_reaches_earlier(dag_of(b), last, x);
                }
            }
        }
    }
    assert(last_pivots_ok(b, chain)) by {
        assert forall|x: int| 0 <= x < b.len() implies (#[trigger] b[x]).last_pivot_in_past
            < chain.len() && dag_of(b).reaches(x, chain[b[x].last_pivot_in_past as int] as int) by {
            if x < k {
                assert(a[x].last_pivot_in_past < chain.len());
            } else {
                lemma_all_reach_root(dag_of(b), x);
            }
        }
    }
}

impl ConsensusGraphInner {
    /// The next sequence number.
    pub fn get_next_sequence_number(&mut self) -> (sn: u64)
        requires
            old(self).sequence_number_of_block_entrance < u64::MAX,
        ensures
            sn == old(self).sequence_number_of_block_entrance,
            *final(self) == (ConsensusGraphInner {
                sequence_number_of_block_entrance: (sn + 1) as u64,
                ..*old(self)
            }),
    {
        let sn: u64 = self.sequence_number_of_block_entrance;
        self.sequence_number_of_block_entrance = sn + 1;
        sn
    }

    /// Whether a block with this header is heavy.
    pub fn is_heavy_header(&self, header: &BlockHeader) -> (heavy: bool)
        ensures
            heavy == header_is_heavy(self.inner_conf, *header),
    {
        let ratio = U512::from_u64(self.inner_conf.heavy_block_difficulty_ratio);
        let difficulty = U512::from_u256(&header.difficulty);
        proof {
            header.difficulty.lemma_value_decides(header.difficulty);
            let r = ratio.value();
            let d = difficulty.value();
            let m = crate::types::two_128();
            assert(r * d < two_512()) by (nonlinear_arith)
                requires
                    0 <= r < m,
                    0 <= d < m * m,
                    m == 0x1_0000_0000_0000_0000_0000_0000_0000_0000int,
                    two_512() == m * m * m * m,
            ;
        }
        U512::from_u256(&header.pow_quality).at_least(&ratio.times(&difficulty))
    }

    /// The node for a header, with nothing known of its past yet.
    pub fn new_node(
        &self,
        header: &BlockHeader,
        parent: usize,
        referees: Vec<usize>,
        sn: u64,
    ) -> (node: ConsensusGraphNode)
        ensures
            node.hash == header.hash,
            node.height == header.height,
            node.is_heavy == header_is_heavy(self.inner_conf, *header),
            node.difficulty == header.difficulty,
            node.pow_quality == header.pow_quality,
            node.adaptive == header.adaptive,
            node.parent == parent,
            node.referees == referees,
            node.past_weight == 0,
            node.past_era_weight == 0,
            node.children@.len() == 0,
            node.referrers@.len() == 0,
            node.data.min_epoch_in_other_views == header.height,
            node.data.max_epoch_in_other_views == header.height,
            node.data.sequence_number == sn,
            fresh(node),
    {
        ConsensusGraphNode {
            hash: header.hash,
            height: header.height,
            is_heavy: self.is_heavy_header(header),
            difficulty: header.difficulty,
            past_weight: 0,
            past_era_weight: 0,
            pow_quality: header.pow_quality,
            stable: true,
            adaptive: header.adaptive,
            parent,
            last_pivot_in_past: 0,
            children: Vec::new(),
            referrers: Vec::new(),
            referees,
            data: ConsensusGraphNodeData::new(NULL, header.height, sn),
        }
    }

    /// The indices of the referees of a header.
    fn referee_indices(&self, header: &BlockHeader) -> (referees: Vec<usize>)
        requires
            forall|j: int|
                0 <= j < header.referee_hashes@.len() ==> self.indices@.contains_key(
                    #[trigger] header.referee_hashes@[j],
                ),
        ensures
            referees@ == header.referee_hashes@.map_values(|h: H256| self.indices@[h]),
    {
        let mut referees: Vec<usize> = Vec::new();
        let mut j: usize = 0;
        while j < header.referee_hashes.len()
            invariant
                j <= header.referee_hashes@.len(),
                forall|k: int|
                    0 <= k < header.referee_hashes@.len() ==> self.indices@.contains_key(
                        #[trigger] header.referee_hashes@[k],
                    ),
                referees@.len() == j,
                forall|k: int|
                    0 <= k < j ==> #[trigger] referees@[k]
                        == self.indices@[header.referee_hashes@[k]],
            decreases header.referee_hashes@.len() - j,
        {
            assert(self.indices@.contains_key(header.referee_hashes@[j as int]));
            let found: Option<usize> = self.indices.get(&header.referee_hashes[j]);
            let index: usize = match found {
                Some(i) => i,
                None => NULL,
            };
            referees.push(index);
            j = j + 1;
        }
        assert(referees@ =~= header.referee_hashes@.map_values(|h: H256| self.indices@[h]));
        referees
    }

    /// Puts the node behind its parent and referees.
    fn link_node(&mut self, node: ConsensusGraphNode) -> (index: usize)
        requires
            old(self).arena.wf(),
            old(self).size() < index_limit(),
            links_ok(old(self).nodes()),
            node.parent < old(self).size(),
            node.height == old(self).nodes()[node.parent as int].height + 1,
            node.children@.len() == 0,
            node.referrers@.len() == 0,
            forall|j: int|
                0 <= j < node.referees@.len() ==> (#[trigger] node.referees@[j])
                    < old(self).size(),
            sequence_ok(old(self).nodes(), node.data.sequence_number),
        ensures
            index == old(self).size(),
            final(self).arena.wf(),
            *final(self) == (ConsensusGraphInner { arena: final(self).arena, ..*old(self) }),
            linked_behind(old(self).nodes(), final(self).nodes()),
            lists_grown(old(self).nodes(), final(self).nodes()),
            links_ok(final(self).nodes()),
            same_origins(old(self).nodes(), final(self).nodes(), old(self).size()),
            final(self).nodes()[index as int] == node,
    {
        let ghost start = *self;
        let ghost a = self.nodes();
        let ghost n = a.len() as int;
        let parent: usize = node.parent;
        let ghost added = node;
        let ghost refs = node.referees@;
        let mut referees: Vec<usize> = Vec::new();
        let mut j: usize = 0;
        while j < node.referees.len()
            invariant
                j <= node.referees@.len(),
                referees@ == node.referees@.take(j as int),
            decreases node.referees@.len() - j,
        {
            referees.push(node.referees[j]);
            j = j + 1;
            assert(node.referees@.take(j as int) =~= node.referees@.take(j - 1).push(
                node.referees@[j - 1],
            ));
        }
        assert(referees@ =~= refs);
        let index: usize = self.arena.insert(node);
        let parent_node = self.arena.get_mut(parent);
        parent_node.children.push(index);
        let ghost linked = self.nodes();
        j = 0;
        while j < referees.len()
            invariant
                self.arena.wf(),
                *self == (ConsensusGraphInner { arena: self.arena, ..start }),
                a == start.nodes(),
                n == a.len(),
                index == n,
                parent < n,
                referees@ == refs,
                forall|k: int| 0 <= k < refs.len() ==> (#[trigger] refs[k]) < n,
                j <= refs.len(),
                linked.len() == n + 1,
                linked[n] == added,
                forall|i: int|
                    0 <= i < n ==> #[trigger] linked[i] == (ConsensusGraphNode {
                        children: linked[i].children,
                        ..a[i]
                    }),
                forall|i: int|
                    0 <= i < n ==> (#[trigger] linked[i]).children@ == (if i == parent {
                        a[i].children@.push(n as usize)
                    } else {
                        a[i].children@
                    }),
                self.nodes().len() == n + 1,
                self.nodes()[n] == added,
                forall|i: int|
                    0 <= i < n ==> #[trigger] self.nodes()[i] == (ConsensusGraphNode {
                        referrers: self.nodes()[i].referrers,
                        ..linked[i]
                    }),
                forall|i: int, c: usize|
                    0 <= i < n ==> (#[trigger] self.nodes()[i].referrers@.contains(c)
                        <==> a[i].referrers@.contains(c) || (c == n && refs.take(
                        j as int,
                    ).contains(i as usize))),
                forall|i: int|
                    0 <= i < n ==> (#[trigger] self.nodes()[i]).referrers@ == referrers_after(
                        a[i].referrers@,
                        refs.take(j as int),
                        i,
                        n,
                    ),
            decreases refs.len() - j,
        {
            let referee: usize = referees[j];
            let ghost before = self.nodes();
            assert(refs[j as int] < n);
            let node = self.arena.get_mut(referee);
            node.referrers.push(index);
            j = j + 1;
            proof {
                let now = self.nodes();
                assert(refs.take(j as int) =~= refs.take(j - 1).push(referee));
                assert(refs.take(j as int).drop_last() =~= refs.take(j - 1));
                assert forall|i: int| 0 <= i < n implies (#[trigger] now[i]).referrers@
                    == referrers_after(a[i].referrers@, refs.take(j as int), i, n) by {
                    assert(before[i].referrers@ == referrers_after(
                        a[i].referrers@,
                        refs.take(j - 1),
                        i,
                        n,
                    ));
                }
                assert forall|i: int, c: usize| 0 <= i < n implies (
                #[trigger] now[i].referrers@.contains(c) <==> a[i].referrers@.contains(c) || (c
                    == n && refs.take(j as int).contains(i as usize))) by {
                    lemma_push_contains(refs.take(j - 1), referee, i as usize);
                    lemma_push_contains(before[i].referrers@, index, c);
                    assert(before[i].referrers@.contains(c) <==> a[i].referrers@.contains(c) || (c
                        == n && refs.take(j - 1).contains(i as usize)));
                }
            }
        }
        proof {
            assert(refs.take(refs.len() as int) =~= refs);
            lemma_links_extended(a, self.nodes());
        }
        index
    }

    /// Takes a block into the graph: links it, collects its own epoch and
    /// computes the weight of its past. Returns its index and the number of
    /// blocks.
    pub fn insert(&mut self, header: &BlockHeader) -> (r: (usize, usize))
        requires
            old(self).ready(),
            insertable(*old(self), *header),
        ensures
            r.0 == old(self).size(),
            r.1 == old(self).size() + 1,
            final(self).inserted(r.0 as int),
            old(self).tail_holds(old(self).size()) ==> final(self).tail_holds(r.0 as nat),
            node_of(
                old(self).inner_conf,
                *header,
                old(self).indices@,
                final(self).nodes()[r.0 as int],
            ),
            final(self).nodes()[r.0 as int].parent == old(self).indices@[header.parent_hash],
            final(self).nodes()[r.0 as int].data.sequence_number
                == old(self).sequence_number_of_block_entrance,
            grown(old(self).nodes(), final(self).nodes()),
            *final(self) == (ConsensusGraphInner {
                arena: final(self).arena,
                indices: final(self).indices,
                terminal_hashes: final(self).terminal_hashes,
                sequence_number_of_block_entrance: (old(self).sequence_number_of_block_entrance
                    + 1) as u64,
                ..*old(self)
            }),
            final(self).indices@ == old(self).indices@.insert(header.hash, r.0),
            final(self).terminal_hashes@ == terminals_after(
                old(self).terminal_hashes@,
                *header,
            ),
    {
        let ghost start = *self;
        let ghost a = self.nodes();
        let ghost n = a.len() as int;
        let ghost conf = self.inner_conf;
        assert(n > 0) by {
            reveal(links_ok);
        }
        let parent: usize = match self.indices.get(&header.parent_hash) {
            Some(i) => i,
            None => NULL,
        };
        let referees: Vec<usize> = self.referee_indices(header);
        let ghost refs = referees@;
        proof {
            assert forall|j: int| 0 <= j < refs.len() implies (#[trigger] refs[j]) < n by {
                assert(self.indices@.contains_key(header.referee_hashes@[j]));
            }
        }
        let mut j: usize = 0;
        while j < referees.len()
            invariant
                self.arena.wf(),
                *self == (ConsensusGraphInner { terminal_hashes: self.terminal_hashes, ..start }),
                self.terminal_hashes.wf(),
                a == start.nodes(),
                n == a.len(),
                refs == referees@,
                j <= refs.len(),
                forall|k: int| 0 <= k < refs.len() ==> (#[trigger] refs[k]) < n,
                forall|h: H256| #[trigger]
                    self.terminal_hashes@.contains(h) <==> start.terminal_hashes@.contains(h)
                        && forall|k: int| 0 <= k < j ==> a[#[trigger] refs[k] as int].hash != h,
            decreases refs.len() - j,
        {
            let referee: usize = referees[j];
            assert(refs[j as int] < n);
            let hash: H256 = self.arena.get(referee).hash;
            self.terminal_hashes.remove(&hash);
            j = j + 1;
        }
        let sn: u64 = self.get_next_sequence_number();
        let node: ConsensusGraphNode = self.new_node(header, parent, referees, sn);
        let ghost added = node;
        let index: usize = self.link_node(node);
        self.indices.insert(header.hash, index);
        let parent_hash: H256 = self.arena.get(parent).hash;
        self.terminal_hashes.remove(&parent_hash);
        self.terminal_hashes.insert(header.hash);
        let ghost b = self.nodes();
        proof {
            assert(self.terminal_hashes@ =~= terminals_after(start.terminal_hashes@, *header))
                by {
                lemma_named_hashes(start, *header, refs);
            }
            assert(indices_ok(b, self.indices@)) by {
                assert forall|i: int| 0 <= i < b.len() implies self.indices@.contains_key(
                    (#[trigger] b[i]).hash,
                ) && self.indices@[b[i].hash] == i by {
                    if i < n {
                        assert(start.indices@.contains_key(a[i].hash));
                    }
                }
                assert forall|h: H256| #[trigger] self.indices@.contains_key(
                    h,
                ) implies self.indices@[h] < b.len() && b[self.indices@[h] as int].hash == h by {
                    if h != header.hash {
                        assert(start.indices@.contains_key(h));
                    }
                }
            }
            lemma_indices_distinct(b, self.indices@);
            lemma_frame_views(a, b);
            lemma_terminals_extended(a, b, start.terminal_hashes@, self.terminal_hashes@);
            lemma_limits_extended(conf, a, b);
            assert(tree_shape(self.trees.weight_tree, parents_of(b), n as nat)) by {
                reveal(trees_ok);
                assert(parents_of(a).take(n) =~= parents_of(b).take(n)) by {
                    assert forall|i: int| 0 <= i < n implies parents_of(a)[i]
                        == parents_of(b)[i] by {
                        assert(same_origin(a[i], b[i]));
                    }
                }
            }
        }
        self.collect_blockset_in_own_view_of_epoch(index);
        let ghost c = self.nodes();
        proof {
            assert(same_links(b, c));
            lemma_same_links(b, c);
            assert forall|i: int| 0 <= i < n implies #[trigger] c[i] == (ConsensusGraphNode {
                children: c[i].children,
                referrers: c[i].referrers,
                data: ConsensusGraphNodeData {
                    min_epoch_in_other_views: c[i].data.min_epoch_in_other_views,
                    max_epoch_in_other_views: c[i].data.max_epoch_in_other_views,
                    ..a[i].data
                },
                ..a[i]
            }) by {
                assert(b[i] == (ConsensusGraphNode {
                    children: b[i].children,
                    referrers: b[i].referrers,
                    ..a[i]
                }));
            }
            assert(lists_grown(a, c)) by {
                assert forall|i: int| 0 <= i <= n implies c[i].children == (
                #[trigger] b[i]).children && c[i].referrers == b[i].referrers && c[i].parent
                    == b[i].parent && c[i].referees == b[i].referees by {}
            }
            assert(grown(a, c));
            assert(same_origins(a, c, a.len()));
            assert(same_recorded(a, c, a.len()));
            assert(same_weights(a, c, (n - 1) as nat));
            lemma_frame_past(conf, a, c, a.len());
            lemma_limits_extended(conf, a, c);
            assert(parents_of(c) == parents_of(b));
            lemma_node(c, index as int);
            lemma_node(c, parent as int);
            lemma_recorded_bounds(conf, c, index as nat, parent as int);
        }
        let era_genesis: usize = self.get_era_block_with_parent(parent, 0);
        proof {
            assert forall|y: usize| #[trigger] c[index as int].data
                .blockset_in_own_view_of_epoch@.contains(y) implies y
                < self.trees.weight_tree.len() by {
                reveal(views_ok);
                lemma_reaches_earlier(dag_of(c), index as int, y as int);
            }
        }
        let own = &self.arena.get(index).data.blockset_in_own_view_of_epoch;
        let weight_in_my_epoch: i128 = self.total_weight_in_own_epoch(own, false, None);
        let weight_era_in_my_epoch: i128 = self.total_weight_in_own_epoch(
            own,
            false,
            Some(era_genesis),
        );
        proof {
            self.lemma_own_sum(index, None, weight_in_my_epoch as int);
            self.lemma_own_sum(index, Some(era_genesis), weight_era_in_my_epoch as int);
            lemma_past_step(conf, c, index as int);
            lemma_era_past_step(conf, c, index as int);
            lemma_weight_bounds(conf, c, parent as int);
        }
        let parent_weight: i128 = self.block_weight(parent, false);
        let past_weight: i128 = self.arena.get(parent).past_weight + parent_weight
            + weight_in_my_epoch;
        let past_era_weight: i128 = if parent != era_genesis {
            self.arena.get(parent).past_era_weight + parent_weight + weight_era_in_my_epoch
        } else {
            parent_weight + weight_era_in_my_epoch
        };
        let node = self.arena.get_mut(index);
        node.past_weight = past_weight;
        node.past_era_weight = past_era_weight;
        proof {
            let d = self.nodes();
            assert(same_links(c, d));
            lemma_same_links(c, d);
            lemma_indices_same(c, d, self.indices@);
            lemma_views_same(c, d, c.len());
            lemma_limits_extended(conf, a, d);
            lemma_terminals_same(b, d, self.terminal_hashes@);
            assert(past_weights_ok(conf, d, d.len())) by {
                lemma_past_recorded(conf, c, d, index as int);
            }
            lemma_inserted(start, *self);
        }
        (index, self.arena.len())
    }

    /// The total weight of the own epoch as a sum over smaller indices.
    proof fn lemma_own_sum(&self, index: usize, genesis_opt: Option<usize>, total: int)
        requires
            links_ok(self.nodes()),
            views_ok(self.nodes(), self.size()),
            index == self.size() - 1,
            total == sum_to(
                masked(
                    |y: int|
                        self.nodes()[index as int].data.blockset_in_own_view_of_epoch@.contains(
                            y as usize,
                        ) && (genesis_opt matches Some(gen) ==> ancestor(
                            self.parents(),
                            gen as int,
                            y,
                        )),
                    |y: int| weight_of(self.inner_conf, self.nodes()[y]),
                ),
                self.size(),
            ),
        ensures
            genesis_opt is None ==> total == sum_to(
                masked(
                    |y: int| in_own_epoch(self.dag(), index as int, y),
                    weights(self.inner_conf, self.nodes()),
                ),
                index as nat,
            ),
            genesis_opt matches Some(e) ==> total == sum_to(
                masked(
                    |y: int|
                        in_own_epoch(self.dag(), index as int, y) && ancestor(
                            self.dag().parent,
                            e as int,
                            y,
                        ),
                    weights(self.inner_conf, self.nodes()),
                ),
                index as nat,
            ),
    {
        let nodes = self.nodes();
        let g = self.dag();
        let own = nodes[index as int].data.blockset_in_own_view_of_epoch@;
        lemma_node(nodes, index as int);
        assert forall|y: int| 0 <= y <= index implies own.contains(y as usize) == in_own_epoch(
            g,
            index as int,
            y,
        ) by {
            reveal(views_ok);
            assert(nodes[index as int].data.blockset_in_own_view_of_epoch@.contains(y as usize)
                <==> in_own_epoch(g, index as int, y as usize as int));
        }
        let f = masked(
            |y: int|
                own.contains(y as usize) && (genesis_opt matches Some(gen) ==> ancestor(
                    self.parents(),
                    gen as int,
                    y,
                )),
            |y: int| weight_of(self.inner_conf, nodes[y]),
        );
        assert(!own.contains(index)) by {
            assert(own.contains((index as int) as usize) == in_own_epoch(
                g,
                index as int,
                index as int,
            ));
        }
        assert(f(index as int) == 0);
        assert(total == sum_to(f, index as nat));
        match genesis_opt {
            None => {
                let h = masked(
                    |y: int| in_own_epoch(g, index as int, y),
                    weights(self.inner_conf, nodes),
                );
                lemma_sum_congruent(f, h, index as nat);
            },
            Some(e) => {
                let h = masked(
                    |y: int| in_own_epoch(g, index as int, y) && ancestor(g.parent, e as int, y),
                    weights(self.inner_conf, nodes),
                );
                lemma_sum_congruent(f, h, index as nat);
            },
        }
    }
}

/// Hashes stay findable.
pub proof fn lemma_indices_same(
    a: Seq<ConsensusGraphNode>,
    b: Seq<ConsensusGraphNode>,
    indices: Map<H256, usize>,
)
    requires
        indices_ok(a, indices),
        same_links(a, b),
    ensures
        indices_ok(b, indices),
{
    assert forall|i: int| 0 <= i < b.len() implies indices.contains_key((#[trigger] b[i]).hash)
        && indices[b[i].hash] == i by {
        assert(a[i].hash == b[i].hash);
    }
    assert forall|h: H256| #[trigger] indices.contains_key(h) implies indices[h] < b.len()
        && b[indices[h] as int].hash == h by {
        assert(a[indices[h] as int].hash == h);
    }
}

/// Views stay right when nothing that they speak of changes.
pub proof fn lemma_views_same(a: Seq<ConsensusGraphNode>, b: Seq<ConsensusGraphNode>, k: nat)
    requires
        views_ok(a, k),
        k <= a.len(),
        same_links(a, b),
        forall|i: int|
            #![trigger b[i]]
            0 <= i < k ==> {
                &&& a[i].data.blockset_in_own_view_of_epoch
                    == b[i].data.blockset_in_own_view_of_epoch
                &&& a[i].data.ordered_epoch_blocks == b[i].data.ordered_epoch_blocks
                &&& a[i].data.min_epoch_in_other_views == b[i].data.min_epoch_in_other_views
                &&& a[i].data.max_epoch_in_other_views == b[i].data.max_epoch_in_other_views
            },
    ensures
        views_ok(b, k),
{
    reveal(views_ok);
    let g = dag_of(a);
    lemma_same_links(a, b);
    assert forall|x: int, y: usize| 0 <= x < k implies (
    #[trigger] b[x].data.blockset_in_own_view_of_epoch@.contains(y) <==> in_own_epoch(
        g,
        x,
        y as int,
    )) by {
        assert(a[x].data.blockset_in_own_view_of_epoch@.contains(y) <==> in_own_epoch(
            g,
            x,
            y as int,
        ));
    }
    assert forall|x: int| 0 <= x < k implies epoch_list_ok(
        g,
        x,
        (#[trigger] b[x]).data.ordered_epoch_blocks@,
    ) by {
        assert(epoch_list_ok(g, x, a[x].data.ordered_epoch_blocks@));
    }
    assert forall|x: int| 0 <= x < k implies #[trigger] ordered_by_hash(b, x) by {
        assert(ordered_by_hash(a, x));
        let set = a[x].data.blockset_in_own_view_of_epoch@;
        let list = a[x].data.ordered_epoch_blocks@.drop_last();
        assert(b[x].data.blockset_in_own_view_of_epoch@ == set);
        assert forall|y: usize| #[trigger] set.contains(y) implies y < a.len() by {
            lemma_reaches_earlier(g, x, y as int);
        }
        lemma_order_carried(a, b, set, list, a.len());
    }
    assert forall|x: int, y: int|
        0 <= x < k && 0 <= y < k && #[trigger] sees_as_own(g, x, y) implies
        b[y].data.min_epoch_in_other_views <= b[x].height <= b[y].data.max_epoch_in_other_views by {
        assert(a[y].data.min_epoch_in_other_views <= a[x].height
            <= a[y].data.max_epoch_in_other_views);
        assert(a[x].height == b[x].height);
        assert(b[y].data.min_epoch_in_other_views == a[y].data.min_epoch_in_other_views);
    }
    assert forall|y: int| 0 <= y < k implies #[trigger] min_epoch_attained(b, k, y) by {
        assert(min_epoch_attained(a, k, y));
        let x = choose|x: int|
            0 <= x < k && #[trigger] sees_as_own(g, x, y) && a[y].data.min_epoch_in_other_views
                == a[x].height;
        assert(sees_as_own(g, x, y) && b[x].height == a[x].height);
        assert(b[y].data.min_epoch_in_other_views == a[y].data.min_epoch_in_other_views);
    }
    assert forall|y: int| 0 <= y < k implies #[trigger] max_epoch_attained(b, k, y) by {
        assert(max_epoch_attained(a, k, y));
        let x = choose|x: int|
            0 <= x < k && #[trigger] sees_as_own(g, x, y) && a[y].data.max_epoch_in_other_views
                == a[x].height;
        assert(sees_as_own(g, x, y) && b[x].height == a[x].height);
        assert(b[y].data.max_epoch_in_other_views == a[y].data.max_epoch_in_other_views);
    }
}

/// Tips stay tips.
pub proof fn lemma_terminals_same(
    a: Seq<ConsensusGraphNode>,
    b: Seq<ConsensusGraphNode>,
    t: Set<H256>,
)
    requires
        terminals_ok(a, t),
        same_links(a, b),
    ensures
        terminals_ok(b, t),
{
    reveal(terminals_ok);
    lemma_same_links(a, b);
    assert forall|i: int| 0 <= i < b.len() implies (t.contains((#[trigger] b[i]).hash)
        <==> is_terminal(dag_of(b), i)) by {
        assert(t.contains(a[i].hash) <==> is_terminal(dag_of(a), i));
    }
    assert forall|h: H256| #[trigger] t.contains(h) implies exists|i: int|
        0 <= i < b.len() && (#[trigger] b[i]).hash == h by {
        let i = choose|i: int| 0 <= i < a.len() && (#[trigger] a[i]).hash == h;
        assert(b[i].hash == h);
    }
}

/// The past weight of the newest block has been recorded.
proof fn lemma_past_recorded(
    conf: ConsensusInnerConfig,
    c: Seq<ConsensusGraphNode>,
    d: Seq<ConsensusGraphNode>,
    me: int,
)
    requires
        links_ok(c),
        links_ok(d),
        past_weights_ok(conf, c, me as nat),
        0 < me == c.len() - 1,
        d == c.update(me, d[me]),
        d[me] == (ConsensusGraphNode {
            past_weight: d[me].past_weight,
            past_era_weight: d[me].past_era_weight,
            ..c[me]
        }),
        d[me].past_weight == sum_to(
            masked(in_past(dag_of(c), me), weights(conf, c)),
            me as nat,
        ),
        d[me].past_era_weight == sum_to(
            masked(in_era_past(dag_of(c), me), weights(conf, c)),
            me as nat,
        ),
    ensures
        past_weights_ok(conf, d, d.len()),
{
    assert(same_links(c, d));
    lemma_same_links(c, d);
    assert(same_origins(c, d, me as nat));
    lemma_frame_past(conf, c, d, me as nat);
    reveal(past_weights_ok);
    let g = dag_of(c);
    let f = masked(in_past(g, me), weights(conf, c));
    let f2 = masked(in_past(g, me), weights(conf, d));
    assert forall|i: int| 0 <= i < me implies #[trigger] f(i) == f2(i) by {
        assert(c[i] == d[i]);
    }
    lemma_sum_congruent(f, f2, me as nat);
    let e = masked(in_era_past(g, me), weights(conf, c));
    let e2 = masked(in_era_past(g, me), weights(conf, d));
    assert forall|i: int| 0 <= i < me implies #[trigger] e(i) == e2(i) by {
        assert(c[i] == d[i]);
    }
    lemma_sum_congruent(e, e2, me as nat);
}

} // verus!
