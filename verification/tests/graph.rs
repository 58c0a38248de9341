use treegraph_consensus::config::{
    ConsensusConfig, ConsensusInnerConfig, ProofOfWorkConfig, ANTICONE_BARRIER_CAP,
};
use treegraph_consensus::confirmation::{RISK_HIGH, RISK_LOW};
use treegraph_consensus::consensus::{ConsensusGraph, PendingBlock, Validity};
use treegraph_consensus::finish::PivotUpdate;
use treegraph_consensus::genesis::empty_receipts_root;
use treegraph_consensus::plans::StartIndexSearch;
use treegraph_consensus::queries::Difficulty;
use treegraph_consensus::state::ConsensusGraphInner;
use treegraph_consensus::types::{BlockHeader, EpochNumber, H256, U256};

const STATE_ROOT: u128 = 7_000;

fn h(n: u128) -> H256 {
    H256 { hi: 0, lo: n }
}

fn d(n: u64) -> U256 {
    U256::from_u64(n)
}

fn config(beta: u64, period: u64) -> (ConsensusConfig, ProofOfWorkConfig) {
    (
        ConsensusConfig {
            debug_dump_dir_invalid_state_root: String::new(),
            bench_mode: false,
            inner_conf: ConsensusInnerConfig {
                adaptive_weight_alpha_num: 2,
                adaptive_weight_alpha_den: 3,
                adaptive_weight_beta: beta,
                heavy_block_difficulty_ratio: 240,
                enable_optimistic_execution: true,
            },
        },
        ProofOfWorkConfig { initial_difficulty: 10, difficulty_adjustment_epoch_period: period },
    )
}

fn header(hash: u128, parent: u128, height: u64, referees: &[u128]) -> BlockHeader {
    BlockHeader {
        hash: h(hash),
        parent_hash: h(parent),
        height,
        difficulty: d(10),
        pow_quality: d(10),
        adaptive: false,
        referee_hashes: referees.iter().map(|r| h(*r)).collect(),
        deferred_state_root: h(STATE_ROOT),
        deferred_receipts_root: empty_receipts_root(),
    }
}

fn new_graph(beta: u64, period: u64) -> ConsensusGraph {
    let (conf, pow) = config(beta, period);
    ConsensusGraph::with_genesis_block(conf, pow, &header(1, 0, 0, &[]))
}

/// Answers every question with what makes the block valid.
fn decide(graph: &ConsensusGraph, p: &PendingBlock) -> bool {
    let mut target = None;
    let mut roots = None;
    loop {
        match graph.check_block_full_validity(p, target, roots) {
            Validity::Settled(valid) => return valid,
            Validity::NeedsTargetDifficulty(_) => {
                target = Some(graph.inner.arena.get(p.me).difficulty);
            }
            Validity::NeedsRoots(_) => {
                roots = Some((p.deferred_state_root, p.deferred_receipts_root));
            }
        }
    }
}

fn add_header(graph: &mut ConsensusGraph, block: &BlockHeader) -> (bool, PivotUpdate) {
    let p = graph.on_new_block(block);
    let valid = decide(graph, &p);
    let update = graph.settle_block(&p, valid);
    (valid, update)
}

fn add(
    graph: &mut ConsensusGraph,
    hash: u128,
    parent: u128,
    height: u64,
    referees: &[u128],
) -> (bool, PivotUpdate) {
    add_header(graph, &header(hash, parent, height, referees))
}

fn pivot(graph: &ConsensusGraph) -> Vec<u128> {
    graph
        .inner
        .pivot_chain
        .iter()
        .map(|i| graph.inner.arena.get(*i).hash.lo)
        .collect()
}

fn line(graph: &mut ConsensusGraph, first: u128, parent: u128, height: u64, count: u64) {
    let mut above = parent;
    for i in 0..count {
        let hash = first + i as u128;
        let (valid, _) = add(graph, hash, above, height + i, &[]);
        assert!(valid);
        above = hash;
    }
}

fn hashes(list: &[u128]) -> Vec<H256> {
    list.iter().map(|n| h(*n)).collect()
}

#[test]
fn genesis_stands_alone() {
    let graph = new_graph(1000, 1000);
    assert_eq!(pivot(&graph), vec![1]);
    assert_eq!(graph.block_count(), 1);
    assert_eq!(graph.best_block_hash(), h(1));
    assert_eq!(graph.best_epoch_number(), 0);
    assert_eq!(graph.best_state_epoch_number(), 0);
    assert_eq!(graph.get_block_total_weight(&h(1)), Some(10));
    assert_eq!(graph.get_block_total_weight(&h(2)), None);
    assert_eq!(graph.confirmation_risk_by_hash(h(1)), Some(0));
    assert_eq!(graph.inner.terminal_hashes(), hashes(&[1]));
    assert_eq!(graph.statistics.inserted_block_count, 0);
    assert_eq!(graph.inner.current_difficulty, d(10));
}

#[test]
fn a_line_of_blocks_extends_the_chain() {
    let mut graph = new_graph(1000, 1000);
    for i in 0..7u64 {
        let (valid, update) = add(&mut graph, 2 + i as u128, 1 + i as u128, 1 + i, &[]);
        assert!(valid);
        assert!(update.extended);
        assert_eq!(update.fork_at, 1 + i as usize);
        assert_eq!(update.old_len, 1 + i as usize);
        assert_eq!(update.weight, 10);
    }
    assert_eq!(pivot(&graph), vec![1, 2, 3, 4, 5, 6, 7, 8]);
    assert_eq!(graph.statistics.inserted_block_count, 8);
    assert_eq!(graph.get_block_total_weight(&h(1)), Some(80));
    assert_eq!(graph.get_block_total_weight(&h(5)), Some(40));
    assert_eq!(graph.total_weight_in_past_2d.cur, d(70));
    assert_eq!(graph.get_ancestor(&h(8), 3), h(4));
    assert_eq!(graph.inner.terminal_hashes(), hashes(&[8]));
    assert_eq!(graph.get_block_epoch_number(&h(6)), Some(5));
    assert_eq!(graph.inner.get_epoch_hash_for_block(&h(6)), Some(h(6)));
    assert_eq!(graph.inner.arena.get(5).past_weight, 50);
}

#[test]
fn the_chain_follows_the_heavier_branch() {
    let mut graph = new_graph(1000, 1000);
    add(&mut graph, 10, 1, 1, &[]);
    assert_eq!(pivot(&graph), vec![1, 10]);
    // The larger hash wins between equal weights.
    let (_, update) = add(&mut graph, 20, 1, 1, &[]);
    assert_eq!(update.fork_at, 1);
    assert!(!update.extended);
    assert_eq!(pivot(&graph), vec![1, 20]);
    // The smaller hash does not.
    let (_, update) = add(&mut graph, 15, 1, 1, &[]);
    assert_eq!(update.fork_at, 2);
    assert_eq!(pivot(&graph), vec![1, 20]);
    // More weight does.
    let (_, update) = add(&mut graph, 11, 10, 2, &[]);
    assert_eq!(update.fork_at, 1);
    assert_eq!(pivot(&graph), vec![1, 10, 11]);
    assert_eq!(graph.get_block_epoch_number(&h(20)), Some(usize::MAX));
    assert_eq!(graph.inner.get_epoch_hash_for_block(&h(20)), None);
    add(&mut graph, 21, 20, 2, &[]);
    assert_eq!(pivot(&graph), vec![1, 20, 21]);
    assert_eq!(graph.get_block_epoch_number(&h(10)), Some(usize::MAX));
    assert_eq!(graph.get_block_epoch_number(&h(21)), Some(2));
    assert_eq!(graph.get_block_total_weight(&h(1)), Some(60));
}

#[test]
fn side_blocks_come_into_the_epoch_that_sees_them() {
    let mut graph = new_graph(1000, 1000);
    add(&mut graph, 40, 1, 1, &[]);
    add(&mut graph, 41, 40, 2, &[]);
    add(&mut graph, 30, 1, 1, &[]);
    add(&mut graph, 20, 1, 1, &[]);
    add(&mut graph, 42, 41, 3, &[20, 30]);
    assert_eq!(pivot(&graph), vec![1, 40, 41, 42]);
    assert_eq!(
        graph.get_block_hashes_by_epoch(EpochNumber::Number(3)),
        Ok(hashes(&[20, 30, 42]))
    );
    assert_eq!(graph.inner.get_epoch_hash_for_block(&h(20)), Some(h(42)));
    assert_eq!(
        graph.inner.all_blocks_with_topo_order(),
        hashes(&[1, 40, 41, 20, 30, 42])
    );
    assert_eq!(graph.inner.blocks_in_own_view_of_epoch(&h(42)), Some(2));
    assert_eq!(graph.inner.blocks_in_own_view_of_epoch(&h(99)), None);
    // The past of the last block is everything else.
    assert_eq!(graph.inner.arena.get(5).past_weight, 50);
    assert_eq!(graph.inner.terminal_hashes(), hashes(&[42]));
    assert_eq!(graph.get_block_epoch_number(&h(30)), Some(3));
}

#[test]
fn a_referred_block_stands_before_what_refers_to_it() {
    let mut graph = new_graph(1000, 1000);
    add(&mut graph, 40, 1, 1, &[]);
    add(&mut graph, 41, 40, 2, &[]);
    add(&mut graph, 30, 1, 1, &[]);
    add(&mut graph, 20, 30, 2, &[]);
    add(&mut graph, 42, 41, 3, &[20]);
    // By hash alone 20 would stand first.
    assert_eq!(
        graph.get_block_hashes_by_epoch(EpochNumber::LatestMined),
        Ok(hashes(&[30, 20, 42]))
    );
}

#[test]
fn a_block_in_the_lighter_branch_of_its_view_is_partially_invalid() {
    let mut graph = new_graph(1000, 1000);
    add(&mut graph, 10, 1, 1, &[]);
    add(&mut graph, 20, 1, 1, &[]);
    add(&mut graph, 21, 20, 2, &[]);
    let before = pivot(&graph);
    let total = graph.total_weight_in_past_2d.cur;
    let block = header(11, 10, 2, &[21]);
    let p = graph.on_new_block(&block);
    assert!(!p.parent_accepted);
    assert!(matches!(
        graph.check_block_full_validity(&p, None, None),
        Validity::Settled(false)
    ));
    let update = graph.settle_block(&p, false);
    assert_eq!(update.weight, 0);
    assert_eq!(update.fork_at, before.len() + 1);
    assert_eq!(pivot(&graph), before);
    assert_eq!(graph.total_weight_in_past_2d.cur, total);
    assert_eq!(graph.inner.is_partial_invalid(&h(11)), Some(true));
    assert_eq!(graph.inner.is_partial_invalid(&h(21)), Some(false));
    assert_eq!(graph.inner.is_partial_invalid(&h(99)), None);
    // So is whatever hangs under it.
    let (valid, _) = add(&mut graph, 12, 11, 3, &[]);
    assert!(!valid);
    assert_eq!(pivot(&graph), before);
    // Without a view of the other branch the same parent is right.
    let (valid, _) = add(&mut graph, 13, 10, 2, &[]);
    assert!(valid);
}

#[test]
fn a_block_beside_a_child_of_its_parent_is_partially_invalid() {
    let mut graph = new_graph(1000, 1000);
    add(&mut graph, 10, 1, 1, &[]);
    add(&mut graph, 11, 10, 2, &[]);
    let (valid, _) = add(&mut graph, 12, 10, 2, &[11]);
    assert!(!valid);
}

#[test]
fn validity_asks_and_decides() {
    let mut graph = new_graph(1000, 4);
    line(&mut graph, 2, 1, 1, 3);
    // The wrong difficulty.
    let mut block = header(50, 4, 4, &[]);
    block.difficulty = d(11);
    let p = graph.on_new_block(&block);
    assert!(matches!(
        graph.check_block_full_validity(&p, None, None),
        Validity::Settled(false)
    ));
    graph.settle_block(&p, false);
    // The wrong adaptive field.
    let mut block = header(51, 4, 4, &[]);
    block.adaptive = true;
    let p = graph.on_new_block(&block);
    assert!(!p.adaptive);
    assert!(matches!(
        graph.check_block_full_validity(&p, None, None),
        Validity::Settled(false)
    ));
    graph.conf.bench_mode = true;
    assert!(matches!(
        graph.check_block_full_validity(&p, None, None),
        Validity::Settled(true)
    ));
    graph.conf.bench_mode = false;
    graph.settle_block(&p, false);
    // The wrong state root, and the wrong receipts root.
    let mut block = header(52, 4, 4, &[]);
    block.deferred_state_root = h(8);
    let p = graph.on_new_block(&block);
    assert!(matches!(
        graph.check_block_full_validity(&p, None, None),
        Validity::Settled(false)
    ));
    graph.settle_block(&p, false);
    let mut block = header(53, 4, 4, &[]);
    block.deferred_receipts_root = h(8);
    let p = graph.on_new_block(&block);
    assert!(matches!(
        graph.check_block_full_validity(&p, None, None),
        Validity::Settled(false)
    ));
    graph.settle_block(&p, false);
    // All right.
    let (valid, _) = add(&mut graph, 5, 4, 4, &[]);
    assert!(valid);
    // After a period the difficulty has to be worked out, and after five epochs
    // the roots have to be looked up.
    let p = graph.on_new_block(&header(6, 5, 5, &[]));
    let q = graph.check_block_full_validity(&p, None, None);
    assert!(matches!(q, Validity::NeedsTargetDifficulty(hash) if hash == h(5)));
    assert!(matches!(
        graph.check_block_full_validity(&p, Some(d(9)), None),
        Validity::Settled(false)
    ));
    let q = graph.check_block_full_validity(&p, Some(d(10)), None);
    assert!(matches!(q, Validity::NeedsRoots(hash) if hash == h(1)));
    let right = (h(STATE_ROOT), empty_receipts_root());
    assert!(matches!(
        graph.check_block_full_validity(&p, Some(d(10)), Some((h(3), right.1))),
        Validity::Settled(false)
    ));
    assert!(matches!(
        graph.check_block_full_validity(&p, Some(d(10)), Some((right.0, h(3)))),
        Validity::Settled(false)
    ));
    assert!(matches!(
        graph.check_block_full_validity(&p, Some(d(10)), Some(right)),
        Validity::Settled(true)
    ));
    graph.settle_block(&p, true);
    assert_eq!(pivot(&graph), vec![1, 2, 3, 4, 5, 6]);
}

#[test]
fn the_expected_difficulty_changes_with_the_period() {
    let mut graph = new_graph(1000, 4);
    line(&mut graph, 2, 1, 1, 5);
    let known = |x: Difficulty| match x {
        Difficulty::Known(v) => Some(v),
        Difficulty::PeriodEndingAt(_) => None,
    };
    assert_eq!(known(graph.expected_difficulty(&h(4))), Some(d(10)));
    assert!(matches!(
        graph.expected_difficulty(&h(5)),
        Difficulty::PeriodEndingAt(hash) if hash == h(5)
    ));
    let mut odd = header(7, 6, 6, &[]);
    odd.difficulty = d(10);
    assert_eq!(known(graph.expected_difficulty(&h(6))), Some(d(10)));
    // Height five is no end of a period: the difficulty of the tip is kept.
    graph.inner.current_difficulty = d(99);
    assert_eq!(graph.adjust_difficulty(), None);
    assert_eq!(graph.inner.current_difficulty, d(10));
    add(&mut graph, 7, 6, 6, &[]);
    add(&mut graph, 8, 7, 7, &[]);
    add(&mut graph, 9, 8, 8, &[]);
    graph.inner.current_difficulty = d(99);
    assert_eq!(graph.adjust_difficulty(), Some(h(9)));
    assert_eq!(graph.inner.current_difficulty, d(99));
}

#[test]
fn the_difficulty_of_genesis_is_the_initial_one() {
    let mut graph = new_graph(1000, 4);
    graph.inner.current_difficulty = d(99);
    assert_eq!(graph.adjust_difficulty(), None);
    assert_eq!(graph.inner.current_difficulty, d(10));
}

#[test]
fn a_block_that_came_late_to_a_crowded_graph_is_adaptive() {
    let mut graph = new_graph(1, 1000);
    for hash in 11..16 {
        add(&mut graph, hash, 1, 1, &[]);
    }
    add(&mut graph, 20, 1, 1, &[]);
    assert!(graph.check_mining_adaptive_block(&h(20), &d(10)));
    // All blocks together weigh 70.
    assert!(graph.check_mining_adaptive_block(&h(20), &d(69)));
    assert!(!graph.check_mining_adaptive_block(&h(20), &d(70)));
    // Of a weight of 60 that came since, 10 are in the subtree of the parent,
    // less than two thirds.
    let mut block = header(30, 20, 2, &[11, 12, 13, 14, 15]);
    let p = graph.on_new_block(&block);
    assert!(p.parent_accepted);
    assert!(!p.stable);
    assert!(p.adaptive);
    assert!(!decide(&graph, &p));
    graph.settle_block(&p, false);
    block.hash = h(31);
    block.adaptive = true;
    let (valid, update) = add_header(&mut graph, &block);
    assert!(valid);
    assert_eq!(update.weight, 0);
    assert_eq!(graph.inner.is_adaptive(&h(31)), Some(true));
    assert_eq!(graph.inner.is_stable(&h(31)), Some(false));
    assert_eq!(graph.inner.is_adaptive(&h(99)), None);
    assert_eq!(graph.inner.is_stable(&h(99)), None);
    // An adaptive block whose proof of work is worth two hundred and forty times
    // its difficulty weighs two hundred and forty.
    block.hash = h(32);
    block.pow_quality = d(2400);
    let (valid, update) = add_header(&mut graph, &block);
    assert!(valid);
    assert_eq!(update.weight, 240);
    block.hash = h(33);
    block.pow_quality = d(2399);
    let (valid, update) = add_header(&mut graph, &block);
    assert!(valid);
    assert_eq!(update.weight, 0);
}

#[test]
fn a_block_with_little_beside_it_is_stable() {
    for (difficulty, stable, adaptive) in
        [(5u64, false, true), (9, false, true), (10, true, true), (24, true, true), (25, true, false)]
    {
        let mut graph = new_graph(2, 1000);
        for (hash, parent, height) in [(11u128, 1u128, 1u64), (20, 1, 1), (21, 20, 2), (22, 21, 3)] {
            assert!(add(&mut graph, hash, parent, height, &[]).0);
        }
        // Up the path, of a weight of 20, 30 and 40 that came since, 10, 20 and 30
        // are in the subtree: only the first is less than two thirds, and it
        // counts if it is over the threshold. Of the 20, 30 and 50 that the
        // subtrees of the parents weigh, 10, 20 and 30 are in the subtree: the
        // first and the last are less than two thirds.
        let mut block = header(23, 22, 4, &[11]);
        block.difficulty = d(difficulty);
        block.adaptive = adaptive;
        let p = graph.on_new_block(&block);
        assert_eq!(p.stable, stable);
        assert_eq!(p.adaptive, adaptive);
        let valid = decide(&graph, &p);
        assert_eq!(valid, difficulty == 10);
        graph.settle_block(&p, valid);
    }
}

#[test]
fn a_partially_invalid_block_weighs_nothing() {
    let mut graph = new_graph(1000, 1000);
    let mut block = header(2, 1, 1, &[]);
    block.adaptive = true;
    block.pow_quality = d(2400);
    let (valid, update) = add_header(&mut graph, &block);
    assert!(!valid);
    assert_eq!(update.weight, 0);
    assert_eq!(graph.get_block_total_weight(&h(1)), Some(10));
    block.hash = h(3);
    block.adaptive = false;
    block.difficulty = d(20);
    let (valid, update) = add_header(&mut graph, &block);
    assert!(!valid);
    assert_eq!(update.weight, 0);
    assert_eq!(graph.get_block_total_weight(&h(1)), Some(10));
    assert_eq!(graph.get_block_total_weight(&h(3)), Some(0));
}

#[test]
fn what_a_miner_is_told_is_what_the_block_gets() {
    for difficulty in [1u64, 5, 10, 24, 25, 60] {
        let mut graph = new_graph(2, 1000);
        for (hash, parent, height) in [(11u128, 1u128, 1u64), (20, 1, 1), (21, 20, 2), (22, 21, 3)] {
            assert!(add(&mut graph, hash, parent, height, &[]).0);
        }
        let told = graph.check_mining_adaptive_block(&h(22), &d(difficulty));
        let mut block = header(23, 22, 4, &[11]);
        block.difficulty = d(difficulty);
        let p = graph.on_new_block(&block);
        assert_eq!(p.adaptive, told);
        graph.settle_block(&p, false);
    }
}

#[test]
fn the_trees_are_as_before_after_a_question() {
    let mut graph = new_graph(1, 1000);
    for hash in 11..20 {
        add(&mut graph, hash, 1, 1, &[]);
    }
    let all: Vec<u128> = vec![1, 11, 12, 13, 14, 15, 16, 17, 18, 19];
    let before: Vec<Option<i128>> = all.iter().map(|x| graph.get_block_total_weight(&h(*x))).collect();
    graph.check_mining_adaptive_block(&h(19), &d(10));
    graph.check_mining_adaptive_block(&h(11), &d(10));
    let after: Vec<Option<i128>> = all.iter().map(|x| graph.get_block_total_weight(&h(*x))).collect();
    assert_eq!(before, after);
    assert_eq!(before[0], Some(100));
}

#[test]
fn a_wide_anticone_is_summed_up_block_by_block() {
    let (conf, pow) = config(1, 1000);
    let mut inner = ConsensusGraphInner::with_genesis_block(pow, &header(1, 0, 0, &[]), conf.inner_conf);
    let first: u128 = 100;
    for i in 0..=ANTICONE_BARRIER_CAP as u128 {
        let (me, count) = inner.insert(&header(first + i, 1, 1, &[]));
        assert_eq!(count, me + 1);
        let w = inner.weigh_block(me);
        // The blocks before this one are its anticone.
        assert_eq!(w.anticone_barrier.len(), i as usize);
        assert!(w.weight_tuple.is_none());
        inner.finish_construction(me, w.stable, w.adaptive, true);
    }
    let (me, _) = inner.insert(&header(5000, 1, 1, &[]));
    let w = inner.weigh_block(me);
    assert_eq!(w.anticone_barrier.len(), ANTICONE_BARRIER_CAP + 1);
    assert!(w.weight_tuple.is_some());
    if let Some((weight, inclusive, stable)) = &w.weight_tuple {
        assert_eq!(weight[0], 10);
        assert_eq!(inclusive[0], 10);
        assert_eq!(stable[0], 10);
        assert_eq!(weight[1], 0);
    }
    assert!(w.stable);
    assert!(!w.adaptive);
    assert!(inner.accept_parent(&w));
    inner.finish_construction(me, w.stable, w.adaptive, true);
    // A block that sees a few of them decides as it would by the trees.
    let (me, _) = inner.insert(&header(6000, 5000, 2, &[100, 101, 102, 103, 104]));
    let w = inner.weigh_block(me);
    assert_eq!(w.anticone_barrier.len(), ANTICONE_BARRIER_CAP - 4);
    assert!(!w.stable);
    assert!(w.adaptive);
    assert!(inner.accept_parent(&w));
    inner.finish_construction(me, w.stable, w.adaptive, true);
    let (me, _) = inner.insert(&header(4000, 1, 1, &[]));
    let w = inner.weigh_block(me);
    assert!(w.weight_tuple.is_some());
    inner.finish_construction(me, w.stable, w.adaptive, true);
    let (me, _) = inner.insert(&header(4001, 4000, 2, &[100, 101, 102, 103, 104]));
    let w = inner.weigh_block(me);
    // Blocks 5000 and those not referred to.
    assert_eq!(w.anticone_barrier.len(), ANTICONE_BARRIER_CAP - 3);
    inner.finish_construction(me, w.stable, w.adaptive, true);
    let (me, _) = inner.insert(&header(4100, 1, 1, &[]));
    let w = inner.weigh_block(me);
    inner.finish_construction(me, w.stable, w.adaptive, true);
    for extra in 0..6u128 {
        let (me, _) = inner.insert(&header(4200 + extra, 1, 1, &[]));
        let w = inner.weigh_block(me);
        inner.finish_construction(me, w.stable, w.adaptive, true);
    }
    let (me, _) = inner.insert(&header(6001, 5000, 2, &[100, 101, 102, 103, 104]));
    let w = inner.weigh_block(me);
    assert!(w.weight_tuple.is_some());
    assert!(!w.stable);
    assert!(w.adaptive);
    assert!(inner.accept_parent(&w));
    inner.finish_construction(me, w.stable, w.adaptive, true);
}

#[test]
fn epochs_are_executed_five_behind_the_tip() {
    let mut graph = new_graph(1000, 1000);
    let mut executed: Vec<H256> = Vec::new();
    for i in 0..9u64 {
        let (valid, update) = add(&mut graph, 2 + i as u128, 1 + i as u128, 1 + i, &[]);
        assert!(valid);
        for task in graph.execution_tasks(&update) {
            assert!(task.on_local_pivot);
            assert!(!task.debug_record);
            assert!(task.reward_info.is_none());
            assert_eq!(task.epoch_block_hashes, vec![task.epoch_hash]);
            executed.push(task.epoch_hash);
        }
    }
    // The chain has ten blocks: those at heights one to five.
    assert_eq!(executed, hashes(&[2, 3, 4, 5, 6]));
    assert_eq!(graph.best_state_epoch_number(), 5);
    assert_eq!(graph.inner.best_state_block_hash(), h(6));
}

#[test]
fn a_change_of_branch_is_executed_from_where_it_starts() {
    let mut graph = new_graph(1000, 1000);
    line(&mut graph, 2, 1, 1, 9);
    // A branch from height two that grows heavier.
    line(&mut graph, 100, 3, 3, 7);
    assert_eq!(pivot(&graph).len(), 10);
    let (valid, update) = add(&mut graph, 107, 106, 10, &[]);
    assert!(valid);
    let moved = pivot(&graph);
    assert_eq!(moved, vec![1, 2, 3, 100, 101, 102, 103, 104, 105, 106, 107]);
    let tasks: Vec<H256> = graph.execution_tasks(&update).iter().map(|t| t.epoch_hash).collect();
    if update.fork_at == 3 {
        assert_eq!(tasks, hashes(&[100, 101, 102, 103]));
    } else {
        assert_eq!(update.fork_at, 10);
        assert_eq!(tasks, hashes(&[103]));
    }
}

#[test]
fn execution_may_run_ahead() {
    let mut graph = new_graph(1000, 1000);
    assert!(graph.inner.get_optimistic_execution_task().is_none());
    line(&mut graph, 2, 1, 1, 5);
    assert_eq!(graph.inner.optimistic_executed_height, Some(2));
    let task = graph.inner.get_optimistic_execution_task().unwrap();
    assert_eq!(task.epoch_hash, h(3));
    assert!(task.on_local_pivot);
    assert_eq!(graph.inner.get_optimistic_execution_task().unwrap().epoch_hash, h(4));
    assert_eq!(graph.inner.get_optimistic_execution_task().unwrap().epoch_hash, h(5));
    assert_eq!(graph.inner.get_optimistic_execution_task().unwrap().epoch_hash, h(6));
    assert!(graph.inner.get_optimistic_execution_task().is_none());
    assert!(graph.inner.get_optimistic_execution_task().is_none());
    assert_eq!(pivot(&graph), vec![1, 2, 3, 4, 5, 6]);
    graph.inner.optimistic_executed_height = Some(2);
    graph.inner.inner_conf.enable_optimistic_execution = false;
    assert!(graph.inner.get_optimistic_execution_task().is_none());
}

#[test]
fn rewards_count_the_anticone() {
    let mut graph = new_graph(1000, 1000);
    add(&mut graph, 1000, 1, 1, &[]);
    add(&mut graph, 1001, 1000, 2, &[]);
    // A hundred blocks that neither see nor are seen by the first.
    let side: Vec<u128> = (100..200).collect();
    for hash in side.iter() {
        add(&mut graph, *hash, 1, 1, &[]);
    }
    let (valid, _) = add(&mut graph, 1002, 1001, 3, &side);
    assert!(valid);
    line(&mut graph, 1003, 1002, 4, 11);
    assert_eq!(graph.best_epoch_number(), 14);
    let info = graph
        .inner
        .get_reward_execution_info(13, &graph.inner.pivot_chain)
        .unwrap();
    assert_eq!(info.epoch_blocks, hashes(&[1000]));
    assert_eq!(info.epoch_block_anticone_overlimited, vec![true]);
    assert_eq!(info.epoch_block_anticone_difficulties[0].limbs[0], 1000);
    assert!(graph.inner.get_reward_execution_info(12, &graph.inner.pivot_chain).is_none());
    // The hundred blocks are in the anticone of the first two blocks, and each is
    // in the anticone of the others.
    let info = graph
        .inner
        .get_reward_execution_info_from_index(Some((
            graph.inner.pivot_chain[3],
            graph.inner.pivot_chain[13],
        )))
        .unwrap();
    assert_eq!(info.epoch_blocks.len(), 101);
    assert_eq!(info.epoch_block_anticone_difficulties[0].limbs[0], 1010);
    assert!(info.epoch_block_anticone_overlimited[0]);
    assert_eq!(info.epoch_block_anticone_difficulties[100].limbs[0], 0);
    assert!(!info.epoch_block_anticone_overlimited[100]);
    assert_eq!(
        graph.inner.recompute_anticone_weight(graph.inner.pivot_chain[1], graph.inner.pivot_chain[11]),
        1000
    );
}

#[test]
fn ninety_nine_blocks_are_within_the_limit() {
    let mut graph = new_graph(1000, 1000);
    add(&mut graph, 1000, 1, 1, &[]);
    add(&mut graph, 1001, 1000, 2, &[]);
    let side: Vec<u128> = (100..199).collect();
    for hash in side.iter() {
        add(&mut graph, *hash, 1, 1, &[]);
    }
    add(&mut graph, 1002, 1001, 3, &side);
    line(&mut graph, 1003, 1002, 4, 11);
    let info = graph
        .inner
        .get_reward_execution_info(13, &graph.inner.pivot_chain)
        .unwrap();
    assert_eq!(info.epoch_block_anticone_overlimited, vec![false]);
    assert_eq!(info.epoch_block_anticone_difficulties[0].limbs[0], 990);
}

#[test]
fn a_partially_invalid_block_earns_nothing() {
    let mut graph = new_graph(1000, 1000);
    add(&mut graph, 10, 1, 1, &[]);
    add(&mut graph, 20, 1, 1, &[]);
    let (valid, _) = add(&mut graph, 11, 10, 2, &[20]);
    assert!(!valid);
    add(&mut graph, 21, 20, 2, &[11]);
    line(&mut graph, 22, 21, 3, 12);
    let info = graph
        .inner
        .get_reward_execution_info(14, &graph.inner.pivot_chain)
        .unwrap();
    assert_eq!(info.epoch_blocks, hashes(&[10, 11, 21]));
    assert_eq!(info.epoch_block_anticone_overlimited, vec![false, true, false]);
    assert_eq!(info.epoch_block_anticone_difficulties[1].limbs[0], 0);
    // Block 20 is in the anticone of block 10.
    assert_eq!(info.epoch_block_anticone_difficulties[0].limbs[0], 10);
}

#[test]
fn risks_of_a_young_chain_are_high() {
    let mut graph = new_graph(1000, 1000);
    line(&mut graph, 2, 1, 1, 4);
    let terminals = graph.conclude_block(None);
    assert_eq!(terminals.len(), 34);
    assert_eq!(graph.finality_manager.risks_less_than.len(), 0);
    assert_eq!(graph.confirmation_risk_by_hash(h(2)), None);
    line(&mut graph, 6, 5, 5, 3);
    graph.conclude_block(None);
    assert_eq!(graph.finality_manager.lowest_epoch_num, 1);
    assert_eq!(graph.finality_manager.risks_less_than, vec![RISK_HIGH, RISK_HIGH, RISK_HIGH]);
    assert_eq!(graph.confirmation_risk_by_hash(h(1)), Some(0));
    assert_eq!(graph.confirmation_risk_by_hash(h(2)), Some(900_000));
    assert_eq!(graph.confirmation_risk_by_hash(h(4)), Some(900_000));
    assert_eq!(graph.confirmation_risk_by_hash(h(5)), None);
    assert_eq!(graph.confirmation_risk_by_hash(h(77)), None);
    graph.conclude_block(Some(d(1)));
    assert_eq!(graph.inner.current_difficulty, d(1));
}

#[test]
fn a_risk_falls_with_the_advantage() {
    let mut graph = new_graph(1000, 1000);
    line(&mut graph, 2, 1, 1, 6);
    let past = graph.inner.arena.get(graph.inner.pivot_chain[1]).past_weight;
    let risk = |g: &mut ConsensusGraph, difficulty: u64, w_0: i128, w_4: i128| {
        g.inner.current_difficulty = d(difficulty);
        g.inner.confirmation_risk(w_0, w_4, 1)
    };
    // An advantage of 10 + 1 blocks after none.
    assert_eq!(risk(&mut graph, 1, past, 0), RISK_HIGH);
    assert_eq!(RISK_HIGH, 900_000);
    assert_eq!(RISK_LOW, 100);
    let (conf, _) = config(1000, 1000);
    let pow = ProofOfWorkConfig { initial_difficulty: 20, difficulty_adjustment_epoch_period: 1000 };
    let mut heavy = ConsensusGraph::with_genesis_block(conf, pow, &header(1, 0, 0, &[]));
    for i in 0..6u64 {
        let mut block = header(2 + i as u128, 1 + i as u128, 1 + i, &[]);
        block.difficulty = d(20);
        let (valid, _) = add_header(&mut heavy, &block);
        assert!(valid);
    }
    let past = heavy.inner.arena.get(heavy.inner.pivot_chain[1]).past_weight;
    assert_eq!(past, 10);
    // 21 blocks: over both limits.
    assert_eq!(risk(&mut heavy, 1, past, 0), 1);
    // 20 - 2 + 1 = 19 blocks: over the first limit of 13 alone.
    assert_eq!(risk(&mut heavy, 1, past, 2), RISK_LOW);
    // 20 - 7 + 1 = 14.
    assert_eq!(risk(&mut heavy, 1, past, 7), RISK_LOW);
    // 20 - 8 + 1 = 13.
    assert_eq!(risk(&mut heavy, 1, past, 8), RISK_HIGH);
    // After 20 blocks the first limit is 13 + 8 = 21 and the second 19 + 8 = 27.
    assert_eq!(risk(&mut heavy, 1, past + 20, 0), RISK_HIGH);
    // After 17 blocks they are 13 + 6 = 19 and 19 + 6 = 25.
    assert_eq!(risk(&mut heavy, 1, past + 17, 0), RISK_LOW);
    // More weight in the tree or withheld never lowers a risk.
    for w_0 in 0..40i128 {
        for w_4 in 0..25i128 {
            let at = risk(&mut heavy, 1, w_0, w_4);
            assert!(at == RISK_HIGH || at == RISK_LOW || at == 1);
            assert!(at <= risk(&mut heavy, 1, w_0 + 1, w_4));
            assert!(at <= risk(&mut heavy, 1, w_0, w_4 + 1));
        }
    }
}

#[test]
fn a_later_epoch_is_never_safer() {
    let mut graph = new_graph(1000, 1000);
    line(&mut graph, 2, 1, 1, 10);
    graph.finality_manager.lowest_epoch_num = 2;
    graph.finality_manager.risks_less_than = vec![RISK_LOW, RISK_HIGH, RISK_LOW];
    let risks: Vec<Option<u32>> = (1..8u128).map(|n| graph.confirmation_risk_by_hash(h(n))).collect();
    assert_eq!(
        risks,
        vec![Some(0), Some(1), Some(100), Some(900_000), Some(900_000), None, None]
    );
}

#[test]
fn the_weight_that_came_in_is_measured_between_looks() {
    let mut graph = new_graph(1000, 1000);
    line(&mut graph, 2, 1, 1, 3);
    graph.update_total_weight_in_past();
    assert_eq!(graph.get_total_weight_in_past(), 30);
    line(&mut graph, 5, 4, 4, 2);
    assert_eq!(graph.get_total_weight_in_past(), 30);
    graph.update_total_weight_in_past();
    assert_eq!(graph.get_total_weight_in_past(), 20);
    graph.aggregate_total_weight_in_past(7);
    graph.update_total_weight_in_past();
    assert_eq!(graph.get_total_weight_in_past(), 7);
}

#[test]
fn epoch_numbers_are_resolved() {
    let mut graph = new_graph(1000, 1000);
    line(&mut graph, 2, 1, 1, 7);
    assert_eq!(graph.get_height_from_epoch_number(EpochNumber::Earliest), Ok(0));
    assert_eq!(graph.get_height_from_epoch_number(EpochNumber::LatestMined), Ok(7));
    assert_eq!(graph.get_height_from_epoch_number(EpochNumber::LatestState), Ok(3));
    assert_eq!(graph.get_height_from_epoch_number(EpochNumber::Number(7)), Ok(7));
    let refused = "Invalid params: expected a numbers with less than largest epoch number.";
    assert_eq!(
        graph.get_height_from_epoch_number(EpochNumber::Number(8)),
        Err(refused.to_string())
    );
    assert_eq!(graph.get_hash_from_epoch_number(EpochNumber::LatestState), Ok(h(4)));
    assert_eq!(graph.get_hash_from_epoch_number(EpochNumber::Number(9)), Err(refused.to_string()));
    assert_eq!(graph.inner.get_index_from_epoch_number(EpochNumber::Number(2)), Ok(2));
    assert_eq!(graph.inner.epoch_hash(7), Some(h(8)));
    assert_eq!(graph.inner.epoch_hash(8), None);
    assert_eq!(graph.inner.validate_stated_epoch(&EpochNumber::Earliest), Ok(()));
    assert_eq!(graph.inner.validate_stated_epoch(&EpochNumber::Number(3)), Ok(()));
    assert_eq!(
        graph.inner.validate_stated_epoch(&EpochNumber::LatestMined),
        Err("Latest mined epoch is not executed".to_string())
    );
    assert_eq!(
        graph.inner.validate_stated_epoch(&EpochNumber::Number(120)),
        Err("Specified epoch 120 is not executed, the latest state epoch is 3".to_string())
    );
    assert_eq!(graph.inner.stated_epoch_hash(EpochNumber::Number(3)), Ok(h(4)));
    assert_eq!(
        graph.inner.stated_epoch_hash(EpochNumber::Number(4)),
        Err("Specified epoch 4 is not executed, the latest state epoch is 3".to_string())
    );
    assert_eq!(graph.inner.check_block_pivot_assumption(&h(3), 2), Ok(()));
    assert_eq!(
        graph.inner.check_block_pivot_assumption(&h(4), 2),
        Err("Error: pivot chain assumption failed".to_string())
    );
    assert_eq!(
        graph.inner.check_block_pivot_assumption(&h(4), 8),
        Err(refused.to_string())
    );
}

#[test]
fn a_rebuilt_graph_has_the_same_chain() {
    let blocks = vec![
        header(10, 1, 1, &[]),
        header(20, 1, 1, &[]),
        header(11, 10, 2, &[]),
        header(12, 11, 3, &[20]),
        header(21, 20, 2, &[]),
        header(13, 12, 4, &[21]),
        header(14, 13, 5, &[]),
        header(15, 14, 6, &[]),
        header(16, 15, 7, &[]),
    ];
    let mut online = new_graph(1000, 1000);
    for block in blocks.iter() {
        let (valid, _) = add_header(&mut online, block);
        assert!(valid);
    }
    let mut rebuilt = new_graph(1000, 1000);
    for block in blocks.iter() {
        rebuilt.on_new_block_construction_only(block, None);
    }
    assert_eq!(pivot(&rebuilt), vec![1]);
    assert!(rebuilt.can_construct_pivot());
    let left = rebuilt.construct_pivot();
    assert_eq!(pivot(&rebuilt), pivot(&online));
    assert_eq!(pivot(&rebuilt), vec![1, 10, 11, 12, 13, 14, 15, 16]);
    assert_eq!(left.period_end, None);
    assert_eq!(rebuilt.inner.current_difficulty, d(10));
    let recorded: Vec<(H256, H256)> =
        left.receipts.iter().map(|r| (r.epoch_hash, r.recorded_in)).collect();
    assert_eq!(recorded, vec![(h(10), h(15)), (h(11), h(16))]);
    for block in blocks.iter() {
        assert_eq!(
            rebuilt.get_block_epoch_number(&block.hash),
            online.get_block_epoch_number(&block.hash)
        );
        assert_eq!(
            rebuilt.get_block_total_weight(&block.hash),
            online.get_block_total_weight(&block.hash)
        );
        assert_eq!(rebuilt.inner.is_stable(&block.hash), online.inner.is_stable(&block.hash));
        assert_eq!(rebuilt.inner.is_adaptive(&block.hash), online.inner.is_adaptive(&block.hash));
    }
    online.adjust_difficulty();
    assert_eq!(rebuilt.inner.current_difficulty, online.inner.current_difficulty);
    assert_eq!(rebuilt.block_count(), online.block_count());
    assert_eq!(rebuilt.block_count(), blocks.len() + 1);
    assert_eq!(rebuilt.inner.all_blocks_with_topo_order(), online.inner.all_blocks_with_topo_order());
    let task = rebuilt.inner.deferred_epoch_task().unwrap();
    assert_eq!(task.epoch_hash, h(12));
    assert_eq!(task.epoch_block_hashes, hashes(&[20, 12]));
    // And it goes on like the other.
    let (valid, update) = add(&mut rebuilt, 17, 16, 8, &[]);
    assert!(valid);
    assert!(update.extended);
}

#[test]
fn a_stored_status_is_believed() {
    let mut graph = new_graph(1000, 1000);
    graph.on_new_block_construction_only(&header(10, 1, 1, &[]), Some(false));
    graph.on_new_block_construction_only(&header(20, 1, 1, &[]), Some(true));
    graph.on_new_block_construction_only(&header(11, 10, 2, &[20]), None);
    assert_eq!(graph.get_block_total_weight(&h(1)), Some(30));
    graph.construct_pivot();
    assert_eq!(pivot(&graph), vec![1, 10, 11]);
    assert_eq!(graph.inner.is_partial_invalid(&h(20)), Some(true));
    assert_eq!(graph.get_block_epoch_number(&h(20)), Some(2));
    assert!(graph.inner.deferred_epoch_task().is_none());
}

#[test]
fn a_first_block_of_another_difficulty_stops_the_rebuilding() {
    let mut graph = new_graph(1000, 1000);
    let mut block = header(10, 1, 1, &[]);
    block.difficulty = d(12);
    graph.on_new_block_construction_only(&block, None);
    assert!(!graph.can_construct_pivot());
    graph.on_new_block_construction_only(&header(11, 10, 2, &[]), None);
    assert!(graph.can_construct_pivot());
}

#[test]
fn the_state_of_a_fork_is_computed_from_the_fork() {
    let mut graph = new_graph(1000, 1000);
    line(&mut graph, 2, 1, 1, 9);
    line(&mut graph, 100, 3, 3, 4);
    let (epochs, fork_height) = graph.epochs_to_compute(&h(103));
    assert_eq!(fork_height, 2);
    assert_eq!(epochs, hashes(&[3, 100, 101, 102, 103]));
    let run = |start: usize| -> Vec<H256> {
        graph.compute_state_for_block(&h(103), start).iter().map(|t| t.epoch_hash).collect()
    };
    assert_eq!(run(0), hashes(&[3, 100, 101, 102, 103]));
    assert_eq!(run(2), hashes(&[101, 102, 103]));
    assert_eq!(run(5), hashes(&[]));
    // On the chain itself the fork is the block; epochs put off come first.
    let (epochs, fork_height) = graph.epochs_to_compute(&h(9));
    assert_eq!(fork_height, 8);
    assert_eq!(epochs, hashes(&[9]));
    let put_off: Vec<H256> = graph
        .compute_state_for_block(&h(9), 1)
        .iter()
        .map(|t| t.epoch_hash)
        .collect();
    assert_eq!(put_off, hashes(&[7, 8, 9]));
    assert_eq!(graph.compute_deferred_state_for_block(&h(103), 5), h(2));
    assert_eq!(graph.compute_deferred_state_for_block(&h(103), 99), h(1));
}

#[test]
fn the_first_epoch_that_is_not_executed_is_found() {
    for executed in 0..10usize {
        let flags: Vec<bool> = (0..9).map(|i| i < executed).collect();
        assert_eq!(ConsensusGraphInner::find_start_index(&flags), executed.min(9));
        let mut search = StartIndexSearch::new(flags.len());
        let found = loop {
            let place = search.probe();
            if let Some(found) = search.answer(flags[place]) {
                break found;
            }
        };
        assert_eq!(found, executed.min(9));
    }
}

#[test]
fn the_trace_of_an_epoch_names_its_reward_epoch() {
    let mut graph = new_graph(1000, 1000);
    line(&mut graph, 2, 1, 1, 14);
    let plan = graph.inner.log_debug_epoch_computation(graph.inner.pivot_chain[13]);
    assert_eq!(plan.parent_block_hash, h(13));
    assert_eq!(plan.reward_epoch_hash, Some(h(2)));
    assert_eq!(plan.anticone_penalty_cutoff_epoch_hash, Some(h(12)));
    assert_eq!(plan.task.epoch_hash, h(14));
    assert!(plan.task.debug_record);
    assert!(!plan.task.on_local_pivot);
    assert!(plan.task.reward_info.is_some());
    let plan = graph.inner.log_debug_epoch_computation(graph.inner.pivot_chain[1]);
    assert_eq!(plan.parent_block_hash, h(1));
    assert_eq!(plan.reward_epoch_hash, None);
    assert_eq!(plan.anticone_penalty_cutoff_epoch_hash, None);
    let plan = graph.inner.log_debug_epoch_computation(graph.inner.pivot_chain[2]);
    assert_eq!(plan.reward_epoch_hash, None);
    assert_eq!(plan.anticone_penalty_cutoff_epoch_hash, Some(h(1)));
}

#[test]
fn blocks_can_be_marked_invalid() {
    let mut graph = new_graph(1000, 1000);
    assert!(!graph.verified_invalid(&h(5)));
    graph.invalidate_block(&h(5));
    graph.invalidate_block(&h(5));
    assert!(graph.verified_invalid(&h(5)));
    assert!(!graph.verified_invalid(&h(6)));
}

#[test]
fn heavier_is_more_weight_or_a_larger_hash() {
    let a = H256 { hi: 1, lo: 0 };
    let b = H256 { hi: 0, lo: 9 };
    assert!(ConsensusGraphInner::is_heavier((2, &b), (1, &a)));
    assert!(ConsensusGraphInner::is_heavier((1, &a), (1, &b)));
    assert!(!ConsensusGraphInner::is_heavier((1, &b), (1, &a)));
    assert!(!ConsensusGraphInner::is_heavier((1, &a), (1, &a)));
}

#[test]
fn a_block_that_joins_two_branches_shares_their_anticones() {
    let mut graph = new_graph(1000, 1000);
    add(&mut graph, 10, 1, 1, &[]);
    add(&mut graph, 20, 1, 1, &[]);
    add(&mut graph, 30, 1, 1, &[]);
    let (valid, _) = add(&mut graph, 31, 30, 2, &[10]);
    assert!(valid);
    // Block 20 alone is unrelated to block 31.
    assert_eq!(graph.inner.arena.get(4).past_weight, 30);
    let (valid, _) = add(&mut graph, 32, 31, 3, &[20]);
    assert!(valid);
    assert_eq!(graph.inner.arena.get(5).past_weight, 50);
    assert_eq!(
        graph.inner.recompute_anticone_weight(4, 5),
        10
    );
    assert_eq!(graph.get_block_hashes_by_epoch(EpochNumber::Number(2)), Ok(hashes(&[10, 31])));
    assert_eq!(graph.get_block_hashes_by_epoch(EpochNumber::Number(3)), Ok(hashes(&[20, 32])));
}

fn last_pivot(graph: &ConsensusGraph, hash: u128) -> usize {
    let index = graph.inner.indices.get(&h(hash)).unwrap();
    graph.inner.arena.get(index).last_pivot_in_past
}

#[test]
fn a_block_records_a_pivot_block_of_its_past() {
    let mut graph = new_graph(1000, 100);
    line(&mut graph, 2, 1, 1, 3);
    assert_eq!(last_pivot(&graph, 4), 3);
    // A lighter block beside the chain sees the second block alone. The tip is
    // recomputed with it, from what lies below.
    let (valid, update) = add(&mut graph, 10, 2, 2, &[]);
    assert!(!valid || !update.extended);
    assert_eq!(last_pivot(&graph, 10), 1);
    assert_eq!(last_pivot(&graph, 2), 1);
    assert_eq!(last_pivot(&graph, 3), 2);
    let tip = last_pivot(&graph, 4);
    assert_eq!(tip, if valid { 2 } else { 3 });
    // A block that extends the chain records itself.
    let (_, update) = add(&mut graph, 11, 4, 4, &[]);
    assert!(update.extended);
    assert_eq!(last_pivot(&graph, 11), 4);
    let list = &graph.inner.pivot_chain_metadata[4].last_pivot_in_past_blocks;
    assert_eq!(list.len(), 1);
    assert_eq!(graph.inner.arena.get(1).data.sequence_number, 1);
}

fn assert_lists_are_exact(graph: &ConsensusGraph) {
    assert_eq!(graph.inner.pivot_chain_metadata.len(), graph.inner.pivot_chain.len());
    for (i, data) in graph.inner.pivot_chain_metadata.iter().enumerate() {
        for x in 0..graph.block_count() {
            assert_eq!(
                data.last_pivot_in_past_blocks.contains(&x),
                graph.inner.arena.get(x).last_pivot_in_past == i
            );
        }
    }
}

#[test]
fn a_pivot_block_lists_those_that_record_it_and_no_others() {
    let mut graph = new_graph(1000, 100);
    line(&mut graph, 2, 1, 1, 2);
    line(&mut graph, 20, 1, 1, 2);
    assert_lists_are_exact(&graph);
    assert_eq!(pivot(&graph), vec![1, 20, 21]);
    // The chain goes back to the first branch. Blocks two and three had recorded
    // the first block and now record themselves.
    line(&mut graph, 4, 3, 3, 1);
    assert_eq!(pivot(&graph), vec![1, 2, 3, 4]);
    assert_lists_are_exact(&graph);
    // A side block that refers to the other branch.
    add(&mut graph, 30, 2, 2, &[21]);
    assert_lists_are_exact(&graph);
    line(&mut graph, 5, 4, 4, 1);
    let mut odd = header(40, 5, 5, &[30]);
    odd.difficulty = d(11);
    let (valid, _) = add_header(&mut graph, &odd);
    assert!(!valid);
    assert_lists_are_exact(&graph);
}

#[test]
fn a_rebuilt_graph_records_the_last_pivot_blocks() {
    let mut graph = new_graph(1000, 100);
    for (hash, parent, height) in [(2u128, 1u128, 1u64), (3, 2, 2), (4, 3, 3), (10, 2, 2)] {
        graph.on_new_block_construction_only(&header(hash, parent, height, &[]), None);
    }
    graph.construct_pivot();
    assert_eq!(pivot(&graph), vec![1, 2, 3, 4]);
    let records: Vec<usize> =
        [1, 2, 3, 4, 10].iter().map(|x| last_pivot(&graph, *x)).collect();
    assert_eq!(records, vec![0, 1, 2, 3, 1]);
}

#[test]
fn what_cannot_be_inserted_is_told() {
    let mut graph = new_graph(1000, 100);
    let can = |graph: &ConsensusGraph, block: &BlockHeader| graph.inner.can_insert(block);
    assert!(can(&graph, &header(2, 1, 1, &[])));
    assert!(!can(&graph, &header(2, 0, 1, &[])));
    assert!(!can(&graph, &header(1, 1, 1, &[])));
    assert!(!can(&graph, &header(2, 9, 1, &[])));
    assert!(!can(&graph, &header(2, 1, 2, &[])));
    assert!(!can(&graph, &header(2, 1, 1, &[9])));
    let mut block = header(2, 1, 1, &[]);
    block.difficulty = U256 { hi: 1, lo: 0 };
    assert!(!can(&graph, &block));
    // With the heavy ratio of 240 and the scale of 1006, 1006 times the ratio and
    // the difficulty of all blocks must not exceed two to the power of 120.
    let most: u128 = (1u128 << 120) / 1006 - 250 - 240;
    block.difficulty = U256 { hi: 0, lo: most };
    assert!(can(&graph, &block));
    block.difficulty = U256 { hi: 0, lo: most + 1 };
    assert!(!can(&graph, &block));
    add(&mut graph, 2, 1, 1, &[]);
    assert!(!can(&graph, &header(2, 1, 1, &[])));
    assert!(can(&graph, &header(3, 2, 2, &[1])));
}

#[test]
fn what_cannot_begin_a_graph_is_told() {
    let (conf, _) = config(1000, 100);
    assert!(ConsensusGraph::can_begin(&conf.inner_conf, &header(1, 0, 0, &[])));
    assert!(!ConsensusGraph::can_begin(&conf.inner_conf, &header(1, 2, 0, &[])));
    assert!(!ConsensusGraph::can_begin(&conf.inner_conf, &header(1, 0, 1, &[])));
    assert!(!ConsensusGraph::can_begin(&conf.inner_conf, &header(1, 0, 0, &[1])));
    let mut block = header(1, 0, 0, &[]);
    block.deferred_receipts_root = h(0);
    assert!(!ConsensusGraph::can_begin(&conf.inner_conf, &block));
}

#[test]
fn rewards_need_a_difficulty() {
    let mut graph = new_graph(1000, 100);
    // A stored block of no difficulty comes to lie on the chain.
    let mut block = header(2, 1, 1, &[]);
    block.difficulty = d(0);
    graph.on_new_block_construction_only(&block, None);
    for i in 0..16u64 {
        let hash = 3 + i as u128;
        graph.on_new_block_construction_only(&header(hash, hash - 1, 2 + i, &[]), None);
    }
    assert!(graph.can_construct_pivot());
    graph.construct_pivot();
    assert_eq!(graph.inner.pivot_chain.len(), 18);
    assert!(!graph.inner.is_payable(1));
    assert!(graph.inner.is_payable(2));
    // The reward of the first epoch falls due twelve epochs later.
    assert!(graph.inner.can_run(&graph.inner.pivot_chain, 1, 13));
    assert!(!graph.inner.can_run(&graph.inner.pivot_chain, 13, 14));
    assert!(graph.inner.can_run(&graph.inner.pivot_chain, 14, 18));
    let at = |height: u128| h(1 + height);
    assert!(graph.can_compute_state(&at(12), 0));
    assert!(!graph.can_compute_state(&at(13), 0));
    assert!(graph.can_compute_state(&at(14), 0));
    assert!(!graph.can_compute_state(&at(14), 3));
    assert!(!graph.can_compute_state(&h(999), 0));
    assert!(graph.inner.can_trace(14));
    assert!(!graph.inner.can_trace(13));
    assert!(!graph.inner.can_trace(0));
    let whole = PivotUpdate { old_len: 18, fork_at: 1, extended: false, weight: 0 };
    assert!(!graph.can_execute(&whole));
    let late = PivotUpdate { old_len: 18, fork_at: 18, extended: false, weight: 0 };
    assert!(graph.can_execute(&late));
    assert_eq!(graph.state_range(&whole), (1, 14));
}

#[test]
fn blocks_in_another_order_give_the_same_order() {
    // Two branches from genesis, and a block that sees both.
    let left = [(2u128, 1u128, 1u64), (4, 2, 2), (6, 4, 3)];
    let right = [(3u128, 1u128, 1u64), (5, 3, 2)];
    let mut first = new_graph(1000, 100);
    for (hash, parent, height) in left.iter().chain(right.iter()) {
        add(&mut first, *hash, *parent, *height, &[]);
    }
    let mut second = new_graph(1000, 100);
    for (hash, parent, height) in right.iter().chain(left.iter()) {
        add(&mut second, *hash, *parent, *height, &[]);
    }
    for graph in [&mut first, &mut second] {
        let (valid, _) = add(graph, 7, 6, 4, &[5]);
        assert!(valid);
    }
    assert_eq!(pivot(&first), vec![1, 2, 4, 6, 7]);
    assert_eq!(pivot(&second), pivot(&first));
    let order = first.inner.all_blocks_with_topo_order();
    assert_eq!(order, hashes(&[1, 2, 4, 6, 3, 5, 7]));
    assert_eq!(second.inner.all_blocks_with_topo_order(), order);
    // Unrelated blocks of one epoch stand in the order of their hashes.
    let mut third = new_graph(1000, 100);
    let mut fourth = new_graph(1000, 100);
    for hash in [30u128, 10, 20] {
        add(&mut third, hash, 1, 1, &[]);
    }
    for hash in [20u128, 30, 10] {
        add(&mut fourth, hash, 1, 1, &[]);
    }
    for graph in [&mut third, &mut fourth] {
        add(graph, 40, 30, 2, &[10, 20]);
    }
    assert_eq!(third.inner.all_blocks_with_topo_order(), hashes(&[1, 30, 10, 20, 40]));
    assert_eq!(
        fourth.inner.all_blocks_with_topo_order(),
        third.inner.all_blocks_with_topo_order()
    );
}
