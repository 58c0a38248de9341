use treegraph_consensus::config::{ConsensusConfig, ConsensusInnerConfig, ProofOfWorkConfig};
use treegraph_consensus::consensus::{ConsensusGraph, Validity};
use treegraph_consensus::gas_price::{GasPriceSampler, PricedTransaction};
use treegraph_consensus::genesis::empty_receipts_root;
use treegraph_consensus::logs::{
    logs_from_blocks, select_blocks, BlockLogs, Bloom, FilterError, LogCandidate, LogQuery,
    LogSearch,
};
use treegraph_consensus::types::{BlockHeader, H256, U256};

fn h(n: u128) -> H256 {
    H256 { hi: 0, lo: n }
}

fn header(hash: u128, parent: u128, height: u64, referees: &[u128]) -> BlockHeader {
    BlockHeader {
        hash: h(hash),
        parent_hash: h(parent),
        height,
        difficulty: U256::from_u64(10),
        pow_quality: U256::from_u64(10),
        adaptive: false,
        referee_hashes: referees.iter().map(|r| h(*r)).collect(),
        deferred_state_root: h(0),
        deferred_receipts_root: empty_receipts_root(),
    }
}

/// Genesis 1, then 10, 11 and 12 with the side blocks 5 and 6 in the last epoch.
fn graph() -> ConsensusGraph {
    let conf = ConsensusConfig {
        debug_dump_dir_invalid_state_root: String::new(),
        bench_mode: false,
        inner_conf: ConsensusInnerConfig {
            adaptive_weight_alpha_num: 2,
            adaptive_weight_alpha_den: 3,
            adaptive_weight_beta: 1000,
            heavy_block_difficulty_ratio: 240,
            enable_optimistic_execution: false,
        },
    };
    let pow = ProofOfWorkConfig { initial_difficulty: 10, difficulty_adjustment_epoch_period: 100 };
    let mut graph = ConsensusGraph::with_genesis_block(conf, pow, &header(1, 0, 0, &[]));
    let blocks = vec![
        header(10, 1, 1, &[]),
        header(5, 1, 1, &[]),
        header(6, 1, 1, &[]),
        header(11, 10, 2, &[]),
        header(12, 11, 3, &[5, 6]),
    ];
    for block in blocks.iter() {
        let p = graph.on_new_block(block);
        let valid = matches!(
            graph.check_block_full_validity(&p, None, None),
            Validity::Settled(true)
        );
        assert!(valid);
        graph.settle_block(&p, valid);
    }
    graph
}

fn query(from_epoch: usize, to_epoch: usize) -> LogQuery {
    LogQuery { from_epoch, to_epoch, block_hashes: None, limit: None }
}

#[test]
fn a_query_for_no_epoch_is_refused() {
    let graph = graph();
    for (from_epoch, to_epoch) in [(2usize, 2usize), (3, 1)] {
        match graph.inner.logs(&query(from_epoch, to_epoch)) {
            Ok(_) => panic!("the query was accepted"),
            Err(e) => {
                assert_eq!(e, FilterError::InvalidEpochNumber { from_epoch, to_epoch });
            }
        }
    }
}

#[test]
fn candidates_are_the_blocks_of_the_epochs() {
    let graph = graph();
    let find = |from: usize, to: usize| -> Vec<LogCandidate> {
        match graph.inner.logs(&query(from, to)) {
            Ok(LogSearch::Candidates(list)) => list,
            _ => panic!("no candidates"),
        }
    };
    let list = find(2, 9);
    let blocks: Vec<H256> = list.iter().map(|c| c.block_hash).collect();
    assert_eq!(blocks, vec![h(11), h(5), h(6), h(12)]);
    // The summaries are looked up under the blocks that came in second and third
    // after genesis.
    let epochs: Vec<H256> = list.iter().map(|c| c.epoch_hash).collect();
    assert_eq!(epochs, vec![h(5), h(6), h(6), h(6)]);
    assert_eq!(find(4, 9), vec![]);
    assert_eq!(find(0, 1).len(), 1);
}

#[test]
fn named_blocks_are_taken_as_they_are() {
    let graph = graph();
    let mut q = query(5, 1);
    q.block_hashes = Some(vec![h(77), h(3)]);
    match graph.inner.logs(&q) {
        Ok(LogSearch::Blocks(list)) => assert_eq!(list, vec![h(77), h(3)]),
        _ => panic!("no blocks"),
    }
}

fn bloom(bytes: &[u8]) -> Bloom {
    Bloom { bytes: bytes.to_vec() }
}

#[test]
fn a_summary_covers_its_bits() {
    assert!(bloom(&[0b1110, 1]).contains_bloom(&bloom(&[0b0110, 1])));
    assert!(!bloom(&[0b1110, 1]).contains_bloom(&bloom(&[0b0001, 1])));
    assert!(!bloom(&[0b1110, 0]).contains_bloom(&bloom(&[0b1110, 1])));
    assert!(bloom(&[0, 0]).contains_bloom(&bloom(&[0, 0])));
}

#[test]
fn summaries_rule_blocks_out() {
    let list: Vec<LogCandidate> =
        (0..4).map(|n| LogCandidate { block_hash: h(n), epoch_hash: h(9) }).collect();
    let summaries = vec![Some(bloom(&[1])), None, Some(bloom(&[2])), Some(bloom(&[4]))];
    assert_eq!(select_blocks(&list, &summaries, &vec![bloom(&[1]), bloom(&[4])]), vec![h(0), h(1), h(3)]);
    assert_eq!(select_blocks(&list, &summaries, &vec![]), vec![h(1)]);
    assert_eq!(select_blocks(&list, &summaries, &vec![bloom(&[0])]), vec![h(0), h(1), h(2), h(3)]);
}

fn block_logs(n: u128, matches: &[&[bool]]) -> Option<BlockLogs> {
    Some(BlockLogs {
        block_hash: h(n),
        transaction_hashes: (0..matches.len()).map(|t| h(n * 100 + t as u128)).collect(),
        matches: matches.iter().map(|m| m.to_vec()).collect(),
    })
}

#[test]
fn logs_stand_in_the_order_of_their_blocks() {
    let blocks = vec![
        block_logs(1, &[&[true, false], &[], &[true]]),
        None,
        block_logs(2, &[&[false], &[false, true, true]]),
    ];
    let logs = logs_from_blocks(&blocks, None);
    let places: Vec<(u128, u128, usize, usize, usize)> = logs
        .iter()
        .map(|l| {
            (
                l.block_hash.lo,
                l.transaction_hash.lo,
                l.transaction_index,
                l.transaction_log_index,
                l.log_index,
            )
        })
        .collect();
    assert_eq!(
        places,
        vec![
            (1, 100, 0, 0, 0),
            (1, 102, 2, 0, 2),
            (2, 201, 1, 1, 2),
            (2, 201, 1, 2, 3),
        ]
    );
    // A limit keeps the last ones.
    assert_eq!(logs_from_blocks(&blocks, Some(3)), logs[1..].to_vec());
    assert_eq!(logs_from_blocks(&blocks, Some(0)), vec![]);
    assert_eq!(logs_from_blocks(&blocks, Some(9)), logs);
}

fn tx(hash: u128, price: u64) -> PricedTransaction {
    PricedTransaction { hash: h(hash), gas_price: U256::from_u64(price) }
}

#[test]
fn the_gas_price_is_the_middle_of_the_sample() {
    let graph = graph();
    let mut sampler = GasPriceSampler::new(&graph.inner);
    assert_eq!(sampler.gas_price(), None);
    assert_eq!(sampler.next_blocks(&graph.inner), Some(vec![h(12), h(6), h(5)]));
    assert_eq!(sampler.blocks_left, 97);
    sampler.sample_block(&vec![tx(1, 50), tx(2, 10)]);
    sampler.sample_block(&vec![tx(2, 99), tx(3, 30)]);
    sampler.sample_block(&vec![]);
    assert_eq!(sampler.prices.len(), 3);
    assert_eq!(sampler.gas_price(), Some(U256::from_u64(30)));
    assert_eq!(sampler.next_blocks(&graph.inner), Some(vec![h(11)]));
    sampler.sample_block(&vec![tx(4, 40)]);
    assert_eq!(sampler.next_blocks(&graph.inner), Some(vec![h(10)]));
    assert_eq!(sampler.next_blocks(&graph.inner), None);
    // Of 10, 30, 40 and 50 it is the third.
    assert_eq!(sampler.gas_price(), Some(U256::from_u64(40)));
    sampler.sample_block(&vec![tx(1, 1), tx(4, 1)]);
    assert_eq!(sampler.prices.len(), 4);
}

#[test]
fn a_sample_ends_with_its_blocks() {
    let graph = graph();
    let mut sampler = GasPriceSampler::new(&graph.inner);
    sampler.blocks_left = 2;
    assert_eq!(sampler.next_blocks(&graph.inner), Some(vec![h(12), h(6)]));
    assert_eq!(sampler.next_blocks(&graph.inner), None);
}

#[test]
fn a_sample_ends_when_it_is_full() {
    let graph = graph();
    let mut sampler = GasPriceSampler::new(&graph.inner);
    let many: Vec<PricedTransaction> = (0..10_005).map(|n| tx(n, n as u64)).collect();
    sampler.sample_block(&many);
    assert_eq!(sampler.prices.len(), 10_000);
    assert_eq!(sampler.next_blocks(&graph.inner), None);
    assert_eq!(sampler.gas_price(), Some(U256::from_u64(5_000)));
    // A full sample takes more from a further block of the same epoch.
    sampler.sample_block(&many);
    assert_eq!(sampler.prices.len(), 10_005);
}
