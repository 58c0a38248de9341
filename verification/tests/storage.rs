use treegraph_consensus::config::{ConsensusInnerConfig, ProofOfWorkConfig};
use treegraph_consensus::genesis::empty_receipts_root;
use treegraph_consensus::state::ConsensusGraphInner;
use treegraph_consensus::terminals::encode_hashes;
use treegraph_consensus::text::write_decimal;
use treegraph_consensus::types::{BlockHeader, H256, U256};
use treegraph_consensus::wide::U512;

#[test]
fn an_empty_list_is_one_byte() {
    assert_eq!(encode_hashes(&vec![]), vec![0xc0]);
}

#[test]
fn one_hash_has_a_short_header() {
    let hash = H256 { hi: 0x0102 << 112, lo: 0xfe };
    let bytes = encode_hashes(&vec![hash]);
    assert_eq!(bytes.len(), 34);
    assert_eq!(bytes[0], 0xe1);
    assert_eq!(bytes[1], 0xa0);
    assert_eq!(bytes[2], 1);
    assert_eq!(bytes[3], 2);
    assert_eq!(bytes[4], 0);
    assert_eq!(bytes[33], 0xfe);
}

#[test]
fn more_hashes_have_a_long_header() {
    let list: Vec<H256> = (0..8).map(|n| H256 { hi: n, lo: 0 }).collect();
    let bytes = encode_hashes(&list);
    // Eight items of 33 bytes are 264 = 0x0108 bytes.
    assert_eq!(&bytes[0..3], &[0xf9, 0x01, 0x08]);
    assert_eq!(bytes.len(), 3 + 264);
    assert_eq!(bytes[3], 0xa0);
    assert_eq!(bytes[3 + 33 * 7], 0xa0);
    assert_eq!(bytes[3 + 33 * 7 + 16], 7);
    let two = encode_hashes(&list[0..2].to_vec());
    assert_eq!(&two[0..2], &[0xf8, 66]);
    assert_ne!(two, encode_hashes(&list[1..3].to_vec()));
}

#[test]
fn the_terminals_of_a_new_graph_are_its_genesis() {
    let hash = H256 { hi: 0, lo: 5 };
    let genesis = BlockHeader {
        hash,
        parent_hash: H256 { hi: 0, lo: 0 },
        height: 0,
        difficulty: U256::from_u64(1),
        pow_quality: U256::from_u64(1),
        adaptive: false,
        referee_hashes: vec![],
        deferred_state_root: H256 { hi: 0, lo: 0 },
        deferred_receipts_root: empty_receipts_root(),
    };
    let inner = ConsensusGraphInner::with_genesis_block(
        ProofOfWorkConfig { initial_difficulty: 1, difficulty_adjustment_epoch_period: 10 },
        &genesis,
        ConsensusInnerConfig {
            adaptive_weight_alpha_num: 2,
            adaptive_weight_alpha_den: 3,
            adaptive_weight_beta: 1000,
            heavy_block_difficulty_ratio: 240,
            enable_optimistic_execution: false,
        },
    );
    assert_eq!(inner.persist_terminals(), encode_hashes(&vec![hash]));
}

#[test]
fn numbers_are_written_in_decimal() {
    for n in [0usize, 9, 10, 99, 100, 4096, 1234567890, usize::MAX] {
        assert_eq!(write_decimal(n), n.to_string());
    }
}

#[test]
fn the_root_of_no_receipts_is_known() {
    let root = empty_receipts_root();
    assert_eq!(root.hi >> 112, 0x1dcc);
    assert_eq!(root.lo & 0xffff, 0x9347);
}

#[test]
fn wide_numbers_carry() {
    let max = U512::from_u256(&U256 { hi: u128::MAX, lo: u128::MAX });
    let sum = max.plus(&U512::from_u64(1));
    assert_eq!(sum.limbs, [0, 0, 0, 0, 1, 0, 0, 0]);
    let product = sum.times(&U512::from_u64(3));
    assert_eq!(product.limbs, [0, 0, 0, 0, 3, 0, 0, 0]);
    assert_eq!(product.over(&U512::from_u64(2)).limbs, [0, 0, 0, 1 << 63, 1, 0, 0, 0]);
    assert!(product.at_least(&sum));
    assert!(!sum.at_least(&product));
    assert!(sum.at_least(&sum));
}

#[test]
fn numbers_of_256_bits_carry_and_borrow() {
    let a = U256 { hi: 0, lo: u128::MAX };
    let b = a.plus(&U256::from_u64(1));
    assert_eq!(b, U256 { hi: 1, lo: 0 });
    assert_eq!(b.minus(&U256::from_u64(1)), a);
    assert!(a.is_less(&b));
    assert!(!b.is_less(&a));
}
