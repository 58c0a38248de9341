use treegraph_consensus::anticone_cache::AnticoneCache;
use treegraph_consensus::bits::BlockSet;
use treegraph_consensus::hash_index::{HashIndex, HashSetList};
use treegraph_consensus::path_tree::PathTree;
use treegraph_consensus::types::H256;

fn h(n: u128) -> H256 {
    H256 { hi: n, lo: 0 }
}

#[test]
fn a_block_set_lists_its_members_in_order() {
    let mut set = BlockSet::new();
    for i in [70_000usize, 3, 64, 3, 0] {
        set.add(i);
    }
    assert_eq!(set.to_vec(), vec![0, 3, 64, 70_000]);
    assert_eq!(set.len(), 4);
    assert!(set.contains(64));
    assert!(!set.contains(65));
    set.remove(64);
    set.remove(65);
    assert!(!set.contains(64));
    assert_eq!(set.to_vec(), vec![0, 3, 70_000]);
}

#[test]
fn an_index_finds_by_both_halves() {
    let mut index = HashIndex::new();
    index.insert(H256 { hi: 1, lo: 2 }, 7);
    index.insert(H256 { hi: 1, lo: 3 }, 8);
    index.insert(H256 { hi: 1, lo: 2 }, 9);
    assert_eq!(index.get(&H256 { hi: 1, lo: 2 }), Some(9));
    assert_eq!(index.get(&H256 { hi: 1, lo: 3 }), Some(8));
    assert_eq!(index.get(&H256 { hi: 2, lo: 2 }), None);
    assert!(index.contains(&H256 { hi: 1, lo: 3 }));
    assert!(!index.contains(&H256 { hi: 0, lo: 3 }));
}

#[test]
fn a_list_of_hashes_holds_each_once() {
    let mut list = HashSetList::new();
    list.insert(h(1));
    list.insert(h(2));
    list.insert(h(1));
    assert_eq!(list.to_vec().len(), 2);
    list.remove(&h(1));
    list.remove(&h(5));
    assert!(!list.contains(&h(1)));
    assert_eq!(list.to_vec(), vec![h(2)]);
}

/// The tree 0 - 1 - 2 with the further children 3 of 1 and 4 of 0.
fn tree() -> PathTree {
    let mut tree = PathTree::new();
    for v in 0..5 {
        tree.make_tree(v);
    }
    tree.link(0, 1);
    tree.link(1, 2);
    tree.link(1, 3);
    tree.link(0, 4);
    tree
}

#[test]
fn a_path_is_updated_and_read() {
    let mut tree = tree();
    tree.path_apply(2, 5);
    tree.path_apply(3, -2);
    tree.path_apply(4, 1);
    let values: Vec<i128> = (0..5).map(|v| tree.get(v)).collect();
    assert_eq!(values, vec![4, 3, 5, -2, 1]);
    assert_eq!(tree.path_aggregate(2, 0), 3);
    assert_eq!(tree.path_aggregate(2, 1), 5);
    assert_eq!(tree.path_aggregate(3, 0), -2);
    assert_eq!(tree.path_aggregate(4, 0), 1);
    // The upper end of the path does not count.
    tree.set(0, -9);
    assert_eq!(tree.path_aggregate(2, 0), 3);
    tree.set(1, -5);
    assert_eq!(tree.path_aggregate(2, 0), -5);
    assert_eq!(tree.path_aggregate(2, 1), 5);
}

#[test]
fn the_children_of_a_path_are_updated() {
    let mut tree = tree();
    tree.catepillar_apply(1, 10);
    let values: Vec<i128> = (0..5).map(|v| tree.get(v)).collect();
    // The root is a child of no block.
    assert_eq!(values, vec![0, 10, 10, 10, 10]);
    tree.catepillar_apply(0, 1);
    let values: Vec<i128> = (0..5).map(|v| tree.get(v)).collect();
    assert_eq!(values, vec![0, 11, 10, 10, 11]);
}

#[test]
fn ancestors_are_found() {
    let tree = tree();
    assert_eq!(tree.lca(2, 3), 1);
    assert_eq!(tree.lca(2, 4), 0);
    assert_eq!(tree.lca(1, 2), 1);
    assert_eq!(tree.ancestor_at(3, 0), 0);
    assert_eq!(tree.ancestor_at(3, 1), 1);
    assert_eq!(tree.ancestor_at(3, 2), 3);
}

#[test]
fn an_anticone_is_kept_for_later() {
    let mut cache = AnticoneCache::new();
    assert!(cache.get(0).is_none());
    cache.update(0, &BlockSet::new());
    assert_eq!(cache.get(0).unwrap().len(), 0);
    let mut set = BlockSet::new();
    set.add(0);
    cache.update(1, &set);
    assert!(cache.get(1).unwrap().contains(&0));
    // Being unrelated goes both ways.
    assert!(cache.get(0).unwrap().contains(&1));
}
