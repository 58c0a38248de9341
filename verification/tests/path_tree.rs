use treegraph_consensus::path_tree::PathTree;

#[test]
fn path_updates_reach_every_ancestor() {
    let mut tree = PathTree::new();
    tree.make_tree(0);
    tree.make_tree(1);
    tree.link(0, 1);
    tree.path_apply(1, 5);
    assert_eq!(tree.get(0), 5);
    assert_eq!(tree.get(1), 5);
}
