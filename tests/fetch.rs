use grovedbg_view::fetch::BranchFetch;
use grovedbg_view::keys::Path;
use grovedbg_view::subtree::Node;
use grovedbg_view::tree::Tree;

#[test]
fn branch_walk_is_breadth_first() {
    let path: Path = vec![b"s".to_vec()].into();
    let mut walk = BranchFetch::new(path.clone(), b"r".to_vec());
    assert!(!walk.is_done());
    let k = walk.next_request().unwrap();
    assert_eq!(k, b"r".to_vec());
    walk.on_response(
        k,
        Some(Node::new_item(vec![]).with_left_child(b"a".to_vec()).with_right_child(b"b".to_vec())),
    );
    let a = walk.next_request().unwrap();
    assert_eq!(a, b"a".to_vec());
    walk.on_response(a, None);
    let b = walk.next_request().unwrap();
    assert_eq!(b, b"b".to_vec());
    walk.on_response(b, Some(Node::new_item(vec![2])));
    assert!(walk.is_done());
    assert!(walk.next_request().is_none());

    let mut tree = Tree::new();
    walk.apply(&mut tree);
    let st = tree.get_subtree(&path).unwrap();
    assert_eq!(st.subtree().n_nodes(), 2);
    assert!(st.subtree().is_awaited(b"a"));
    assert!(st.subtree().is_cluster_root(b"r"));
    assert!(!st.subtree().is_cluster_root(b"b"));
}
