use grovedbg_view::subtree::{Element, Node, Subtree};

fn sample_tree() -> Subtree {
    // root
    // ├── right1
    // │   ├── right2
    // │   └── left2
    // │       ├── right4
    // │       └── left4
    // └── left1
    //     └── right3
    let mut subtree = Subtree::new_root(b"root".to_vec());
    subtree.insert(
        b"root".to_vec(),
        Node::new_item(b"root_value".to_vec())
            .with_left_child(b"left1".to_vec())
            .with_right_child(b"right1".to_vec()),
    );
    subtree.insert(
        b"right1".to_vec(),
        Node::new_item(b"right1_value".to_vec())
            .with_left_child(b"left2".to_vec())
            .with_right_child(b"right2".to_vec()),
    );
    subtree.insert(
        b"left1".to_vec(),
        Node::new_item(b"left1_value".to_vec()).with_right_child(b"right3".to_vec()),
    );
    subtree.insert(b"right2".to_vec(), Node::new_item(b"right2_value".to_vec()));
    subtree.insert(
        b"left2".to_vec(),
        Node::new_item(b"left2_value".to_vec())
            .with_left_child(b"left4".to_vec())
            .with_right_child(b"right4".to_vec()),
    );
    subtree.insert(b"right3".to_vec(), Node::new_item(b"right3_value".to_vec()));
    subtree.insert(b"right4".to_vec(), Node::new_item(b"right4_value".to_vec()));
    subtree.insert(b"left4".to_vec(), Node::new_item(b"right4_value".to_vec()));
    subtree
}

#[test]
fn simple_sequential_insertion_subtree() {
    let subtree = sample_tree();

    assert_eq!(subtree.n_awaited(), 0);
    assert_eq!(subtree.n_cluster_roots(), 0);
}

#[test]
fn subtree_node_leaf_removal() {
    let mut subtree = sample_tree();

    subtree.remove(b"left4");

    assert!(!subtree.contains_node(b"left4"));
    assert_eq!(subtree.n_awaited(), 1);
    assert!(subtree.is_awaited(b"left4"));
    assert_eq!(subtree.n_cluster_roots(), 0);
}

#[test]
fn subtree_node_leaf_complete_removal() {
    let mut subtree = sample_tree();

    subtree.remove(b"left4");
    let mut old_parent = subtree.get_node(b"left2").unwrap().clone();
    old_parent.left_child = None;
    subtree.insert(b"left2".to_vec(), old_parent);

    assert!(!subtree.contains_node(b"left4"));
    assert_eq!(subtree.n_awaited(), 0);
    assert_eq!(subtree.n_cluster_roots(), 0);
}

#[test]
fn subtree_mid_node_delete_creates_clusters() {
    let mut subtree = sample_tree();

    subtree.remove(b"right1");

    assert!(!subtree.contains_node(b"right1"));
    assert_eq!(subtree.n_awaited(), 1);
    assert!(subtree.is_awaited(b"right1"));
    assert_eq!(
        subtree.cluster_root_key_list(),
        vec![b"left2".to_vec(), b"right2".to_vec()]
    );

    subtree.insert(
        b"right1".to_vec(),
        Node::new_item(b"right1_value".to_vec())
            .with_left_child(b"left2".to_vec())
            .with_right_child(b"right2".to_vec()),
    );

    assert_eq!(subtree, sample_tree());
}

#[test]
fn insert_twice_same_as_once() {
    let node = Node::new_item(b"v".to_vec())
        .with_left_child(b"a".to_vec())
        .with_right_child(b"b".to_vec());
    let mut once = sample_tree();
    once.insert(b"x".to_vec(), node.clone());
    let mut twice = sample_tree();
    twice.insert(b"x".to_vec(), node.clone());
    twice.insert(b"x".to_vec(), node);
    assert_eq!(once, twice);
    assert!(once.is_cluster_root(b"x"));
    assert!(once.is_awaited(b"a"));
    assert!(once.is_awaited(b"b"));
}

#[test]
fn remove_then_reinsert_restores_every_node() {
    for key in [
        b"root".to_vec(),
        b"left1".to_vec(),
        b"right1".to_vec(),
        b"left2".to_vec(),
        b"right2".to_vec(),
        b"right3".to_vec(),
        b"left4".to_vec(),
        b"right4".to_vec(),
    ] {
        let mut subtree = sample_tree();
        let before = subtree.get_node(&key).unwrap().clone();
        subtree.remove(&key);
        assert!(!subtree.contains_node(&key));
        subtree.insert(key.clone(), before);
        assert_eq!(subtree, sample_tree());
    }
}

#[test]
fn waitlist_and_clusters_stay_within_known_nodes() {
    let mut subtree = Subtree::new();
    subtree.insert(b"b".to_vec(), Node::new_item(vec![1]).with_left_child(b"a".to_vec()));
    assert!(subtree.is_cluster_root(b"b"));
    assert!(subtree.is_awaited(b"a"));
    subtree.insert(b"a".to_vec(), Node::new_item(vec![2]));
    assert!(!subtree.is_awaited(b"a"));
    assert!(!subtree.is_cluster_root(b"a"));
    subtree.remove(b"b");
    // b was a cluster root, so it is dropped; a is a cluster root now
    assert!(!subtree.is_awaited(b"b"));
    assert!(!subtree.is_cluster_root(b"b"));
    assert!(subtree.is_cluster_root(b"a"));
    assert_eq!(subtree.n_cluster_roots(), 1);
    assert_eq!(subtree.n_awaited(), 0);
    assert_eq!(subtree.n_nodes(), 1);
}

#[test]
fn removing_the_root_does_not_await_it() {
    let mut subtree = sample_tree();
    subtree.remove(b"root");
    assert!(!subtree.is_awaited(b"root"));
    assert!(!subtree.is_cluster_root(b"root"));
    assert_eq!(
        subtree.cluster_root_key_list(),
        vec![b"left1".to_vec(), b"right1".to_vec()]
    );
}

#[test]
fn set_root_clears_cluster_entry() {
    let mut subtree = Subtree::new();
    subtree.insert(b"r".to_vec(), Node::new_item(vec![]));
    assert!(subtree.is_cluster_root(b"r"));
    subtree.set_root(b"r".to_vec());
    assert!(!subtree.is_cluster_root(b"r"));
    assert_eq!(subtree.root_key(), Some(&b"r".to_vec()));
    assert_eq!(subtree.root_node().unwrap().element, Element::Item { value: vec![] });
}

#[test]
fn insert_not_exists_keeps_known_node() {
    let mut subtree = Subtree::new();
    subtree.insert(b"k".to_vec(), Node::new_item(vec![7]));
    subtree.insert_not_exists(b"k".to_vec(), Node::new_subtree_placeholder());
    assert_eq!(
        subtree.get_node(b"k").unwrap().element,
        Element::Item { value: vec![7] }
    );
    subtree.insert_not_exists(b"j".to_vec(), Node::new_subtree_placeholder());
    assert_eq!(
        subtree.get_node(b"j").unwrap().element,
        Element::SubtreePlaceholder
    );
}

#[test]
fn cluster_root_nodes_in_key_order() {
    let mut subtree = Subtree::new();
    subtree.insert(b"z".to_vec(), Node::new_item(vec![26]));
    subtree.insert(b"a".to_vec(), Node::new_item(vec![1]));
    let nodes = subtree.iter_cluster_roots();
    assert_eq!(nodes.len(), 2);
    assert_eq!(nodes[0].element, Element::Item { value: vec![1] });
    assert_eq!(nodes[1].element, Element::Item { value: vec![26] });
}
