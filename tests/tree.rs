use grovedbg_view::keys::Path;
use grovedbg_view::subtree::{Element, Node};
use grovedbg_view::tree::{LevelInfo, LevelsInfo, Tree};

#[test]
fn model_populate_subtrees_chain() {
    let mut model = Tree::new();
    assert_eq!(model.n_subtrees(), 1);

    let path: Path = vec![b"1".to_vec(), b"2".to_vec(), b"3".to_vec(), b"4".to_vec()].into();
    model.populate_subtrees_chain(&path);

    let root_path: Path = vec![].into();
    let root = model.get_subtree(&root_path).unwrap();
    let (k, n) = root.subtree().node_at(0);
    assert_eq!(k.as_slice(), b"1");
    assert!(matches!(n.element, Element::SubtreePlaceholder));

    let one: Path = vec![b"1".to_vec()].into();
    let sub = model.get_subtree(&one).unwrap();
    let (k, n) = sub.subtree().node_at(0);
    assert_eq!(k.as_slice(), b"2");
    assert!(matches!(n.element, Element::SubtreePlaceholder));

    let deepest = model.get_subtree(&path).unwrap();
    assert!(deepest.subtree().is_empty());
}

#[test]
fn populate_four_segments_makes_five_subtrees() {
    let mut model = Tree::new();
    let path: Path = vec![b"1".to_vec(), b"2".to_vec(), b"3".to_vec(), b"4".to_vec()].into();
    model.populate_subtrees_chain(&path);
    assert_eq!(model.n_subtrees(), 5);
    for d in 0..4 {
        let prefix: Path = path.0[0..d].to_vec().into();
        let st = model.get_subtree(&prefix).unwrap();
        assert_eq!(st.subtree().n_nodes(), 1);
        let node = st.subtree().get_node(&path.0[d]).unwrap();
        assert_eq!(node.element, Element::SubtreePlaceholder);
    }
    assert_eq!(model.get_subtree(&path).unwrap().subtree().n_nodes(), 0);
}

#[test]
fn model_insert_nested_sumtree_node_at_empty() {
    let mut model = Tree::new();

    model.insert(
        vec![b"hello".to_vec(), b"world".to_vec()].into(),
        b"sumtree".to_vec(),
        Node::new_sumtree(b"yeet".to_vec().into(), 0),
    );
    model.insert(
        vec![b"top".to_vec(), b"kek".to_vec()].into(),
        b"subtree".to_vec(),
        Node::new_subtree(b"swag".to_vec().into()),
    );

    let root_path: Path = vec![].into();
    assert_eq!(
        model.get_subtree(&root_path).unwrap().subtree().n_cluster_roots(),
        2
    );

    model.insert(
        vec![].into(),
        b"very_root".to_vec(),
        Node::new_item(b"very_root_value".to_vec())
            .with_left_child(b"hello".to_vec())
            .with_right_child(b"top".to_vec()),
    );

    model.set_root(b"very_root".to_vec());

    assert_eq!(
        model.get_subtree(&root_path).unwrap().subtree().n_cluster_roots(),
        0
    );

    model.insert(
        [].to_vec().into(),
        b"yay".to_vec(),
        Node::new_subtree(b"kek".to_vec().into()),
    );

    assert_eq!(
        model.levels(),
        LevelsInfo {
            widest_level_idx: 0,
            levels_info: vec![
                LevelInfo {
                    n_subtrees: 1,
                    max_subtree_size: 4,
                    max_clusters: 2
                },
                LevelInfo {
                    n_subtrees: 3,
                    max_subtree_size: 1,
                    max_clusters: 1
                },
                LevelInfo {
                    n_subtrees: 2,
                    max_subtree_size: 1,
                    max_clusters: 1
                },
                LevelInfo {
                    n_subtrees: 2,
                    max_subtree_size: 0,
                    max_clusters: 1
                },
            ]
        }
    );
}

#[test]
fn subtree_links_at_root_make_child_subtrees() {
    let mut tree = Tree::new();
    tree.insert(
        vec![].into(),
        b"subtree2".to_vec(),
        Node::new_subtree(b"subtree21".to_vec().into())
            .with_left_child(b"subtree1".to_vec())
            .with_right_child(b"subtree3".to_vec()),
    );
    tree.insert(
        vec![].into(),
        b"subtree1".to_vec(),
        Node::new_subtree(b"subtree11".to_vec().into()),
    );
    tree.insert(
        vec![].into(),
        b"subtree3".to_vec(),
        Node::new_subtree(b"subtree31".to_vec().into()),
    );
    tree.set_root(b"subtree2".to_vec());

    let root_path: Path = vec![].into();
    let root = tree.get_subtree(&root_path).unwrap();
    assert_eq!(root.subtree().root_key(), Some(&b"subtree2".to_vec()));
    assert_eq!(root.subtree().n_nodes(), 3);
    assert_eq!(root.subtree().n_cluster_roots(), 0);
    for name in [b"subtree1", b"subtree2", b"subtree3"] {
        let p: Path = vec![name.to_vec()].into();
        assert!(tree.get_subtree(&p).is_some());
    }
    let p: Path = vec![b"subtree1".to_vec()].into();
    assert_eq!(
        tree.get_subtree(&p).unwrap().subtree().root_key(),
        Some(&b"subtree11".to_vec())
    );
}

#[test]
fn disjoint_deep_paths_then_root_joins_clusters() {
    let mut tree = Tree::new();
    tree.insert(
        vec![b"a".to_vec(), b"b".to_vec()].into(),
        b"x".to_vec(),
        Node::new_item(vec![1]),
    );
    tree.insert(
        vec![b"c".to_vec(), b"d".to_vec()].into(),
        b"y".to_vec(),
        Node::new_item(vec![2]),
    );
    let root_path: Path = vec![].into();
    assert_eq!(
        tree.get_subtree(&root_path).unwrap().subtree().n_cluster_roots(),
        2
    );
    tree.insert(
        vec![].into(),
        b"r".to_vec(),
        Node::new_item(vec![])
            .with_left_child(b"a".to_vec())
            .with_right_child(b"c".to_vec()),
    );
    tree.set_root(b"r".to_vec());
    assert_eq!(
        tree.get_subtree(&root_path).unwrap().subtree().n_cluster_roots(),
        0
    );
}

#[test]
fn clear_then_get_subtree_keeps_entry() {
    let mut tree = Tree::new();
    let path: Path = vec![b"s".to_vec()].into();
    tree.insert(vec![].into(), b"s".to_vec(), Node::new_subtree(b"k".to_vec().into()));
    tree.insert(path.clone(), b"k".to_vec(), Node::new_item(vec![3]).with_left_child(b"j".to_vec()));
    assert_eq!(tree.get_subtree(&path).unwrap().subtree().n_nodes(), 1);

    tree.clear_subtree(&path);

    let st = tree.get_subtree(&path).unwrap();
    assert_eq!(st.subtree().n_nodes(), 0);
    assert_eq!(st.subtree().n_awaited(), 0);
    assert_eq!(st.subtree().n_cluster_roots(), 0);
    assert_eq!(st.subtree().root_key(), Some(&b"k".to_vec()));
    let root_path: Path = vec![].into();
    assert_eq!(
        tree.get_node(&root_path, b"s").unwrap().element,
        Element::Subtree {
            root_key: Some(b"k".to_vec())
        }
    );
}

#[test]
fn tree_remove_and_get_node() {
    let mut tree = Tree::new();
    let root_path: Path = vec![].into();
    tree.insert(vec![].into(), b"a".to_vec(), Node::new_sum_item(5));
    assert_eq!(
        tree.get_node(&root_path, b"a").unwrap().element,
        Element::SumItem { value: 5 }
    );
    tree.remove(&root_path, b"a");
    assert!(tree.get_node(&root_path, b"a").is_none());
    let missing: Path = vec![b"nope".to_vec()].into();
    tree.remove(&missing, b"a");
    assert!(tree.get_subtree(&missing).is_none());
}

#[test]
fn subtrees_in_path_order() {
    let mut tree = Tree::new();
    tree.populate_subtrees_chain(&vec![b"b".to_vec(), b"a".to_vec()].into());
    tree.populate_subtrees_chain(&vec![b"a".to_vec()].into());
    let paths: Vec<Vec<Vec<u8>>> = tree.iter_subtrees().iter().map(|c| c.path().0.clone()).collect();
    assert_eq!(
        paths,
        vec![
            vec![],
            vec![b"a".to_vec()],
            vec![b"b".to_vec()],
            vec![b"b".to_vec(), b"a".to_vec()],
        ]
    );
}

#[test]
fn node_context_navigation() {
    let mut tree = Tree::new();
    tree.insert(vec![].into(), b"r".to_vec(), Node::new_item(vec![9]).with_left_child(b"l".to_vec()));
    tree.insert(vec![].into(), b"q".to_vec(), Node::new_item(vec![8]));
    tree.set_root(b"r".to_vec());
    let root_path: Path = vec![].into();
    let ctx = tree.get_subtree(&root_path).unwrap();
    let root = ctx.get_root().unwrap();
    assert_eq!(root.key().as_slice(), b"r");
    assert_eq!(root.node().element, Element::Item { value: vec![9] });
    assert_eq!(root.path(), &root_path);
    let clusters = ctx.iter_cluster_roots();
    assert_eq!(clusters.len(), 1);
    assert_eq!(clusters[0].key().as_slice(), b"q");
    assert!(ctx.get_node(b"l").is_none());
}

#[test]
fn new_tree_holds_only_an_empty_root_subtree() {
    let tree = Tree::new();
    assert_eq!(tree.n_subtrees(), 1);
    let root_path: Path = vec![].into();
    let root = tree.get_subtree(&root_path).unwrap();
    assert!(root.subtree().is_empty());
    assert_eq!(root.subtree().root_key(), None);
    assert_eq!(root.subtree().n_cluster_roots(), 0);
    assert_eq!(root.subtree().n_awaited(), 0);
    assert_eq!(
        tree.levels(),
        LevelsInfo {
            levels_info: vec![LevelInfo { n_subtrees: 1, max_subtree_size: 0, max_clusters: 0 }],
            widest_level_idx: 0
        }
    );
}

#[test]
fn widest_level_is_first_with_largest_weight() {
    let mut tree = Tree::new();
    tree.insert(vec![].into(), b"a".to_vec(), Node::new_subtree(None));
    tree.insert(vec![].into(), b"b".to_vec(), Node::new_subtree(None));
    tree.insert(vec![b"a".to_vec()].into(), b"x".to_vec(), Node::new_item(vec![]));
    tree.insert(vec![b"b".to_vec()].into(), b"y".to_vec(), Node::new_item(vec![]));
    tree.insert(vec![b"b".to_vec()].into(), b"z".to_vec(), Node::new_item(vec![]));
    let levels = tree.levels();
    // level 0: 1 subtree, 2 nodes, 2 clusters -> 4; level 1: 2 subtrees, 2 nodes, 2 clusters -> 8
    assert_eq!(levels.levels_info[0], LevelInfo { n_subtrees: 1, max_subtree_size: 2, max_clusters: 2 });
    assert_eq!(levels.levels_info[1], LevelInfo { n_subtrees: 2, max_subtree_size: 2, max_clusters: 2 });
    assert_eq!(levels.widest_level_idx, 1);
}

#[test]
fn descendant_paths_below_a_prefix() {
    let mut tree = Tree::new();
    tree.populate_subtrees_chain(&vec![b"a".to_vec(), b"b".to_vec(), b"c".to_vec()].into());
    tree.populate_subtrees_chain(&vec![b"a".to_vec(), b"d".to_vec()].into());
    tree.populate_subtrees_chain(&vec![b"e".to_vec()].into());
    let prefix: Path = vec![b"a".to_vec()].into();
    let found: Vec<Vec<Vec<u8>>> = tree.descendant_paths(&prefix).iter().map(|p| p.0.clone()).collect();
    assert_eq!(
        found,
        vec![
            vec![b"a".to_vec()],
            vec![b"a".to_vec(), b"b".to_vec()],
            vec![b"a".to_vec(), b"d".to_vec()],
            vec![b"a".to_vec(), b"b".to_vec(), b"c".to_vec()],
        ]
    );
    let none: Path = vec![b"zz".to_vec()].into();
    assert!(tree.descendant_paths(&none).is_empty());
}

#[test]
fn insert_keeps_children_announced() {
    let mut tree = Tree::new();
    tree.insert(
        vec![b"p".to_vec(), b"q".to_vec()].into(),
        b"s".to_vec(),
        Node::new_subtree(None),
    );
    for ctx in tree.iter_subtrees() {
        let p = &ctx.path().0;
        if let Some((last, parent)) = p.split_last() {
            let parent_path: Path = parent.to_vec().into();
            assert!(tree.get_node(&parent_path, last).is_some());
        }
    }
    assert_eq!(tree.n_subtrees(), 4);
}

#[test]
fn paths_order_shorter_first_then_lexicographic() {
    let a: Path = vec![b"z".to_vec()].into();
    let b: Path = vec![b"a".to_vec(), b"a".to_vec()].into();
    let c: Path = vec![b"a".to_vec(), b"b".to_vec()].into();
    assert!(a < b);
    assert!(b < c);
    assert_eq!(b.partial_cmp(&b.clone()), Some(std::cmp::Ordering::Equal));
    assert!(Path(vec![]) < a);
}
