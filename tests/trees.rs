use grovedbg_view::keys::Path;
use grovedbg_view::trees::{InnerTreeNode, InnerTreeNodeValue, Tree};

fn scalar(v: &[u8], left: Option<&[u8]>, right: Option<&[u8]>) -> InnerTreeNode {
    InnerTreeNode {
        value: InnerTreeNodeValue::Scalar(v.to_vec()),
        left: left.map(|k| k.to_vec()),
        right: right.map(|k| k.to_vec()),
    }
}

#[test]
fn get_or_create_subtree() {
    let mut tree = Tree::new(b"0".to_vec());

    tree.get_or_create_subtree_recursive(&vec![b"00".to_vec()].into());
    tree.get_or_create_subtree_recursive(
        &vec![
            b"0".to_vec(),
            b"1".to_vec(),
            b"2".to_vec(),
            b"3".to_vec(),
            b"4".to_vec(),
        ]
        .into(),
    );
    let deep_path: Path = vec![
        b"0".to_vec(),
        b"1".to_vec(),
        b"2".to_vec(),
        b"3".to_vec(),
        b"4".to_vec(),
    ]
    .into();
    let deep_subtree = tree.get_subtree(&deep_path).unwrap();

    assert_eq!(deep_subtree.key, Some(b"4".to_vec()));
    let root_path: Path = vec![].into();
    let root = tree.get_subtree(&root_path).unwrap();
    assert_eq!(root.key, None);
    assert_eq!(
        (0..root.children.len()).map(|i| root.children.key(i).clone()).collect::<Vec<Vec<u8>>>(),
        vec![b"0".to_vec(), b"00".to_vec()]
    );
}

#[test]
fn root_tree_inner_scalars() {
    let mut tree = Tree::new(b"key1".to_vec());

    tree.insert(vec![].into(), b"key1".to_vec(), scalar(b"value1", Some(b"key11"), Some(b"key12")));
    tree.insert(vec![].into(), b"key11".to_vec(), scalar(b"value11", Some(b"key111"), Some(b"key112")));
    tree.insert(vec![].into(), b"key111".to_vec(), scalar(b"value111", None, None));
    tree.insert(vec![].into(), b"key112".to_vec(), scalar(b"value112", None, None));
    tree.insert(vec![].into(), b"key12".to_vec(), scalar(b"value12", Some(b"key121"), None));
    tree.insert(vec![].into(), b"key121".to_vec(), scalar(b"value121", None, None));

    let root_path: Path = vec![].into();
    let root_subtree = tree.get_subtree(&root_path).unwrap();
    let value = root_subtree
        .inner_tree
        .root_node()
        .and_then(|node| node.left_child(&root_subtree.inner_tree))
        .and_then(|node| node.right_child(&root_subtree.inner_tree))
        .map(|node| &node.value);
    assert!(matches!(value, Some(InnerTreeNodeValue::Scalar(v)) if v.as_slice() == b"value112"));
}

#[test]
fn test_nested_subtrees() {
    let mut tree = Tree::new(b"root_tree_merk_root".to_vec());
    tree.insert(
        vec![].into(),
        b"root_tree_merk_root".to_vec(),
        InnerTreeNode {
            value: InnerTreeNodeValue::Subtree(Some(b"key01".to_vec())),
            left: Some(b"key1".to_vec()),
            right: Some(b"key2".to_vec()),
        },
    );
    tree.insert(
        vec![].into(),
        b"key1".to_vec(),
        InnerTreeNode {
            value: InnerTreeNodeValue::Subtree(Some(b"key11".to_vec())),
            left: None,
            right: None,
        },
    );
    tree.insert(
        vec![].into(),
        b"key2".to_vec(),
        InnerTreeNode {
            value: InnerTreeNodeValue::Subtree(Some(b"key21".to_vec())),
            left: None,
            right: None,
        },
    );
    tree.insert(
        vec![b"key2".to_vec()].into(),
        b"key21".to_vec(),
        InnerTreeNode {
            value: InnerTreeNodeValue::Subtree(Some(b"key211".to_vec())),
            left: None,
            right: None,
        },
    );
}

#[test]
fn levels_count_and_references() {
    let mut tree = Tree::new(b"r".to_vec());
    tree.insert(
        vec![].into(),
        b"a".to_vec(),
        InnerTreeNode { value: InnerTreeNodeValue::Subtree(Some(b"x".to_vec())), left: None, right: None },
    );
    tree.insert(
        vec![].into(),
        b"b".to_vec(),
        InnerTreeNode { value: InnerTreeNodeValue::Subtree(None), left: None, right: None },
    );
    tree.insert(
        vec![b"a".to_vec(), b"c".to_vec()].into(),
        b"k".to_vec(),
        InnerTreeNode {
            value: InnerTreeNodeValue::Reference(vec![b"a".to_vec()].into(), b"x".to_vec()),
            left: None,
            right: None,
        },
    );
    assert_eq!(tree.levels_count, vec![1, 2, 1]);
    assert_eq!(tree.max_level_count(), 2);
    let a: Path = vec![b"a".to_vec()].into();
    let va = tree.get_subtree(&a).unwrap();
    assert_eq!(va.inner_tree.root_node_key, Some(b"x".to_vec()));
    assert!(va.referred_keys.contains(&b"x".to_vec()));
    assert_eq!(va.parent_path, Some(vec![].into()));
    assert!(va.children.contains(&b"c".to_vec()));
}
