use grovedbg_view::layout::leaves_level_count;

#[test]
fn test_leaves_level_count() {
    assert_eq!(leaves_level_count(0), 0);
    assert_eq!(leaves_level_count(1), 1);
    assert_eq!(leaves_level_count(2), 2);
    assert_eq!(leaves_level_count(3), 4);
    assert_eq!(leaves_level_count(4), 8);
}

#[test]
fn leaves_level_count_largest() {
    assert_eq!(leaves_level_count(32), 1 << 31);
}

use grovedbg_view::key_set::KeySet;
use grovedbg_view::layout::expanded_subtree_levels;
use grovedbg_view::subtree::{Node, Subtree};

#[test]
fn expanded_levels_follow_shown_children() {
    let mut subtree = Subtree::new_root(b"r".to_vec());
    subtree.insert(
        b"r".to_vec(),
        Node::new_item(vec![]).with_left_child(b"a".to_vec()).with_right_child(b"b".to_vec()),
    );
    subtree.insert(b"a".to_vec(), Node::new_item(vec![]).with_left_child(b"c".to_vec()));
    subtree.insert(b"b".to_vec(), Node::new_item(vec![]));
    subtree.insert(b"c".to_vec(), Node::new_item(vec![]));

    let mut left = KeySet::new();
    let mut right = KeySet::new();
    assert_eq!(expanded_subtree_levels(&subtree, &left, &right), 1);
    right.insert(b"r".to_vec());
    assert_eq!(expanded_subtree_levels(&subtree, &left, &right), 2);
    left.insert(b"r".to_vec());
    left.insert(b"a".to_vec());
    assert_eq!(expanded_subtree_levels(&subtree, &left, &right), 3);

    let unrooted = Subtree::new();
    assert_eq!(expanded_subtree_levels(&unrooted, &left, &right), 0);
}
