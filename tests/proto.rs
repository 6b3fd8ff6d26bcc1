use grovedbg_view::keys::Path;
use grovedbg_view::proto::{
    from_absolute_path_reference, from_cousin_reference, from_removed_cousin_reference,
    from_sibling_reference, from_upstream_element_height_reference,
    from_upstream_root_height_reference, BadProtoElement, NodeUpdate, ReferenceWithoutKey,
    RemoteElement,
};
use grovedbg_view::subtree::{Element, Node};

fn p(segs: &[&[u8]]) -> Vec<Vec<u8>> {
    segs.iter().map(|s| s.to_vec()).collect()
}

fn reference(path: &[&[u8]], key: &[u8]) -> Element {
    Element::Reference { path: Path(p(path)), key: key.to_vec() }
}

#[test]
fn absolute_reference_splits_last_segment() {
    assert_eq!(
        from_absolute_path_reference(p(&[b"a", b"b", b"k"])),
        Ok(reference(&[b"a", b"b"], b"k"))
    );
    assert_eq!(from_absolute_path_reference(vec![]), Err(ReferenceWithoutKey));
}

#[test]
fn upstream_root_height_keeps_prefix() {
    assert_eq!(
        from_upstream_root_height_reference(&p(&[b"a", b"b", b"c"]), 1, p(&[b"x", b"k"])),
        Ok(reference(&[b"a", b"x"], b"k"))
    );
    assert_eq!(
        from_upstream_root_height_reference(&p(&[b"a"]), 5, p(&[b"k"])),
        Ok(reference(&[b"a"], b"k"))
    );
    assert_eq!(
        from_upstream_root_height_reference(&p(&[b"a"]), 0, vec![]),
        Err(ReferenceWithoutKey)
    );
}

#[test]
fn upstream_element_height_drops_one_more() {
    assert_eq!(
        from_upstream_element_height_reference(&p(&[b"a", b"b", b"c"]), 1, p(&[b"k"])),
        Ok(reference(&[b"a"], b"k"))
    );
    assert_eq!(
        from_upstream_element_height_reference(&p(&[b"a"]), 3, p(&[b"x", b"k"])),
        Ok(reference(&[b"x"], b"k"))
    );
}

#[test]
fn cousin_references() {
    assert_eq!(
        from_cousin_reference(p(&[b"a", b"b"]), b"k".to_vec(), b"z".to_vec()),
        Ok(reference(&[b"a", b"z"], b"k"))
    );
    assert_eq!(
        from_cousin_reference(vec![], b"k".to_vec(), b"z".to_vec()),
        Err(ReferenceWithoutKey)
    );
    assert_eq!(
        from_removed_cousin_reference(p(&[b"a", b"b"]), b"k".to_vec(), p(&[b"y", b"z"])),
        Ok(reference(&[b"a", b"y", b"z"], b"k"))
    );
    assert_eq!(
        from_removed_cousin_reference(vec![], b"k".to_vec(), p(&[b"y"])),
        Err(ReferenceWithoutKey)
    );
    assert_eq!(from_sibling_reference(p(&[b"a"]), b"s".to_vec()), reference(&[b"a"], b"s"));
}

#[test]
fn node_from_update() {
    let update = NodeUpdate {
        path: p(&[b"a"]),
        key: b"k".to_vec(),
        element: RemoteElement::CousinReference { swap_parent: b"b".to_vec() },
        left_child: Some(b"l".to_vec()),
        right_child: None,
    };
    assert_eq!(
        Node::from_update(update),
        Ok(Node {
            element: reference(&[b"b"], b"k"),
            left_child: Some(b"l".to_vec()),
            right_child: None,
        })
    );
    let bad = NodeUpdate {
        path: vec![],
        key: b"k".to_vec(),
        element: RemoteElement::AbsolutePathReference { path: vec![] },
        left_child: None,
        right_child: None,
    };
    assert_eq!(Node::from_update(bad), Err(BadProtoElement::EmptyPathReference));
    let sum = NodeUpdate {
        path: vec![],
        key: b"k".to_vec(),
        element: RemoteElement::Sumtree { root_key: None, sum: -3 },
        left_child: None,
        right_child: None,
    };
    assert_eq!(
        Node::from_update(sum).unwrap().element,
        Element::Sumtree { root_key: None, sum: -3 }
    );
}

#[test]
fn element_from_remote_resolves_sibling() {
    assert_eq!(
        Element::from_remote(
            RemoteElement::SiblingReference { sibling_key: b"s".to_vec() },
            &p(&[b"a", b"b"]),
            b"k"
        ),
        Ok(reference(&[b"a", b"b"], b"s"))
    );
    assert_eq!(
        Element::from_remote(RemoteElement::Item { value: vec![1, 2] }, &[], b"k"),
        Ok(Element::Item { value: vec![1, 2] })
    );
}
