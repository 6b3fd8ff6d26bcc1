//! Turning decoded wire records into nodes: the element kinds of the wire,
//! and the resolution of relative references into a path and a key.

use crate::keys::{Key, Path};
use crate::subtree::{Element, Node};
use vstd::prelude::*;

verus! {

/// An element as the wire carries it.
#[allow(inconsistent_fields)]
pub enum RemoteElement {
    Subtree { root_key: Option<Key> },
    Sumtree { root_key: Option<Key>, sum: i64 },
    Item { value: Vec<u8> },
    SumItem { value: i64 },
    /// Reference by the full path of the referenced node, key last.
    AbsolutePathReference { path: Vec<Vec<u8>> },
    /// Keep the first `n_keep` segments of the holder's path, then append.
    UpstreamRootHeightReference { n_keep: u32, path_append: Vec<Vec<u8>> },
    /// Drop segments from the end of the holder's path, then append.
    UpstreamFromElementHeightReference { n_remove: u32, path_append: Vec<Vec<u8>> },
    /// Same key, with the holder's last path segment swapped.
    CousinReference { swap_parent: Key },
    /// Same key, with the holder's last path segment replaced by segments.
    RemovedCousinReference { swap_parent: Vec<Vec<u8>> },
    /// Another key of the holder's subtree.
    SiblingReference { sibling_key: Key },
}

/// A node record as the wire carries it.
pub struct NodeUpdate {
    pub path: Vec<Vec<u8>>,
    pub key: Key,
    pub element: RemoteElement,
    pub left_child: Option<Key>,
    pub right_child: Option<Key>,
}

/// A reference that resolves to an empty path, so that it has no key.
#[derive(Debug, Clone, Copy, PartialEq, Eq)]
pub struct ReferenceWithoutKey;

/// Why a node record could not be turned into a node.
#[derive(Debug, Clone, Copy, PartialEq, Eq)]
pub enum BadProtoElement {
    EmptyPathReference,
}

/// Views of a sequence of segments.
pub open spec fn segs(v: Seq<Vec<u8>>) -> Seq<Seq<u8>> {
    v.map_values(|k: Vec<u8>| k@)
}

/// `e` is a reference to `key` in the subtree at `path`.
pub open spec fn is_reference_to(e: Element, path: Seq<Seq<u8>>, key: Seq<u8>) -> bool {
    e matches Element::Reference { path: p, key: k } && p@ == path && k@ == key
}

/// `r` splits the full path `full` into a reference: all segments but the
/// last are the path, the last is the key; an empty `full` has no key.
pub open spec fn splits_into_reference(full: Seq<Seq<u8>>, r: Result<Element, ReferenceWithoutKey>) -> bool {
    match r {
        Ok(e) => full.len() > 0 && is_reference_to(e, full.drop_last(), full.last()),
        Err(_) => full.len() == 0,
    }
}

/// Full path of an upstream-root-height reference held under `path`.
pub open spec fn upstream_root_height_path(
    path: Seq<Seq<u8>>,
    n_keep: u32,
    path_append: Seq<Seq<u8>>,
) -> Seq<Seq<u8>> {
    let kept = if n_keep as int <= path.len() {
        n_keep as int
    } else {
        path.len() as int
    };
    path.subrange(0, kept) + path_append
}

/// Full path of an upstream-from-element-height reference held under
/// `path`: `n_remove + 1` segments come off the end.
pub open spec fn upstream_element_height_path(
    path: Seq<Seq<u8>>,
    n_remove: u32,
    path_append: Seq<Seq<u8>>,
) -> Seq<Seq<u8>> {
    let kept = if n_remove as int + 1 <= path.len() {
        path.len() - (n_remove as int + 1)
    } else {
        0
    };
    path.subrange(0, kept) + path_append
}

/// `r` is what the wire element `element`, held at `key` in the subtree at
/// `path`, converts to.
pub open spec fn converts_to(
    element: RemoteElement,
    path: Seq<Seq<u8>>,
    key: Seq<u8>,
    r: Result<Element, ReferenceWithoutKey>,
) -> bool {
    match element {
        RemoteElement::Subtree { root_key } => r == Ok::<Element, ReferenceWithoutKey>(
            Element::Subtree { root_key },
        ),
        RemoteElement::Sumtree { root_key, sum } => r == Ok::<Element, ReferenceWithoutKey>(
            Element::Sumtree { root_key, sum },
        ),
        RemoteElement::Item { value } => r == Ok::<Element, ReferenceWithoutKey>(
            Element::Item { value },
        ),
        RemoteElement::SumItem { value } => r == Ok::<Element, ReferenceWithoutKey>(
            Element::SumItem { value },
        ),
        RemoteElement::AbsolutePathReference { path: full } => splits_into_reference(
            segs(full@),
            r,
        ),
        RemoteElement::UpstreamRootHeightReference { n_keep, path_append } =>
            splits_into_reference(
            upstream_root_height_path(path, n_keep, segs(path_append@)),
            r,
        ),
        RemoteElement::UpstreamFromElementHeightReference { n_remove, path_append } =>
            splits_into_reference(
            upstream_element_height_path(path, n_remove, segs(path_append@)),
            r,
        ),
        RemoteElement::CousinReference { swap_parent } => {
            &&& path.len() == 0 ==> r is Err
            &&& path.len() > 0 ==> r is Ok && is_reference_to(
                r->Ok_0,
                path.drop_last().push(swap_parent@),
                key,
            )
        },
        RemoteElement::RemovedCousinReference { swap_parent } => {
            &&& path.len() == 0 ==> r is Err
            &&& path.len() > 0 ==> r is Ok && is_reference_to(
                r->Ok_0,
                path.drop_last() + segs(swap_parent@),
                key,
            )
        },
        RemoteElement::SiblingReference { sibling_key } => r is Ok && is_reference_to(
            r->Ok_0,
            path,
            sibling_key@,
        ),
    }
}

fn copy_segments(v: &[Vec<u8>], from: usize, to: usize, out: &mut Vec<Vec<u8>>)
    requires
        from <= to <= v@.len(),
    ensures
        segs(final(out)@) == segs(old(out)@) + segs(v@).subrange(from as int, to as int),
{
    let mut i = from;
    while i < to
        invariant
            from <= i <= to <= v@.len(),
            segs(out@) == segs(old(out)@) + segs(v@).subrange(from as int, i as int),
        decreases to - i,
    {
        let ghost before = out@;
        out.push(crate::keys::copy_bytes(v[i].as_slice()));
        proof {
            assert(segs(out@) =~= segs(before).push(v@[i as int]@));
            assert(segs(old(out)@) + segs(v@).subrange(from as int, i + 1) =~= (segs(old(out)@)
                + segs(v@).subrange(from as int, i as int)).push(v@[i as int]@));
        }
        i = i + 1;
    }
}

/// Splits a full path into a reference: the last segment is the key.
pub fn from_absolute_path_reference(path: Vec<Vec<u8>>) -> (r: Result<Element, ReferenceWithoutKey>)
    ensures
        splits_into_reference(segs(path@), r),
{
    let mut path = path;
    let ghost full = segs(path@);
    match path.pop() {
        Some(key) => {
            proof {
                assert(segs(path@) =~= full.drop_last());
            }
            Ok(Element::Reference { path: Path(path), key })
        },
        None => Err(ReferenceWithoutKey),
    }
}

/// Keeps the first `n_keep` segments of the holder's path, appends
/// `path_append`, and splits the result into a reference.
pub fn from_upstream_root_height_reference(
    path: &[Vec<u8>],
    n_keep: u32,
    path_append: Vec<Vec<u8>>,
) -> (r: Result<Element, ReferenceWithoutKey>)
    ensures
        splits_into_reference(upstream_root_height_path(segs(path@), n_keep, segs(path_append@)), r),
{
    let kept: usize = if (n_keep as usize) <= path.len() {
        n_keep as usize
    } else {
        path.len()
    };
    let mut full: Vec<Vec<u8>> = Vec::new();
    copy_segments(path, 0, kept, &mut full);
    let mut append = path_append;
    let ghost before = full@;
    full.append(&mut append);
    proof {
        assert(segs(full@) =~= segs(before) + segs(path_append@));
        assert(segs(before) =~= segs(path@).subrange(0, kept as int));
    }
    from_absolute_path_reference(full)
}

/// Drops `n_remove + 1` segments from the end of the holder's path (all of
/// them if there are fewer), appends `path_append`, and splits the result
/// into a reference.
pub fn from_upstream_element_height_reference(
    path: &[Vec<u8>],
    n_remove: u32,
    path_append: Vec<Vec<u8>>,
) -> (r: Result<Element, ReferenceWithoutKey>)
    ensures
        splits_into_reference(
            upstream_element_height_path(segs(path@), n_remove, segs(path_append@)),
            r,
        ),
{
    let kept: usize = if (n_remove as usize) < path.len() {
        path.len() - (n_remove as usize) - 1
    } else {
        0
    };
    let mut full: Vec<Vec<u8>> = Vec::new();
    copy_segments(path, 0, kept, &mut full);
    let mut append = path_append;
    let ghost before = full@;
    full.append(&mut append);
    proof {
        assert(segs(full@) =~= segs(before) + segs(path_append@));
        assert(segs(before) =~= segs(path@).subrange(0, kept as int));
    }
    from_absolute_path_reference(full)
}

/// The same key under the holder's path with its last segment swapped for
/// `swap_parent`; the root subtree has no segment to swap.
pub fn from_cousin_reference(path: Vec<Vec<u8>>, key: Key, swap_parent: Key) -> (r: Result<
    Element,
    ReferenceWithoutKey,
>)
    ensures
        path@.len() == 0 ==> r is Err,
        path@.len() > 0 ==> r is Ok && is_reference_to(
            r->Ok_0,
            segs(path@).drop_last().push(swap_parent@),
            key@,
        ),
{
    let mut path = path;
    let ghost full = segs(path@);
    match path.pop() {
        Some(_) => {
            path.push(swap_parent);
            proof {
                assert(segs(path@) =~= full.drop_last().push(swap_parent@));
            }
            Ok(Element::Reference { path: Path(path), key })
        },
        None => Err(ReferenceWithoutKey),
    }
}

/// The same key under the holder's path with its last segment replaced by
/// the segments of `swap_parent`; the root subtree has no segment to replace.
pub fn from_removed_cousin_reference(path: Vec<Vec<u8>>, key: Key, swap_parent: Vec<Vec<u8>>) -> (r:
    Result<Element, ReferenceWithoutKey>)
    ensures
        path@.len() == 0 ==> r is Err,
        path@.len() > 0 ==> r is Ok && is_reference_to(
            r->Ok_0,
            segs(path@).drop_last() + segs(swap_parent@),
            key@,
        ),
{
    let mut path = path;
    let ghost full = segs(path@);
    match path.pop() {
        Some(_) => {
            let ghost before = path@;
            let mut tail = swap_parent;
            path.append(&mut tail);
            proof {
                assert(segs(before) =~= full.drop_last());
                assert(segs(path@) =~= segs(before) + segs(swap_parent@));
            }
            Ok(Element::Reference { path: Path(path), key })
        },
        None => Err(ReferenceWithoutKey),
    }
}

/// Another key in the holder's own subtree.
pub fn from_sibling_reference(path: Vec<Vec<u8>>, sibling_key: Key) -> (r: Element)
    ensures
        is_reference_to(r, segs(path@), sibling_key@),
{
    Element::Reference { path: Path(path), key: sibling_key }
}

impl Element {
    /// The element of a record held at `key` in the subtree at `path`, with
    /// relative references resolved.
    pub fn from_remote(element: RemoteElement, path: &[Vec<u8>], key: &[u8]) -> (r: Result<
        Element,
        ReferenceWithoutKey,
    >)
        ensures
            converts_to(element, segs(path@), key@, r),
    {
        match element {
            RemoteElement::Subtree { root_key } => Ok(Element::Subtree { root_key }),
            RemoteElement::Sumtree { root_key, sum } => Ok(Element::Sumtree { root_key, sum }),
            RemoteElement::Item { value } => Ok(Element::Item { value }),
            RemoteElement::SumItem { value } => Ok(Element::SumItem { value }),
            RemoteElement::AbsolutePathReference { path: full } => from_absolute_path_reference(full),
            RemoteElement::UpstreamRootHeightReference { n_keep, path_append } =>
                from_upstream_root_height_reference(path, n_keep, path_append),
            RemoteElement::UpstreamFromElementHeightReference { n_remove, path_append } =>
                from_upstream_element_height_reference(path, n_remove, path_append),
            RemoteElement::CousinReference { swap_parent } => {
                let mut p: Vec<Vec<u8>> = Vec::new();
                copy_segments(path, 0, path.len(), &mut p);
                proof {
                    assert(segs(p@) =~= segs(path@));
                }
                from_cousin_reference(p, crate::keys::copy_bytes(key), swap_parent)
            },
            RemoteElement::RemovedCousinReference { swap_parent } => {
                let mut p: Vec<Vec<u8>> = Vec::new();
                copy_segments(path, 0, path.len(), &mut p);
                proof {
                    assert(segs(p@) =~= segs(path@));
                }
                from_removed_cousin_reference(p, crate::keys::copy_bytes(key), swap_parent)
            },
            RemoteElement::SiblingReference { sibling_key } => {
                let mut p: Vec<Vec<u8>> = Vec::new();
                copy_segments(path, 0, path.len(), &mut p);
                proof {
                    assert(segs(p@) =~= segs(path@));
                }
                Ok(from_sibling_reference(p, sibling_key))
            },
        }
    }
}

impl Node {
    /// The node of a wire record: its element (references resolved against
    /// the record's path and key) and its children.
    pub fn from_update(update: NodeUpdate) -> (r: Result<Node, BadProtoElement>)
        ensures
            match r {
                Ok(n) => converts_to(
                    update.element,
                    segs(update.path@),
                    update.key@,
                    Ok::<Element, ReferenceWithoutKey>(n.element),
                ) && n.left_child == update.left_child && n.right_child == update.right_child,
                Err(_) => converts_to(
                    update.element,
                    segs(update.path@),
                    update.key@,
                    Err::<Element, ReferenceWithoutKey>(ReferenceWithoutKey),
                ),
            },
    {
        let NodeUpdate { path, key, element, left_child, right_child } = update;
        match Element::from_remote(element, path.as_slice(), key.as_slice()) {
            Ok(element) => Ok(Node { element, left_child, right_child }),
            Err(_) => Err(BadProtoElement::EmptyPathReference),
        }
    }
}

} // verus!
