//! One binary tree's local bookkeeping: the nodes known so far, the declared
//! root, the roots of parentless clusters, and the keys that known nodes name
//! as children but that have not arrived yet.

use crate::key_set::KeySet;
use crate::keys::{copy_bytes, key_lt, same_bytes, Key, Path};
use crate::sorted_map::SortedMap;
use vstd::prelude::*;

verus! {

/// The value a node holds.
#[allow(inconsistent_fields)]
#[derive(Debug, Clone, PartialEq, Eq)]
pub enum Element {
    /// Scalar value, arbitrary bytes.
    Item { value: Vec<u8> },
    /// Item that is summed up by the sum tree holding it.
    SumItem { value: i64 },
    /// Reference to a node of another (or the same) subtree.
    Reference { path: Path, key: Key },
    /// Link to a deeper subtree that keeps the sum of its sum items; no root
    /// key for an empty subtree.
    Sumtree { root_key: Option<Key>, sum: i64 },
    /// Link to a deeper subtree; no root key for an empty subtree.
    Subtree { root_key: Option<Key> },
    /// Stands for a link to a deeper subtree that is known to exist but has not
    /// been fetched.
    SubtreePlaceholder,
}

impl Default for Element {
    fn default() -> (r: Element)
        ensures
            r == Element::SubtreePlaceholder,
    {
        Element::SubtreePlaceholder
    }
}

/// One vertex of a binary tree: an element and the keys of its children in
/// the same subtree.
#[derive(Debug, Clone, PartialEq, Eq)]
pub struct Node {
    pub element: Element,
    pub left_child: Option<Key>,
    pub right_child: Option<Key>,
}

/// The view of an optional key.
pub open spec fn opt_key(k: Option<Key>) -> Option<Seq<u8>> {
    match k {
        Some(k) => Some(k@),
        None => None,
    }
}

/// An optional key as a set of zero or one keys.
pub open spec fn opt_key_set(k: Option<Key>) -> Set<Seq<u8>> {
    match k {
        Some(k) => Set::empty().insert(k@),
        None => Set::empty(),
    }
}

impl Node {
    /// Keys that the node names as children.
    pub open spec fn children(self) -> Set<Seq<u8>> {
        opt_key_set(self.left_child).union(opt_key_set(self.right_child))
    }

    /// A node that stands for a child subtree not fetched yet.
    pub open spec fn placeholder() -> Node {
        Node { element: Element::SubtreePlaceholder, left_child: None, right_child: None }
    }

    pub fn new_element(element: Element) -> (r: Node)
        ensures
            r == (Node { element, left_child: None, right_child: None }),
    {
        Node { element, left_child: None, right_child: None }
    }

    pub fn new_item(value: Vec<u8>) -> (r: Node)
        ensures
            r == (Node { element: Element::Item { value }, left_child: None, right_child: None }),
    {
        Node::new_element(Element::Item { value })
    }

    pub fn new_sum_item(value: i64) -> (r: Node)
        ensures
            r == (Node { element: Element::SumItem { value }, left_child: None, right_child: None }),
    {
        Node::new_element(Element::SumItem { value })
    }

    pub fn new_reference(path: Path, key: Key) -> (r: Node)
        ensures
            r == (Node {
                element: Element::Reference { path, key },
                left_child: None,
                right_child: None,
            }),
    {
        Node::new_element(Element::Reference { path, key })
    }

    pub fn new_sumtree(root_key: Option<Key>, sum: i64) -> (r: Node)
        ensures
            r == (Node {
                element: Element::Sumtree { root_key, sum },
                left_child: None,
                right_child: None,
            }),
    {
        Node::new_element(Element::Sumtree { root_key, sum })
    }

    pub fn new_subtree(root_key: Option<Key>) -> (r: Node)
        ensures
            r == (Node {
                element: Element::Subtree { root_key },
                left_child: None,
                right_child: None,
            }),
    {
        Node::new_element(Element::Subtree { root_key })
    }

    pub fn new_subtree_placeholder() -> (r: Node)
        ensures
            r == Node::placeholder(),
    {
        Node::new_element(Element::SubtreePlaceholder)
    }

    pub fn with_left_child(self, key: Key) -> (r: Node)
        ensures
            r == (Node { left_child: Some(key), ..self }),
    {
        Node { left_child: Some(key), ..self }
    }

    pub fn with_right_child(self, key: Key) -> (r: Node)
        ensures
            r == (Node { right_child: Some(key), ..self }),
    {
        Node { right_child: Some(key), ..self }
    }
}

/// Mathematical state of a subtree.
pub struct SubtreeView {
    pub root_node: Option<Seq<u8>>,
    pub cluster_roots: Set<Seq<u8>>,
    pub nodes: Map<Seq<u8>, Node>,
    pub waitlist: Set<Seq<u8>>,
}

impl SubtreeView {
    /// Nothing known, no root.
    pub open spec fn empty() -> SubtreeView {
        SubtreeView {
            root_node: None,
            cluster_roots: Set::empty(),
            nodes: Map::empty(),
            waitlist: Set::empty(),
        }
    }

    /// Nothing is known and awaited at once, and every cluster root is a
    /// known node.
    pub open spec fn consistent(self) -> bool {
        &&& self.waitlist.disjoint(self.nodes.dom())
        &&& self.cluster_roots.subset_of(self.nodes.dom())
    }

    /// State after `Subtree::remove(k)`.
    pub open spec fn removed(self, k: Seq<u8>) -> SubtreeView {
        if !self.nodes.contains_key(k) {
            self
        } else {
            let children = self.nodes[k].children();
            let nodes = self.nodes.remove(k);
            let cluster_roots = self.cluster_roots.union(children.intersect(nodes.dom()));
            let waitlist = self.waitlist.difference(children);
            if self.root_node != Some(k) && !cluster_roots.contains(k) {
                SubtreeView {
                    root_node: self.root_node,
                    cluster_roots,
                    nodes,
                    waitlist: waitlist.insert(k),
                }
            } else {
                SubtreeView {
                    root_node: self.root_node,
                    cluster_roots: cluster_roots.remove(k),
                    nodes,
                    waitlist,
                }
            }
        }
    }

    /// State after `Subtree::insert(k, n)`.
    pub open spec fn inserted(self, k: Seq<u8>, n: Node) -> SubtreeView {
        let s = self.removed(k);
        let children = n.children();
        let cluster_roots = if !s.waitlist.contains(k) && s.root_node != Some(k) {
            s.cluster_roots.insert(k)
        } else {
            s.cluster_roots
        };
        SubtreeView {
            root_node: s.root_node,
            cluster_roots: cluster_roots.difference(children),
            nodes: s.nodes.insert(k, n),
            waitlist: s.waitlist.remove(k).union(children.difference(s.nodes.dom())),
        }
    }

    /// State after `Subtree::set_root(k)`.
    pub open spec fn with_root(self, k: Seq<u8>) -> SubtreeView {
        SubtreeView { root_node: Some(k), cluster_roots: self.cluster_roots.remove(k), ..self }
    }

    /// State after unloading: no nodes, nothing awaited, no clusters; the root
    /// key stays.
    pub open spec fn cleared(self) -> SubtreeView {
        SubtreeView { root_node: self.root_node, ..SubtreeView::empty() }
    }
}

/// Bookkeeping of one binary tree, built up from nodes that may arrive in any
/// order.
#[derive(Debug, PartialEq, Eq)]
pub struct Subtree {
    root_node: Option<Key>,
    cluster_roots: KeySet,
    nodes: SortedMap<Key, Node>,
    waitlist: KeySet,
}

impl View for Subtree {
    type V = SubtreeView;

    closed spec fn view(&self) -> SubtreeView {
        SubtreeView {
            root_node: opt_key(self.root_node),
            cluster_roots: self.cluster_roots@,
            nodes: self.nodes.view(),
            waitlist: self.waitlist@,
        }
    }
}

impl Subtree {
    /// The sets and the map are well formed.
    pub closed spec fn wf(self) -> bool {
        &&& self.cluster_roots.wf()
        &&& self.nodes.wf()
        &&& self.waitlist.wf()
    }

    /// Known node keys in increasing order.
    pub closed spec fn node_keys(self) -> Seq<Seq<u8>> {
        self.nodes.key_seq()
    }

    /// Cluster roots in increasing order.
    pub closed spec fn cluster_root_keys(self) -> Seq<Seq<u8>> {
        self.cluster_roots.key_seq()
    }

    pub proof fn lemma_node_keys(self)
        requires
            self.wf(),
        ensures
            self.node_keys().to_set() == self@.nodes.dom(),
            self.node_keys().len() == self@.nodes.len(),
    {
        self.nodes.lemma_len();
    }

    pub proof fn lemma_n_nodes_bounded(self)
        requires
            self.wf(),
        ensures
            self@.nodes.len() <= usize::MAX,
            self@.cluster_roots.len() <= usize::MAX,
    {
        self.nodes.lemma_len();
        self.nodes.lemma_size_bounded();
        self.cluster_roots.lemma_len_bounded();
    }

    /// Cluster roots come in strictly increasing key order.
    pub proof fn lemma_cluster_root_keys_sorted(self)
        requires
            self.wf(),
        ensures
            forall|i: int, j: int|
                0 <= i < j < self.cluster_root_keys().len() ==> key_lt(
                    #[trigger] self.cluster_root_keys()[i],
                    #[trigger] self.cluster_root_keys()[j],
                ),
    {
        self.cluster_roots.lemma_sorted();
    }

    pub proof fn lemma_cluster_root_keys(self)
        requires
            self.wf(),
        ensures
            self.cluster_root_keys().to_set() == self@.cluster_roots,
            self.cluster_root_keys().len() == self@.cluster_roots.len(),
    {
        self.cluster_roots.lemma_key_seq();
    }

    /// An empty subtree whose root is not known.
    pub fn new() -> (r: Subtree)
        ensures
            r.wf(),
            r@ == SubtreeView::empty(),
    {
        Subtree {
            root_node: None,
            cluster_roots: KeySet::new(),
            nodes: SortedMap::new(),
            waitlist: KeySet::new(),
        }
    }

    /// An empty subtree whose root key is known.
    pub fn new_root(root_node: Key) -> (r: Subtree)
        ensures
            r.wf(),
            r@ == SubtreeView::empty().with_root(root_node@),
    {
        let r = Subtree {
            root_node: Some(root_node),
            cluster_roots: KeySet::new(),
            nodes: SortedMap::new(),
            waitlist: KeySet::new(),
        };
        assert(r@.cluster_roots =~= Set::<Seq<u8>>::empty().remove(root_node@));
        r
    }

    /// No node is known.
    pub fn is_empty(&self) -> (r: bool)
        requires
            self.wf(),
        ensures
            r == (self@.nodes.len() == 0),
    {
        self.nodes.is_empty()
    }

    /// Number of known nodes.
    pub fn n_nodes(&self) -> (r: usize)
        requires
            self.wf(),
        ensures
            r == self@.nodes.len(),
    {
        self.nodes.len()
    }

    /// Number of cluster roots.
    pub fn n_cluster_roots(&self) -> (r: usize)
        requires
            self.wf(),
        ensures
            r == self@.cluster_roots.len(),
    {
        self.cluster_roots.len()
    }

    /// Number of awaited keys.
    pub fn n_awaited(&self) -> (r: usize)
        requires
            self.wf(),
        ensures
            r == self@.waitlist.len(),
    {
        self.waitlist.len()
    }

    /// The declared root key.
    pub fn root_key(&self) -> (r: Option<&Key>)
        ensures
            match r {
                Some(k) => self@.root_node == Some(k@),
                None => self@.root_node is None,
            },
    {
        self.root_node.as_ref()
    }

    fn is_root_key(&self, key: &[u8]) -> (r: bool)
        ensures
            r == (self@.root_node == Some(key@)),
    {
        match &self.root_node {
            Some(root) => same_bytes(root.as_slice(), key),
            None => false,
        }
    }

    /// The known node under `key`.
    pub fn get_node(&self, key: &[u8]) -> (r: Option<&Node>)
        requires
            self.wf(),
        ensures
            match r {
                Some(n) => self@.nodes.contains_key(key@) && *n == self@.nodes[key@],
                None => !self@.nodes.contains_key(key@),
            },
    {
        let k = copy_bytes(key);
        self.nodes.get(&k)
    }

    /// Whether a node is known under `key`.
    pub fn contains_node(&self, key: &[u8]) -> (r: bool)
        requires
            self.wf(),
        ensures
            r == self@.nodes.contains_key(key@),
    {
        let k = copy_bytes(key);
        self.nodes.contains_key(&k)
    }

    /// Whether `key` is named as a child but not known yet.
    pub fn is_awaited(&self, key: &[u8]) -> (r: bool)
        requires
            self.wf(),
        ensures
            r == self@.waitlist.contains(key@),
    {
        let k = copy_bytes(key);
        self.waitlist.contains(&k)
    }

    /// Whether `key` is the root of a cluster.
    pub fn is_cluster_root(&self, key: &[u8]) -> (r: bool)
        requires
            self.wf(),
        ensures
            r == self@.cluster_roots.contains(key@),
    {
        let k = copy_bytes(key);
        self.cluster_roots.contains(&k)
    }

    /// The root node, if its key is declared and the node is known.
    pub fn root_node(&self) -> (r: Option<&Node>)
        requires
            self.wf(),
        ensures
            match r {
                Some(n) => {
                    &&& self@.root_node is Some
                    &&& self@.nodes.contains_key(self@.root_node->0)
                    &&& *n == self@.nodes[self@.root_node->0]
                },
                None => self@.root_node is None || !self@.nodes.contains_key(self@.root_node->0),
            },
    {
        match &self.root_node {
            Some(k) => self.nodes.get(k),
            None => None,
        }
    }

    /// The `i`-th known node in key order, with its key.
    pub fn node_at(&self, i: usize) -> (r: (&Key, &Node))
        requires
            self.wf(),
            i < self.node_keys().len(),
        ensures
            r.0@ == self.node_keys()[i as int],
            self@.nodes.contains_key(r.0@),
            *r.1 == self@.nodes[r.0@],
    {
        proof {
            self.nodes.lemma_len();
            self.nodes.lemma_entry(i as int);
        }
        self.nodes.entry(i)
    }

    /// The cluster roots in key order.
    pub fn cluster_root_key_list(&self) -> (r: Vec<Key>)
        requires
            self.wf(),
        ensures
            r@.map_values(|k: Key| k@) == self.cluster_root_keys(),
            self.cluster_root_keys().to_set() == self@.cluster_roots,
    {
        proof {
            self.cluster_roots.lemma_key_seq();
        }
        let mut r: Vec<Key> = Vec::new();
        let mut i: usize = 0;
        while i < self.cluster_roots.len()
            invariant
                self.wf(),
                i <= self.cluster_root_keys().len(),
                self.cluster_root_keys().len() == self@.cluster_roots.len(),
                r@.len() == i,
                forall|j: int| 0 <= j < i ==> #[trigger] r@[j]@ == self.cluster_root_keys()[j],
            decreases self.cluster_root_keys().len() - i,
        {
            let k = self.cluster_roots.key(i);
            r.push(copy_bytes(k.as_slice()));
            i = i + 1;
        }
        assert(r@.map_values(|k: Key| k@) =~= self.cluster_root_keys());
        r
    }

    /// The nodes of the cluster roots, each once, in increasing key order
    /// (cluster roots whose node is not known are passed over).
    pub fn iter_cluster_roots(&self) -> (r: Vec<&Node>)
        requires
            self.wf(),
        ensures
            r@.len() <= self@.cluster_roots.len(),
            self@.cluster_roots.subset_of(self@.nodes.dom()) ==> r@.len() == self.cluster_root_keys().len(),
            self@.cluster_roots.subset_of(self@.nodes.dom()) ==> forall|i: int|
                0 <= i < r@.len() ==> *#[trigger] r@[i] == self@.nodes[self.cluster_root_keys()[i]],
    {
        proof {
            self.cluster_roots.lemma_key_seq();
        }
        let mut r: Vec<&Node> = Vec::new();
        let mut i: usize = 0;
        let n = self.cluster_roots.len();
        while i < n
            invariant
                self.wf(),
                n == self.cluster_root_keys().len(),
                n == self@.cluster_roots.len(),
                self.cluster_root_keys().to_set() == self@.cluster_roots,
                i <= n,
                r@.len() <= i,
                self@.cluster_roots.subset_of(self@.nodes.dom()) ==> r@.len() == i,
                self@.cluster_roots.subset_of(self@.nodes.dom()) ==> forall|j: int|
                    0 <= j < r@.len() ==> *#[trigger] r@[j] == self@.nodes[self.cluster_root_keys()[j]],
            decreases n - i,
        {
            let k = self.cluster_roots.key(i);
            proof {
                assert(self.cluster_root_keys().to_set().contains(k@));
            }
            match self.nodes.get(k) {
                Some(node) => {
                    r.push(node);
                },
                None => {},
            }
            i = i + 1;
        }
        r
    }

    /// Declares `root` the root of this subtree; it is no cluster root then.
    pub fn set_root(&mut self, root: Key)
        requires
            old(self).wf(),
        ensures
            final(self).wf(),
            final(self)@ == old(self)@.with_root(root@),
    {
        self.cluster_roots.remove(&root);
        self.root_node = Some(root);
    }

    /// Forgets every node, and with them the clusters and awaited keys; the
    /// root key stays.
    pub fn clear(&mut self)
        requires
            old(self).wf(),
        ensures
            final(self).wf(),
            final(self)@ == old(self)@.cleared(),
    {
        self.nodes.clear();
        self.cluster_roots.clear();
        self.waitlist.clear();
        assert(self@.nodes =~= Map::<Seq<u8>, Node>::empty());
    }

    /// Removes the node under `key`. Its known children become cluster
    /// roots and are no longer awaited; the key itself becomes awaited unless
    /// it is the root or a cluster root, in which case it is dropped.
    pub fn remove(&mut self, key: &[u8])
        requires
            old(self).wf(),
        ensures
            final(self).wf(),
            final(self)@ == old(self)@.removed(key@),
    {
        let k = copy_bytes(key);
        let ghost s0 = self@;
        let removed = self.nodes.remove(&k);
        match removed {
            None => {
                assert(self@.nodes =~= s0.nodes);
            },
            Some(node) => {
                let ghost children = node.children();
                let ghost nodes1 = s0.nodes.remove(key@);
                if let Some(child) = &node.left_child {
                    self.waitlist.remove(child);
                }
                if let Some(child) = &node.right_child {
                    self.waitlist.remove(child);
                }
                assert(self@.waitlist =~= s0.waitlist.difference(children));
                if let Some(child) = &node.left_child {
                    if self.nodes.contains_key(child) {
                        self.cluster_roots.insert(copy_bytes(child.as_slice()));
                    }
                }
                if let Some(child) = &node.right_child {
                    if self.nodes.contains_key(child) {
                        self.cluster_roots.insert(copy_bytes(child.as_slice()));
                    }
                }
                assert(self@.cluster_roots =~= s0.cluster_roots.union(
                    children.intersect(nodes1.dom()),
                ));
                let is_root = self.is_root_key(key);
                if !is_root && !self.cluster_roots.contains(&k) {
                    self.waitlist.insert(k);
                } else {
                    self.cluster_roots.remove(&k);
                }
            },
        }
    }

    /// Inserts `node` under `key`, first removing any node there. The key
    /// stops being awaited, or else becomes a cluster root unless it is the
    /// root; the node's children become awaited where unknown and stop being
    /// cluster roots.
    pub fn insert(&mut self, key: Key, node: Node)
        requires
            old(self).wf(),
        ensures
            final(self).wf(),
            final(self)@ == old(self)@.inserted(key@, node),
    {
        self.remove(key.as_slice());
        let ghost s = self@;
        let ghost children = node.children();
        let was_awaited = self.waitlist.remove(&key);
        if !was_awaited {
            if !self.is_root_key(key.as_slice()) {
                self.cluster_roots.insert(copy_bytes(key.as_slice()));
            }
        }
        if let Some(child) = &node.left_child {
            if !self.nodes.contains_key(child) {
                self.waitlist.insert(copy_bytes(child.as_slice()));
            }
            self.cluster_roots.remove(child);
        }
        if let Some(child) = &node.right_child {
            if !self.nodes.contains_key(child) {
                self.waitlist.insert(copy_bytes(child.as_slice()));
            }
            self.cluster_roots.remove(child);
        }
        self.nodes.insert(key, node);
        proof {
            let cr = if !s.waitlist.contains(key@) && s.root_node != Some(key@) {
                s.cluster_roots.insert(key@)
            } else {
                s.cluster_roots
            };
            assert(self@.cluster_roots =~= cr.difference(children));
            assert(self@.waitlist =~= s.waitlist.remove(key@).union(
                children.difference(s.nodes.dom()),
            ));
        }
    }

    /// Inserts `node` under `key` only where no node is known there yet.
    pub fn insert_not_exists(&mut self, key: Key, node: Node)
        requires
            old(self).wf(),
        ensures
            final(self).wf(),
            old(self)@.nodes.contains_key(key@) ==> final(self)@ == old(self)@,
            !old(self)@.nodes.contains_key(key@) ==> final(self)@ == old(self)@.inserted(key@, node),
    {
        if !self.nodes.contains_key(&key) {
            self.insert(key, node);
        }
    }
}

} // verus!
