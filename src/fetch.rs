//! What the fetching side decides: the commands it accepts, and the
//! breadth-first walk that fetches a whole branch of one subtree. Performing
//! the requests is left to the caller, which hands each answer back.

use crate::keys::{Key, Path, SortKey};
use crate::subtree::Node;
use crate::tree::{tree_inserted, Tree};
use std::collections::VecDeque;
use vstd::prelude::*;

verus! {

/// Commands that the presentation side sends to the fetching side.
pub enum Message {
    FetchRoot,
    FetchNode { path: Path, key: Key },
    FetchBranch { path: Path, key: Key },
    UnloadSubtree { path: Path },
}

/// Views of a sequence of keys.
pub open spec fn key_views(s: Seq<Key>) -> Seq<Seq<u8>> {
    s.map_values(|k: Key| k@)
}

/// Keys a node names as children, left first.
pub open spec fn child_keys(n: Node) -> Seq<Seq<u8>> {
    let left = match n.left_child {
        Some(k) => seq![k@],
        None => Seq::empty(),
    };
    let right = match n.right_child {
        Some(k) => seq![k@],
        None => Seq::empty(),
    };
    left + right
}

/// The tree after inserting `items` in order into the subtree at `path`.
pub open spec fn inserted_all(
    t: Map<Seq<Seq<u8>>, crate::subtree::SubtreeView>,
    path: Seq<Seq<u8>>,
    items: Seq<(Seq<u8>, Node)>,
) -> Map<Seq<Seq<u8>>, crate::subtree::SubtreeView>
    decreases items.len(),
{
    if items.len() == 0 {
        t
    } else {
        inserted_all(tree_inserted(t, path, items[0].0, items[0].1), path, items.drop_first())
    }
}

/// Breadth-first fetch of a branch: keys still to request, in order, and the
/// nodes received so far.
pub struct BranchFetch {
    path: Path,
    queue: VecDeque<Key>,
    fetched: Vec<(Key, Node)>,
}

impl BranchFetch {
    /// Keys still to request, in order.
    pub closed spec fn pending(self) -> Seq<Seq<u8>> {
        key_views(self.queue@)
    }

    /// Nodes received so far, with their keys, in order of arrival.
    pub closed spec fn received(self) -> Seq<(Seq<u8>, Node)> {
        self.fetched@.map_values(|e: (Key, Node)| (e.0@, e.1))
    }

    /// Path of the subtree being walked.
    pub closed spec fn subtree_path(self) -> Seq<Seq<u8>> {
        self.path@
    }

    /// Starts at `key` in the subtree at `path`.
    pub fn new(path: Path, key: Key) -> (r: BranchFetch)
        ensures
            r.subtree_path() == path@,
            r.pending() == seq![key@],
            r.received() == Seq::<(Seq<u8>, Node)>::empty(),
    {
        let mut queue: VecDeque<Key> = VecDeque::new();
        queue.push_back(key);
        let r = BranchFetch { path, queue, fetched: Vec::new() };
        assert(r.pending() =~= seq![key@]);
        assert(r.received() =~= Seq::<(Seq<u8>, Node)>::empty());
        r
    }

    /// Path of the subtree being walked.
    pub fn path(&self) -> (r: &Path)
        ensures
            r@ == self.subtree_path(),
    {
        &self.path
    }

    /// Whether every requested key has been answered.
    pub fn is_done(&self) -> (r: bool)
        ensures
            r == (self.pending().len() == 0),
    {
        self.queue.len() == 0
    }

    /// The next key to request, taken off the queue.
    pub fn next_request(&mut self) -> (r: Option<Key>)
        ensures
            final(self).subtree_path() == old(self).subtree_path(),
            final(self).received() == old(self).received(),
            old(self).pending().len() == 0 ==> r is None,
            old(self).pending().len() == 0 ==> final(self).pending() == old(self).pending(),
            old(self).pending().len() > 0 ==> r is Some && r->0@ == old(self).pending()[0]
                && final(self).pending() == old(self).pending().drop_first(),
    {
        let r = self.queue.pop_front();
        assert(self.pending() =~= if old(self).pending().len() == 0 {
            old(self).pending()
        } else {
            old(self).pending().drop_first()
        });
        r
    }

    /// Records the answer for `key`: a node queues its children (left first)
    /// and is kept for insertion; no node means the key is skipped.
    pub fn on_response(&mut self, key: Key, response: Option<Node>)
        ensures
            final(self).subtree_path() == old(self).subtree_path(),
            response is None ==> final(self).pending() == old(self).pending(),
            response is None ==> final(self).received() == old(self).received(),
            response is Some ==> final(self).pending() == old(self).pending() + child_keys(response->0),
            response is Some ==> final(self).received() == old(self).received().push((key@, response->0)),
    {
        match response {
            None => {},
            Some(node) => {
                let ghost n = node;
                if let Some(left) = &node.left_child {
                    self.queue.push_back(crate::keys::copy_bytes(left.as_slice()));
                }
                if let Some(right) = &node.right_child {
                    self.queue.push_back(crate::keys::copy_bytes(right.as_slice()));
                }
                assert(self.pending() =~= old(self).pending() + child_keys(n));
                self.fetched.push((key, node));
                assert(self.received() =~= old(self).received().push((key@, n)));
            },
        }
    }

    /// Inserts the received nodes, in order of arrival, into the subtree at
    /// the walked path.
    pub fn apply(self, tree: &mut Tree)
        requires
            old(tree).wf(),
        ensures
            final(tree).wf(),
            final(tree)@ == inserted_all(old(tree)@, self.subtree_path(), self.received()),
    {
        let ghost all = self.received();
        let BranchFetch { path, queue: _, fetched } = self;
        let mut fetched = fetched;
        while fetched.len() > 0
            invariant
                tree.wf(),
                inserted_all(tree@, path@, fetched@.map_values(|e: (Key, Node)| (e.0@, e.1)))
                    == inserted_all(old(tree)@, path@, all),
            decreases fetched@.len(),
        {
            let ghost rest = fetched@.map_values(|e: (Key, Node)| (e.0@, e.1));
            let (key, node) = fetched.remove(0);
            proof {
                assert(fetched@.map_values(|e: (Key, Node)| (e.0@, e.1)) =~= rest.drop_first());
            }
            tree.insert(path.copy_key(), key, node);
        }
    }
}

} // verus!
