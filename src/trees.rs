//! A coarser view of the structure: subtrees as vertices of one tree, each
//! holding its own binary tree of nodes, with per-level subtree counts.

use crate::key_set::KeySet;
use crate::keys::{copy_bytes, Key, Path, SortKey};
use crate::sorted_map::SortedMap;
use crate::subtree::opt_key;
use vstd::prelude::*;

verus! {

/// Value of a node of an inner tree.
pub enum InnerTreeNodeValue {
    Scalar(Vec<u8>),
    Subtree(Option<Key>),
    Reference(Path, Key),
}

/// Node of an inner tree: a value and the keys of its children.
pub struct InnerTreeNode {
    pub value: InnerTreeNodeValue,
    pub left: Option<Key>,
    pub right: Option<Key>,
}

/// The binary tree of nodes inside one subtree.
pub struct InnerTree {
    pub root_node_key: Option<Key>,
    pub nodes: SortedMap<Key, InnerTreeNode>,
}

/// A subtree as a vertex: where it hangs, which child subtrees and which
/// referenced keys it is known to have, and its nodes.
pub struct SubtreeNode {
    pub key: Option<Key>,
    pub parent_path: Option<Path>,
    pub children: KeySet,
    pub inner_tree: InnerTree,
    pub referred_keys: KeySet,
}

/// Mathematical state of a `SubtreeNode`.
pub struct SubtreeNodeView {
    pub key: Option<Seq<u8>>,
    pub parent_path: Option<Seq<Seq<u8>>>,
    pub children: Set<Seq<u8>>,
    pub root_node_key: Option<Seq<u8>>,
    pub nodes: Map<Seq<u8>, InnerTreeNode>,
    pub referred_keys: Set<Seq<u8>>,
}

/// Subtrees by path, how many subtrees were made on each level, and two
/// flags for the renderer.
pub struct Tree {
    pub subtrees: SortedMap<Path, SubtreeNode>,
    pub levels_count: Vec<usize>,
    pub updated: bool,
    pub max_children_count: usize,
}

impl InnerTree {
    pub closed spec fn wf(self) -> bool {
        self.nodes.wf()
    }

    pub closed spec fn nodes_view(self) -> Map<Seq<u8>, InnerTreeNode> {
        self.nodes.view()
    }

    /// No root and no nodes.
    pub fn new() -> (r: InnerTree)
        ensures
            r.wf(),
            r.root_node_key is None,
            r.nodes_view() == Map::<Seq<u8>, InnerTreeNode>::empty(),
    {
        InnerTree { root_node_key: None, nodes: SortedMap::new() }
    }

    /// The node under `key`.
    pub fn get(&self, key: &Key) -> (r: Option<&InnerTreeNode>)
        requires
            self.wf(),
        ensures
            match r {
                Some(n) => self.nodes_view().contains_key(key@) && *n == self.nodes_view()[key@],
                None => !self.nodes_view().contains_key(key@),
            },
    {
        self.nodes.get(key)
    }

    /// The root node, if its key is set and the node is there.
    pub fn root_node(&self) -> (r: Option<&InnerTreeNode>)
        requires
            self.wf(),
        ensures
            match r {
                Some(n) => self.root_node_key is Some && self.nodes_view().contains_key(
                    self.root_node_key->0@,
                ) && *n == self.nodes_view()[self.root_node_key->0@],
                None => self.root_node_key is None || !self.nodes_view().contains_key(
                    self.root_node_key->0@,
                ),
            },
    {
        match &self.root_node_key {
            Some(k) => self.nodes.get(k),
            None => None,
        }
    }
}

impl InnerTreeNode {
    /// The left child, if named and present in `inner_tree`.
    pub fn left_child<'t>(&self, inner_tree: &'t InnerTree) -> (r: Option<&'t InnerTreeNode>)
        requires
            inner_tree.wf(),
        ensures
            match r {
                Some(n) => self.left is Some && inner_tree.nodes_view().contains_key(self.left->0@)
                    && *n == inner_tree.nodes_view()[self.left->0@],
                None => self.left is None || !inner_tree.nodes_view().contains_key(self.left->0@),
            },
    {
        match &self.left {
            Some(k) => inner_tree.get(k),
            None => None,
        }
    }

    /// The right child, if named and present in `inner_tree`.
    pub fn right_child<'t>(&self, inner_tree: &'t InnerTree) -> (r: Option<&'t InnerTreeNode>)
        requires
            inner_tree.wf(),
        ensures
            match r {
                Some(n) => self.right is Some && inner_tree.nodes_view().contains_key(self.right->0@)
                    && *n == inner_tree.nodes_view()[self.right->0@],
                None => self.right is None || !inner_tree.nodes_view().contains_key(self.right->0@),
            },
    {
        match &self.right {
            Some(k) => inner_tree.get(k),
            None => None,
        }
    }
}

impl SubtreeNode {
    pub closed spec fn wf(self) -> bool {
        &&& self.children.wf()
        &&& self.inner_tree.wf()
        &&& self.referred_keys.wf()
    }

    pub open spec fn view(self) -> SubtreeNodeView {
        SubtreeNodeView {
            key: opt_key(self.key),
            parent_path: match self.parent_path {
                Some(p) => Some(p@),
                None => None,
            },
            children: self.children@,
            root_node_key: opt_key(self.inner_tree.root_node_key),
            nodes: self.inner_tree.nodes_view(),
            referred_keys: self.referred_keys@,
        }
    }
}

/// A new vertex for the subtree at `p`: its key is the last segment and its
/// parent path the rest (the empty path has no key and itself as parent).
pub open spec fn fresh_vertex(p: Seq<Seq<u8>>) -> SubtreeNodeView {
    SubtreeNodeView {
        key: if p.len() > 0 {
            Some(p.last())
        } else {
            None
        },
        parent_path: Some(
            if p.len() > 0 {
                p.drop_last()
            } else {
                p
            },
        ),
        children: Set::empty(),
        root_node_key: None,
        nodes: Map::empty(),
        referred_keys: Set::empty(),
    }
}

/// The count of level `l` raised by one, the counts first extended with
/// zeros up to `l`.
pub open spec fn bumped(levels: Seq<usize>, l: nat) -> Seq<usize> {
    let ext = if l >= levels.len() {
        levels + Seq::new((l + 1 - levels.len()) as nat, |i: int| 0usize)
    } else {
        levels
    };
    ext.update(l as int, (ext[l as int] + 1) as usize)
}

/// State after making sure the vertex at `p` exists; counts bump on level
/// `p.len()` when it is made.
pub open spec fn ensured(
    t: Map<Seq<Seq<u8>>, SubtreeNodeView>,
    levels: Seq<usize>,
    p: Seq<Seq<u8>>,
) -> (Map<Seq<Seq<u8>>, SubtreeNodeView>, Seq<usize>) {
    if t.contains_key(p) {
        (t, levels)
    } else {
        (t.insert(p, fresh_vertex(p)), bumped(levels, p.len()))
    }
}

/// Vertex at `p` with `k` added to its children.
pub open spec fn with_child(
    t: Map<Seq<Seq<u8>>, SubtreeNodeView>,
    p: Seq<Seq<u8>>,
    k: Seq<u8>,
) -> Map<Seq<Seq<u8>>, SubtreeNodeView> {
    t.insert(p, SubtreeNodeView { children: t[p].children.insert(k), ..t[p] })
}

/// Making sure the vertices of the prefixes of `path` from length `d` on
/// exist, each announcing the next segment as a child.
pub open spec fn chain_from(
    t: Map<Seq<Seq<u8>>, SubtreeNodeView>,
    levels: Seq<usize>,
    path: Seq<Seq<u8>>,
    d: nat,
) -> (Map<Seq<Seq<u8>>, SubtreeNodeView>, Seq<usize>)
    decreases path.len() - d,
{
    let pre = path.subrange(0, d as int);
    let (t1, l1) = ensured(t, levels, pre);
    if d >= path.len() {
        (t1, l1)
    } else {
        chain_from(with_child(t1, pre, path[d as int]), l1, path, d + 1)
    }
}

/// Where a reference held by an inserted node may point without failing:
/// at a vertex already there, or at a prefix of the insertion path.
pub open spec fn reference_target_known(
    t: Map<Seq<Seq<u8>>, SubtreeNodeView>,
    path: Seq<Seq<u8>>,
    node: InnerTreeNode,
) -> bool {
    match node.value {
        InnerTreeNodeValue::Reference(rp, _) => t.contains_key(rp@) || (rp@.len() <= path.len()
            && rp@ == path.subrange(0, rp@.len() as int)),
        _ => true,
    }
}

/// State after `Tree::insert(path, key, node)`.
pub open spec fn vertices_inserted(
    t: Map<Seq<Seq<u8>>, SubtreeNodeView>,
    levels: Seq<usize>,
    path: Seq<Seq<u8>>,
    key: Seq<u8>,
    node: InnerTreeNode,
) -> (Map<Seq<Seq<u8>>, SubtreeNodeView>, Seq<usize>) {
    let (t1, l1) = chain_from(t, levels, path, 0);
    let (t2, l2) = match node.value {
        InnerTreeNodeValue::Subtree(root_key) => {
            let cp = path.push(key);
            let (ta, la) = ensured(t1, l1, cp);
            let tb = ta.insert(cp, SubtreeNodeView { root_node_key: opt_key(root_key), ..ta[cp] });
            (with_child(tb, path, key), la)
        },
        _ => (t1, l1),
    };
    let t3 = match node.value {
        InnerTreeNodeValue::Reference(rp, rk) => t2.insert(
            rp@,
            SubtreeNodeView { referred_keys: t2[rp@].referred_keys.insert(rk@), ..t2[rp@] },
        ),
        _ => t2,
    };
    (t3.insert(path, SubtreeNodeView { nodes: t3[path].nodes.insert(key, node), ..t3[path] }), l2)
}

/// Largest count, zero for none.
pub open spec fn seq_max(s: Seq<usize>) -> nat
    decreases s.len(),
{
    if s.len() == 0 {
        0
    } else {
        let m = seq_max(s.drop_last());
        if s.last() > m {
            s.last() as nat
        } else {
            m
        }
    }
}

proof fn lemma_chain_contains(
    t: Map<Seq<Seq<u8>>, SubtreeNodeView>,
    levels: Seq<usize>,
    path: Seq<Seq<u8>>,
    d: nat,
)
    requires
        d <= path.len(),
    ensures
        forall|p: Seq<Seq<u8>>| #[trigger] t.contains_key(p) ==> chain_from(t, levels, path, d).0.contains_key(p),
        forall|j: int|
            d <= j <= path.len() ==> chain_from(t, levels, path, d).0.contains_key(
                #[trigger] path.subrange(0, j),
            ),
    decreases path.len() - d,
{
    let pre = path.subrange(0, d as int);
    let (t1, l1) = ensured(t, levels, pre);
    assert(t1.contains_key(pre));
    assert(forall|p: Seq<Seq<u8>>| t.contains_key(p) ==> t1.contains_key(p));
    if d < path.len() {
        let t2 = with_child(t1, pre, path[d as int]);
        assert(chain_from(t, levels, path, d) == chain_from(t2, l1, path, d + 1));
        assert(t2.contains_key(pre));
        lemma_chain_contains(t2, l1, path, d + 1);
        assert forall|p: Seq<Seq<u8>>| #[trigger] t.contains_key(p) implies chain_from(
            t,
            levels,
            path,
            d,
        ).0.contains_key(p) by {
            assert(t1.contains_key(p));
            assert(t2.contains_key(p));
        }
    } else {
        assert(chain_from(t, levels, path, d) == (t1, l1));
    }
}

impl Tree {
    pub closed spec fn wf(self) -> bool {
        &&& self.subtrees.wf()
        &&& forall|p: Seq<Seq<u8>>| #[trigger]
            self.subtrees.view().contains_key(p) ==> self.subtrees.view()[p].wf()
        &&& forall|l: int|
            0 <= l < self.levels_count@.len() ==> #[trigger] self.levels_count@[l]
                <= self.subtrees.size()
    }

    /// The vertices by path.
    pub closed spec fn vertices(self) -> Map<Seq<Seq<u8>>, SubtreeNodeView> {
        self.subtrees.view().map_values(|s: SubtreeNode| s.view())
    }

    /// A tree holding only the root subtree, whose inner tree has the given
    /// root key; one subtree on level zero.
    pub fn new(root_subtree_inner_tree_key: Key) -> (r: Tree)
        ensures
            r.wf(),
            r.vertices() == Map::<Seq<Seq<u8>>, SubtreeNodeView>::empty().insert(
                Seq::empty(),
                SubtreeNodeView {
                    key: None,
                    parent_path: None,
                    children: Set::empty(),
                    root_node_key: Some(root_subtree_inner_tree_key@),
                    nodes: Map::empty(),
                    referred_keys: Set::empty(),
                },
            ),
            r.levels_count@ == seq![1usize],
            r.updated,
            r.max_children_count == 1,
    {
        let root_node = SubtreeNode {
            key: None,
            parent_path: None,
            children: KeySet::new(),
            inner_tree: InnerTree { root_node_key: Some(root_subtree_inner_tree_key), nodes: SortedMap::new() },
            referred_keys: KeySet::new(),
        };
        let mut subtrees: SortedMap<Path, SubtreeNode> = SortedMap::new();
        subtrees.insert(Path::root(), root_node);
        let mut levels_count: Vec<usize> = Vec::new();
        levels_count.push(1);
        let r = Tree { subtrees, levels_count, updated: true, max_children_count: 1 };
        proof {
            r.subtrees.lemma_len();
            assert(r.subtrees.view().dom() =~= Set::empty().insert(Seq::<Seq<u8>>::empty()));
            assert(r.levels_count@ =~= seq![1usize]);
            assert(r.vertices() =~= Map::<Seq<Seq<u8>>, SubtreeNodeView>::empty().insert(
                Seq::empty(),
                root_node.view(),
            ));
        }
        r
    }

    /// The largest per-level count, zero when there are none.
    pub fn max_level_count(&self) -> (r: usize)
        ensures
            r == seq_max(self.levels_count@),
    {
        let mut m: usize = 0;
        let mut i: usize = 0;
        while i < self.levels_count.len()
            invariant
                i <= self.levels_count@.len(),
                m == seq_max(self.levels_count@.subrange(0, i as int)),
            decreases self.levels_count@.len() - i,
        {
            proof {
                let p = self.levels_count@.subrange(0, i + 1);
                assert(p.drop_last() =~= self.levels_count@.subrange(0, i as int));
                assert(p.last() == self.levels_count@[i as int]);
            }
            if self.levels_count[i] > m {
                m = self.levels_count[i];
            }
            i = i + 1;
        }
        assert(self.levels_count@.subrange(0, i as int) =~= self.levels_count@);
        m
    }

    /// The vertex at `path`.
    pub fn get_subtree(&self, path: &Path) -> (r: Option<&SubtreeNode>)
        requires
            self.wf(),
        ensures
            match r {
                Some(s) => self.vertices().contains_key(path@) && s.view() == self.vertices()[path@]
                    && s.wf(),
                None => !self.vertices().contains_key(path@),
            },
    {
        self.subtrees.get(path)
    }

    fn bump_level(&mut self, level: usize)
        requires
            old(self).wf(),
            forall|l: int|
                0 <= l < old(self).levels_count@.len() ==> #[trigger] old(self).levels_count@[l]
                    < old(self).subtrees.size(),
            level < usize::MAX,
            old(self).subtrees.size() >= 1,
        ensures
            final(self).wf(),
            final(self).subtrees == old(self).subtrees,
            final(self).levels_count@ == bumped(old(self).levels_count@, level as nat),
            final(self).updated == old(self).updated,
            final(self).max_children_count == old(self).max_children_count,
    {
        let ghost old_levels = self.levels_count@;
        if level >= self.levels_count.len() {
            self.levels_count.resize(level + 1, 0);
        }
        let ghost ext = if level >= old_levels.len() {
            old_levels + Seq::new((level + 1 - old_levels.len()) as nat, |i: int| 0usize)
        } else {
            old_levels
        };
        proof {
            self.subtrees.lemma_size_bounded();
            let ext2 = if level >= old_levels.len() {
                old_levels + Seq::new((level + 1 - old_levels.len()) as nat, |i: int| 0usize)
            } else {
                old_levels
            };
            assert(self.levels_count@ =~= ext2);
        }
        let c = self.levels_count[level];
        self.levels_count.set(level, c + 1);
        proof {
            assert forall|l: int| 0 <= l < self.levels_count@.len() implies #[trigger] self.levels_count@[l]
                <= self.subtrees.size() by {
                if l != level {
                    assert(self.levels_count@[l] == ext[l]);
                    if l < old_levels.len() {
                        assert(ext[l] == old_levels[l]);
                    } else {
                        assert(ext[l] == 0);
                    }
                } else if level < old_levels.len() {
                    assert(ext[l] == old_levels[l]);
                } else {
                    assert(ext[l] == 0);
                }
            }
        }
    }

    /// Makes sure the vertex at `p` exists, counting it on its level when
    /// made.
    fn ensure_vertex(&mut self, p: &Path)
        requires
            old(self).wf(),
            p@.len() < usize::MAX,
        ensures
            final(self).wf(),
            (final(self).vertices(), final(self).levels_count@) == ensured(
                old(self).vertices(),
                old(self).levels_count@,
                p@,
            ),
            final(self).updated == old(self).updated,
            final(self).max_children_count == old(self).max_children_count,
    {
        if !self.subtrees.contains_key(p) {
            let n = p.len();
            let vertex = SubtreeNode {
                key: if n > 0 {
                    Some(copy_bytes(p.segment(n - 1).as_slice()))
                } else {
                    None
                },
                parent_path: Some(
                    if n > 0 {
                        p.prefix(n - 1)
                    } else {
                        Path::root()
                    },
                ),
                children: KeySet::new(),
                inner_tree: InnerTree::new(),
                referred_keys: KeySet::new(),
            };
            let ghost vv = vertex.view();
            proof {
                if n > 0 {
                    assert(p@.subrange(0, n - 1) =~= p@.drop_last());
                } else {
                    assert(p@ =~= Seq::<Seq<u8>>::empty());
                }
                assert(vv == fresh_vertex(p@));
                self.subtrees.lemma_len();
            }
            self.subtrees.insert(p.copy_key(), vertex);
            proof {
                self.subtrees.lemma_len();
                assert(self.subtrees.view().dom() =~= old(self).subtrees.view().dom().insert(p@));
                assert(self.vertices() =~= old(self).vertices().insert(p@, fresh_vertex(p@)));
            }
            self.bump_level(n);
        }
    }

    /// Adds `k` to the children of the vertex at `p`, which exists.
    fn add_child(&mut self, p: &Path, k: &Key)
        requires
            old(self).wf(),
            old(self).vertices().contains_key(p@),
        ensures
            final(self).wf(),
            final(self).vertices() == with_child(old(self).vertices(), p@, k@),
            final(self).levels_count@ == old(self).levels_count@,
            final(self).updated == old(self).updated,
            final(self).max_children_count == old(self).max_children_count,
    {
        proof {
            old(self).subtrees.lemma_len();
        }
        let mut v = self.subtrees.remove(p).unwrap();
        v.children.insert(copy_bytes(k.as_slice()));
        self.subtrees.insert(p.copy_key(), v);
        proof {
            self.subtrees.lemma_len();
            assert(self.subtrees.view().dom() =~= old(self).subtrees.view().dom());
            assert(self.subtrees.size() == old(self).subtrees.size());
            assert(v.wf());
            assert(self.vertices() =~= with_child(old(self).vertices(), p@, k@));
        }
    }

    /// Sets the inner root key of the vertex at `p`, which exists.
    fn set_inner_root(&mut self, p: &Path, root_key: Option<Key>)
        requires
            old(self).wf(),
            old(self).vertices().contains_key(p@),
        ensures
            final(self).wf(),
            final(self).vertices() == old(self).vertices().insert(
                p@,
                SubtreeNodeView { root_node_key: opt_key(root_key), ..old(self).vertices()[p@] },
            ),
            final(self).levels_count@ == old(self).levels_count@,
            final(self).updated == old(self).updated,
            final(self).max_children_count == old(self).max_children_count,
    {
        proof {
            old(self).subtrees.lemma_len();
        }
        let mut v = self.subtrees.remove(p).unwrap();
        v.inner_tree.root_node_key = root_key;
        self.subtrees.insert(p.copy_key(), v);
        proof {
            self.subtrees.lemma_len();
            assert(self.subtrees.view().dom() =~= old(self).subtrees.view().dom());
            assert(self.subtrees.size() == old(self).subtrees.size());
            assert(self.vertices() =~= old(self).vertices().insert(
                p@,
                SubtreeNodeView { root_node_key: opt_key(root_key), ..old(self).vertices()[p@] },
            ));
        }
    }

    /// Records that `k` of the vertex at `p`, which exists, is referenced.
    fn add_referred(&mut self, p: &Path, k: &Key)
        requires
            old(self).wf(),
            old(self).vertices().contains_key(p@),
        ensures
            final(self).wf(),
            final(self).vertices() == old(self).vertices().insert(
                p@,
                SubtreeNodeView {
                    referred_keys: old(self).vertices()[p@].referred_keys.insert(k@),
                    ..old(self).vertices()[p@]
                },
            ),
            final(self).levels_count@ == old(self).levels_count@,
            final(self).updated == old(self).updated,
            final(self).max_children_count == old(self).max_children_count,
    {
        proof {
            old(self).subtrees.lemma_len();
        }
        let mut v = self.subtrees.remove(p).unwrap();
        v.referred_keys.insert(copy_bytes(k.as_slice()));
        self.subtrees.insert(p.copy_key(), v);
        proof {
            self.subtrees.lemma_len();
            assert(self.subtrees.view().dom() =~= old(self).subtrees.view().dom());
            assert(self.subtrees.size() == old(self).subtrees.size());
            assert(v.wf());
            assert(self.vertices() =~= old(self).vertices().insert(
                p@,
                SubtreeNodeView {
                    referred_keys: old(self).vertices()[p@].referred_keys.insert(k@),
                    ..old(self).vertices()[p@]
                },
            ));
        }
    }

    /// Stores `node` under `key` in the inner tree of the vertex at `p`,
    /// which exists.
    fn add_node(&mut self, p: &Path, key: Key, node: InnerTreeNode)
        requires
            old(self).wf(),
            old(self).vertices().contains_key(p@),
        ensures
            final(self).wf(),
            final(self).vertices() == old(self).vertices().insert(
                p@,
                SubtreeNodeView {
                    nodes: old(self).vertices()[p@].nodes.insert(key@, node),
                    ..old(self).vertices()[p@]
                },
            ),
            final(self).levels_count@ == old(self).levels_count@,
            final(self).updated == old(self).updated,
            final(self).max_children_count == old(self).max_children_count,
    {
        proof {
            old(self).subtrees.lemma_len();
        }
        let ghost kv = key@;
        let mut v = self.subtrees.remove(p).unwrap();
        v.inner_tree.nodes.insert(key, node);
        self.subtrees.insert(p.copy_key(), v);
        proof {
            self.subtrees.lemma_len();
            assert(self.subtrees.view().dom() =~= old(self).subtrees.view().dom());
            assert(self.subtrees.size() == old(self).subtrees.size());
            assert(v.wf());
            assert(self.vertices() =~= old(self).vertices().insert(
                p@,
                SubtreeNodeView {
                    nodes: old(self).vertices()[p@].nodes.insert(kv, node),
                    ..old(self).vertices()[p@]
                },
            ));
        }
    }

    /// Makes the vertices of every prefix of `path` where missing, counting
    /// each new one on its level; each prefix but the full path announces the
    /// next segment as a child.
    pub fn get_or_create_subtree_recursive(&mut self, path: &Path)
        requires
            old(self).wf(),
            path@.len() < usize::MAX,
        ensures
            final(self).wf(),
            (final(self).vertices(), final(self).levels_count@) == chain_from(
                old(self).vertices(),
                old(self).levels_count@,
                path@,
                0,
            ),
            final(self).updated == old(self).updated,
            final(self).max_children_count == old(self).max_children_count,
    {
        let n = path.len();
        let mut d: usize = 0;
        while d < n
            invariant
                self.wf(),
                d <= n == path@.len(),
                n < usize::MAX,
                chain_from(self.vertices(), self.levels_count@, path@, d as nat) == chain_from(
                    old(self).vertices(),
                    old(self).levels_count@,
                    path@,
                    0,
                ),
                self.updated == old(self).updated,
                self.max_children_count == old(self).max_children_count,
            decreases n - d,
        {
            let pre = path.prefix(d);
            self.ensure_vertex(&pre);
            self.add_child(&pre, path.segment(d));
            d = d + 1;
        }
        self.ensure_vertex(path);
        proof {
            assert(path@.subrange(0, n as int) =~= path@);
        }
    }

    /// Inserts `node` under `key` into the inner tree of the subtree at
    /// `path`. The vertices along `path` are made where missing (each
    /// announcing the next segment as a child, and counted on its level); a
    /// subtree value also makes the child vertex, sets its inner root and
    /// announces it; a reference marks its key as referred in its target.
    pub fn insert(&mut self, path: Path, key: Key, node: InnerTreeNode)
        requires
            old(self).wf(),
            path@.len() + 1 < usize::MAX,
            reference_target_known(old(self).vertices(), path@, node),
        ensures
            final(self).wf(),
            (final(self).vertices(), final(self).levels_count@) == vertices_inserted(
                old(self).vertices(),
                old(self).levels_count@,
                path@,
                key@,
                node,
            ),
            final(self).updated == old(self).updated,
            final(self).max_children_count == old(self).max_children_count,
    {
        self.get_or_create_subtree_recursive(&path);
        proof {
            lemma_chain_contains(old(self).vertices(), old(self).levels_count@, path@, 0);
            assert(self.vertices().contains_key(path@.subrange(0, path@.len() as int)));
            assert(path@.subrange(0, path@.len() as int) =~= path@);
        }
        let ghost t1 = self.vertices();
        match &node.value {
            InnerTreeNodeValue::Subtree(root_key) => {
                let cp = path.child(key.as_slice());
                self.ensure_vertex(&cp);
                let rk = match root_key {
                    Some(k) => Some(copy_bytes(k.as_slice())),
                    None => None,
                };
                self.set_inner_root(&cp, rk);
                proof {
                    assert(self.vertices().contains_key(path@));
                }
                self.add_child(&path, &key);
            },
            _ => {},
        }
        match &node.value {
            InnerTreeNodeValue::Reference(ref_path, ref_key) => {
                proof {
                    if !old(self).vertices().contains_key(ref_path@) {
                        assert(t1.contains_key(path@.subrange(0, ref_path@.len() as int)));
                    }
                }
                self.add_referred(ref_path, ref_key);
            },
            _ => {},
        }
        self.add_node(&path, key, node);
    }
}

} // verus!
