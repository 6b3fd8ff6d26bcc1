//! The path-indexed collection of subtrees that mirrors the nested structure.

use crate::keys::{copy_bytes, path_lt, Key, Path, SortKey};
use crate::sorted_map::SortedMap;
use crate::subtree::{Element, Node, Subtree, SubtreeView};
use vstd::prelude::*;

verus! {

/// The subtree at `p`, or an empty one where there is none.
pub open spec fn subtree_or_empty(t: Map<Seq<Seq<u8>>, SubtreeView>, p: Seq<Seq<u8>>) -> SubtreeView {
    if t.contains_key(p) {
        t[p]
    } else {
        SubtreeView::empty()
    }
}

/// One step of populating the chain of `path` at depth `d`: the subtree at the
/// first `d` segments exists, and for `d` below the path's length it holds a
/// node under segment `d` (a placeholder where none was known).
pub open spec fn populate_step(t: Map<Seq<Seq<u8>>, SubtreeView>, path: Seq<Seq<u8>>, d: nat) -> Map<
    Seq<Seq<u8>>,
    SubtreeView,
> {
    let pre = path.subrange(0, d as int);
    let st = subtree_or_empty(t, pre);
    let st2 = if d < path.len() && !st.nodes.contains_key(path[d as int]) {
        st.inserted(path[d as int], Node::placeholder())
    } else {
        st
    };
    t.insert(pre, st2)
}

/// Steps `d` up to the path's length, in order.
pub open spec fn populated_from(t: Map<Seq<Seq<u8>>, SubtreeView>, path: Seq<Seq<u8>>, d: nat) -> Map<
    Seq<Seq<u8>>,
    SubtreeView,
>
    decreases path.len() - d,
{
    if d >= path.len() {
        populate_step(t, path, path.len())
    } else {
        populated_from(populate_step(t, path, d), path, d + 1)
    }
}

/// State after `Tree::populate_subtrees_chain(path)`.
pub open spec fn populated(t: Map<Seq<Seq<u8>>, SubtreeView>, path: Seq<Seq<u8>>) -> Map<
    Seq<Seq<u8>>,
    SubtreeView,
> {
    populated_from(t, path, 0)
}

/// The subtree at `child` exists, with root `root_key` where one is given.
pub open spec fn linked(
    t: Map<Seq<Seq<u8>>, SubtreeView>,
    child: Seq<Seq<u8>>,
    root_key: Option<Key>,
) -> Map<Seq<Seq<u8>>, SubtreeView> {
    let c = subtree_or_empty(t, child);
    t.insert(
        child,
        match root_key {
            Some(r) => c.with_root(r@),
            None => c,
        },
    )
}

/// State after `Tree::insert(path, key, node)`.
pub open spec fn tree_inserted(
    t: Map<Seq<Seq<u8>>, SubtreeView>,
    path: Seq<Seq<u8>>,
    key: Seq<u8>,
    node: Node,
) -> Map<Seq<Seq<u8>>, SubtreeView> {
    let t1 = populated(t, path);
    let t2 = match node.element {
        Element::Sumtree { root_key, .. } => linked(t1, path.push(key), root_key),
        Element::Subtree { root_key } => linked(t1, path.push(key), root_key),
        _ => t1,
    };
    t2.insert(path, subtree_or_empty(t2, path).inserted(key, node))
}

/// Per-level aggregates, as mathematical integers.
pub struct LevelStats {
    pub n_subtrees: nat,
    pub max_subtree_size: nat,
    pub max_clusters: nat,
}

/// Horizontal extent of a subtree in clusters: its cluster roots plus its
/// root, if declared (saturating at `usize::MAX`).
pub open spec fn cluster_width(s: SubtreeView) -> nat {
    let w = s.cluster_roots.len() + if s.root_node is Some {
        1nat
    } else {
        0nat
    };
    if w > usize::MAX {
        usize::MAX as nat
    } else {
        w
    }
}

/// Aggregates of one level of subtrees, used to size a canvas.
#[derive(Debug, Clone, Copy, PartialEq, Eq, Default)]
pub struct LevelInfo {
    pub n_subtrees: usize,
    pub max_subtree_size: usize,
    pub max_clusters: usize,
}

/// Aggregates of every level, and the level that needs the most room.
#[derive(Debug, PartialEq, Eq, Default)]
pub struct LevelsInfo {
    pub levels_info: Vec<LevelInfo>,
    pub widest_level_idx: usize,
}

/// Room a level needs: clusters times subtree size times subtree count
/// (saturating at `u128::MAX`).
pub open spec fn level_weight(i: LevelInfo) -> int {
    let p = i.max_clusters * i.max_subtree_size * i.n_subtrees;
    if p > u128::MAX {
        u128::MAX as int
    } else {
        p
    }
}

fn weight(i: &LevelInfo) -> (r: u128)
    ensures
        r == level_weight(*i),
{
    let a = i.max_clusters as u128;
    let b = i.max_subtree_size as u128;
    assert(a * b <= 0xffff_ffff_ffff_ffffu128 * 0xffff_ffff_ffff_ffffu128) by (nonlinear_arith)
        requires
            a <= 0xffff_ffff_ffff_ffffu128,
            b <= 0xffff_ffff_ffff_ffffu128,
    ;
    let ab = a * b;
    match ab.checked_mul(i.n_subtrees as u128) {
        Some(p) => p,
        None => u128::MAX,
    }
}

/// What is known of the whole structure: the subtrees by path.
#[derive(Debug, PartialEq, Eq)]
pub struct Tree {
    subtrees: SortedMap<Path, Subtree>,
}

impl View for Tree {
    type V = Map<Seq<Seq<u8>>, SubtreeView>;

    closed spec fn view(&self) -> Map<Seq<Seq<u8>>, SubtreeView> {
        self.subtrees.view().map_values(|s: Subtree| s@)
    }
}

impl Tree {
    /// The map and every subtree in it are well formed.
    pub closed spec fn wf(self) -> bool {
        &&& self.subtrees.wf()
        &&& forall|p: Seq<Seq<u8>>| #[trigger]
            self.subtrees.view().contains_key(p) ==> self.subtrees.view()[p].wf()
    }

    /// Number of subtrees.
    pub closed spec fn size(self) -> nat {
        self.subtrees.size()
    }

    /// Path of the `i`-th subtree in path order.
    pub closed spec fn path_at(self, i: int) -> Seq<Seq<u8>> {
        self.subtrees.key_at(i)
    }

    /// The `i`-th subtree in path order.
    pub closed spec fn subtree_at(self, i: int) -> SubtreeView {
        self.subtrees.value_at(i)@
    }

    /// The positions list the subtrees in increasing path order, one each.
    pub proof fn lemma_positions(self)
        requires
            self.wf(),
        ensures
            self@.dom().finite(),
            self@.dom().len() == self.size(),
            forall|i: int|
                0 <= i < self.size() ==> self@.contains_key(#[trigger] self.path_at(i)) && self@[self.path_at(
                    i,
                )] == self.subtree_at(i),
            forall|i: int, j: int|
                0 <= i < j < self.size() ==> path_lt(
                    #[trigger] self.path_at(i),
                    #[trigger] self.path_at(j),
                ),
            forall|p: Seq<Seq<u8>>| #[trigger]
                self@.contains_key(p) ==> exists|i: int| 0 <= i < self.size() && self.path_at(i) == p,
    {
        self.subtrees.lemma_len();
        assert(self@.dom() =~= self.subtrees.view().dom());
        assert forall|i: int| 0 <= i < self.size() implies self@.contains_key(
            #[trigger] self.path_at(i),
        ) && self@[self.path_at(i)] == self.subtree_at(i) by {
            self.subtrees.lemma_entry(i);
        }
        assert forall|i: int, j: int| 0 <= i < j < self.size() implies path_lt(
            #[trigger] self.path_at(i),
            #[trigger] self.path_at(j),
        ) by {
            self.subtrees.lemma_sorted(i, j);
        }
        assert forall|p: Seq<Seq<u8>>| #[trigger]
            self@.contains_key(p) implies exists|i: int| 0 <= i < self.size() && self.path_at(i) == p by {
            assert(self.subtrees.view().dom().contains(p));
            self.subtrees.lemma_key_stored(p);
            let i = self.subtrees.index_of(p);
            assert(0 <= i < self.size() && self.path_at(i) == p);
        }
    }

    /// Aggregates of level `l` over the first `n` subtrees in path order.
    pub open spec fn level_stats(self, l: nat, n: int) -> LevelStats
        decreases n,
    {
        if n <= 0 {
            LevelStats { n_subtrees: 0, max_subtree_size: 0, max_clusters: 0 }
        } else {
            let prev = self.level_stats(l, n - 1);
            let s = self.subtree_at(n - 1);
            if self.path_at(n - 1).len() == l {
                LevelStats {
                    n_subtrees: prev.n_subtrees + 1,
                    max_subtree_size: if s.nodes.len() > prev.max_subtree_size {
                        s.nodes.len()
                    } else {
                        prev.max_subtree_size
                    },
                    max_clusters: if cluster_width(s) > prev.max_clusters {
                        cluster_width(s)
                    } else {
                        prev.max_clusters
                    },
                }
            } else {
                prev
            }
        }
    }

    /// One more than the longest path among the first `n` subtrees (zero for
    /// none).
    pub open spec fn depth(self, n: int) -> nat
        decreases n,
    {
        if n <= 0 {
            0
        } else {
            let prev = self.depth(n - 1);
            if self.path_at(n - 1).len() + 1 > prev {
                self.path_at(n - 1).len() + 1
            } else {
                prev
            }
        }
    }

    proof fn lemma_level_stats_beyond_depth(self, l: nat, n: int)
        requires
            l >= self.depth(n),
        ensures
            self.level_stats(l, n) == (LevelStats { n_subtrees: 0, max_subtree_size: 0, max_clusters: 0 }),
        decreases n,
    {
        if n > 0 {
            self.lemma_level_stats_beyond_depth(l, n - 1);
        }
    }

    proof fn lemma_level_stats_bounded(self, l: nat, n: int)
        requires
            self.wf(),
            n <= self.size(),
        ensures
            self.level_stats(l, n).n_subtrees <= if n < 0 { 0 } else { n },
            self.level_stats(l, n).max_subtree_size <= usize::MAX,
            self.level_stats(l, n).max_clusters <= usize::MAX,
        decreases n,
    {
        if n > 0 {
            self.lemma_level_stats_bounded(l, n - 1);
            self.subtrees.lemma_entry(n - 1);
            self.subtrees.value_at(n - 1).lemma_node_keys();
            self.subtrees.value_at(n - 1).lemma_n_nodes_bounded();
        }
    }

    /// Per-level aggregates over all subtrees (levels are path lengths), and
    /// the first level with the largest weight.
    pub fn levels(&self) -> (r: LevelsInfo)
        requires
            self.wf(),
        ensures
            r.levels_info@.len() == self.depth(self.size() as int),
            forall|l: int|
                0 <= l < r.levels_info@.len() ==> {
                    let st = self.level_stats(l as nat, self.size() as int);
                    &&& (#[trigger] r.levels_info@[l]).n_subtrees == st.n_subtrees
                    &&& r.levels_info@[l].max_subtree_size == st.max_subtree_size
                    &&& r.levels_info@[l].max_clusters == st.max_clusters
                },
            r.levels_info@.len() == 0 ==> r.widest_level_idx == 0,
            r.levels_info@.len() > 0 ==> {
                &&& r.widest_level_idx < r.levels_info@.len()
                &&& forall|l: int|
                    0 <= l < r.levels_info@.len() ==> level_weight(#[trigger] r.levels_info@[l])
                        <= level_weight(r.levels_info@[r.widest_level_idx as int])
                &&& forall|l: int|
                    0 <= l < r.widest_level_idx ==> level_weight(#[trigger] r.levels_info@[l])
                        < level_weight(r.levels_info@[r.widest_level_idx as int])
            },
    {
        let mut levels: Vec<LevelInfo> = Vec::new();
        let n = self.n_subtrees();
        let mut i: usize = 0;
        while i < n
            invariant
                self.wf(),
                n == self.size(),
                i <= n,
                levels@.len() == self.depth(i as int),
                forall|l: int|
                    0 <= l < levels@.len() ==> {
                        let st = self.level_stats(l as nat, i as int);
                        &&& (#[trigger] levels@[l]).n_subtrees == st.n_subtrees
                        &&& levels@[l].max_subtree_size == st.max_subtree_size
                        &&& levels@[l].max_clusters == st.max_clusters
                    },
            decreases n - i,
        {
            let ctx = self.subtree_at_index(i);
            let level = ctx.path.len();
            let ghost before = levels@;
            while levels.len() <= level
                invariant
                    before.len() <= levels@.len(),
                    levels@.len() > before.len() ==> levels@.len() <= level + 1,
                    forall|l: int| 0 <= l < before.len() ==> levels@[l] == before[l],
                    forall|l: int|
                        before.len() <= l < levels@.len() ==> #[trigger] levels@[l] == (LevelInfo {
                            n_subtrees: 0,
                            max_subtree_size: 0,
                            max_clusters: 0,
                        }),
                decreases level + 1 - levels@.len(),
            {
                levels.push(LevelInfo { n_subtrees: 0, max_subtree_size: 0, max_clusters: 0 });
            }
            proof {
                self.lemma_level_stats_bounded(level as nat, i as int);
                assert forall|l: int| 0 <= l < levels@.len() implies {
                    let st = self.level_stats(l as nat, i as int);
                    &&& (#[trigger] levels@[l]).n_subtrees == st.n_subtrees
                    &&& levels@[l].max_subtree_size == st.max_subtree_size
                    &&& levels@[l].max_clusters == st.max_clusters
                } by {
                    if l >= before.len() {
                        self.lemma_level_stats_beyond_depth(l as nat, i as int);
                    } else {
                        assert(levels@[l] == before[l]);
                    }
                }
            }
            let size = ctx.subtree.n_nodes();
            let mut width = ctx.subtree.n_cluster_roots();
            if ctx.subtree.root_key().is_some() {
                width = width.saturating_add(1);
            }
            let old_info = levels[level];
            let new_info = LevelInfo {
                n_subtrees: old_info.n_subtrees + 1,
                max_subtree_size: if size > old_info.max_subtree_size {
                    size
                } else {
                    old_info.max_subtree_size
                },
                max_clusters: if width > old_info.max_clusters {
                    width
                } else {
                    old_info.max_clusters
                },
            };
            let ghost mid = levels@;
            levels.set(level, new_info);
            proof {
                assert(ctx.path@.len() == level);
                assert(size == self.subtree_at(i as int).nodes.len());
                assert(width == cluster_width(self.subtree_at(i as int)));
                assert forall|l: int| 0 <= l < levels@.len() implies {
                    let st = self.level_stats(l as nat, i + 1);
                    &&& (#[trigger] levels@[l]).n_subtrees == st.n_subtrees
                    &&& levels@[l].max_subtree_size == st.max_subtree_size
                    &&& levels@[l].max_clusters == st.max_clusters
                } by {
                    assert(self.level_stats(l as nat, i + 1) == if self.path_at(i as int).len() == l {
                        let prev = self.level_stats(l as nat, i as int);
                        let s = self.subtree_at(i as int);
                        LevelStats {
                            n_subtrees: prev.n_subtrees + 1,
                            max_subtree_size: if s.nodes.len() > prev.max_subtree_size {
                                s.nodes.len()
                            } else {
                                prev.max_subtree_size
                            },
                            max_clusters: if cluster_width(s) > prev.max_clusters {
                                cluster_width(s)
                            } else {
                                prev.max_clusters
                            },
                        }
                    } else {
                        self.level_stats(l as nat, i as int)
                    });
                    if l != level {
                        assert(levels@[l] == mid[l]);
                    }
                }
            }
            i = i + 1;
        }
        let mut widest: usize = 0;
        if levels.len() > 0 {
            let mut best = weight(&levels[0]);
            let mut j: usize = 1;
            while j < levels.len()
                invariant
                    levels@.len() > 0,
                    1 <= j <= levels@.len(),
                    widest < j,
                    best == level_weight(levels@[widest as int]),
                    forall|l: int| 0 <= l < j ==> level_weight(#[trigger] levels@[l]) <= best,
                    forall|l: int| 0 <= l < widest ==> level_weight(#[trigger] levels@[l]) < best,
                decreases levels@.len() - j,
            {
                let w = weight(&levels[j]);
                if w > best {
                    best = w;
                    widest = j;
                }
                j = j + 1;
            }
        }
        LevelsInfo { levels_info: levels, widest_level_idx: widest }
    }

    /// A tree holding only the root subtree, empty and without a root key.
    pub fn new() -> (r: Tree)
        ensures
            r.wf(),
            r@ == Map::<Seq<Seq<u8>>, SubtreeView>::empty().insert(Seq::empty(), SubtreeView::empty()),
    {
        let mut subtrees: SortedMap<Path, Subtree> = SortedMap::new();
        let root = Subtree::new();
        subtrees.insert(Path::root(), root);
        let r = Tree { subtrees };
        assert(r@ =~= Map::<Seq<Seq<u8>>, SubtreeView>::empty().insert(Seq::empty(), SubtreeView::empty()));
        r
    }

    /// Takes the subtree at `path` out, or makes an empty one.
    fn take_subtree(&mut self, path: &Path) -> (r: Subtree)
        requires
            old(self).wf(),
        ensures
            final(self).wf(),
            r.wf(),
            r@ == subtree_or_empty(old(self)@, path@),
            final(self)@ == old(self)@.remove(path@),
    {
        let r = match self.subtrees.remove(path) {
            Some(s) => s,
            None => Subtree::new(),
        };
        assert(self@ =~= old(self)@.remove(path@));
        r
    }

    /// Puts `st` at `path`.
    fn put_subtree(&mut self, path: Path, st: Subtree)
        requires
            old(self).wf(),
            st.wf(),
        ensures
            final(self).wf(),
            final(self)@ == old(self)@.insert(path@, st@),
    {
        let ghost pv = path@;
        self.subtrees.insert(path, st);
        assert(self@ =~= old(self)@.insert(pv, st@));
    }

    /// Declares the root key of the root subtree, creating that subtree if
    /// needed.
    pub fn set_root(&mut self, root_key: Key)
        requires
            old(self).wf(),
        ensures
            final(self).wf(),
            final(self)@ == old(self)@.insert(
                Seq::empty(),
                subtree_or_empty(old(self)@, Seq::empty()).with_root(root_key@),
            ),
    {
        let path = Path::root();
        let mut st = self.take_subtree(&path);
        st.set_root(root_key);
        self.put_subtree(path, st);
        proof {
            assert(old(self)@.remove(Seq::empty()).insert(Seq::empty(), st@) =~= old(self)@.insert(
                Seq::empty(),
                st@,
            ));
        }
    }

    /// Makes sure that the subtree at every prefix of `path` exists and that
    /// each one but the last holds a node under the next segment, inserting a
    /// placeholder only where no node is known.
    pub fn populate_subtrees_chain(&mut self, path: &Path)
        requires
            old(self).wf(),
        ensures
            final(self).wf(),
            final(self)@ == populated(old(self)@, path@),
    {
        let n = path.len();
        let mut d: usize = 0;
        while d < n
            invariant
                self.wf(),
                d <= n == path@.len(),
                populated_from(self@, path@, d as nat) == populated(old(self)@, path@),
            decreases n - d,
        {
            self.populate_step(path, d);
            d = d + 1;
        }
        self.populate_step(path, n);
    }

    fn populate_step(&mut self, path: &Path, d: usize)
        requires
            old(self).wf(),
            d <= path@.len(),
        ensures
            final(self).wf(),
            final(self)@ == populate_step(old(self)@, path@, d as nat),
    {
        let pre = path.prefix(d);
        let mut st = self.take_subtree(&pre);
        if d < path.len() {
            let seg = path.segment(d);
            st.insert_not_exists(copy_bytes(seg.as_slice()), Node::new_subtree_placeholder());
        }
        self.put_subtree(pre, st);
        proof {
            let pv = path@.subrange(0, d as int);
            assert(old(self)@.remove(pv).insert(pv, st@) =~= old(self)@.insert(pv, st@));
        }
    }

    /// Inserts `node` under `key` in the subtree at `path`. First the chain of
    /// subtrees down to `path` is populated; a node that links to a child
    /// subtree makes sure that subtree exists and declares its root.
    pub fn insert(&mut self, path: Path, key: Key, node: Node)
        requires
            old(self).wf(),
        ensures
            final(self).wf(),
            final(self)@ == tree_inserted(old(self)@, path@, key@, node),
    {
        self.populate_subtrees_chain(&path);
        match &node.element {
            Element::Sumtree { root_key, .. } => {
                self.link_child(&path, key.as_slice(), root_key);
            },
            Element::Subtree { root_key } => {
                self.link_child(&path, key.as_slice(), root_key);
            },
            _ => {},
        }
        let ghost t2 = self@;
        let mut st = self.take_subtree(&path);
        st.insert(key, node);
        let ghost pv = path@;
        self.put_subtree(path, st);
        proof {
            assert(t2.remove(pv).insert(pv, st@) =~= t2.insert(pv, st@));
        }
    }

    fn link_child(&mut self, path: &Path, key: &[u8], root_key: &Option<Key>)
        requires
            old(self).wf(),
        ensures
            final(self).wf(),
            final(self)@ == linked(old(self)@, path@.push(key@), *root_key),
    {
        let child_path = path.child(key);
        let mut child = self.take_subtree(&child_path);
        match root_key {
            Some(r) => {
                child.set_root(copy_bytes(r.as_slice()));
            },
            None => {},
        }
        let ghost cv = child_path@;
        self.put_subtree(child_path, child);
        proof {
            assert(old(self)@.remove(cv).insert(cv, child@) =~= old(self)@.insert(cv, child@));
        }
    }

    /// Removes the node under `key` from the subtree at `path`, if that
    /// subtree exists.
    pub fn remove(&mut self, path: &Path, key: &[u8])
        requires
            old(self).wf(),
        ensures
            final(self).wf(),
            old(self)@.contains_key(path@) ==> final(self)@ == old(self)@.insert(
                path@,
                old(self)@[path@].removed(key@),
            ),
            !old(self)@.contains_key(path@) ==> final(self)@ == old(self)@,
    {
        if self.subtrees.contains_key(path) {
            let mut st = self.take_subtree(path);
            st.remove(key);
            let p = path.copy_key();
            self.put_subtree(p, st);
            proof {
                assert(old(self)@.remove(path@).insert(path@, st@) =~= old(self)@.insert(path@, st@));
            }
        }
    }

    /// Unloads the subtree at `path`: its nodes, clusters and awaited keys
    /// are forgotten, while the subtree itself and its root key stay, so the
    /// node that announces it in the parent subtree keeps pointing somewhere.
    pub fn clear_subtree(&mut self, path: &Path)
        requires
            old(self).wf(),
        ensures
            final(self).wf(),
            old(self)@.contains_key(path@) ==> final(self)@ == old(self)@.insert(
                path@,
                old(self)@[path@].cleared(),
            ),
            !old(self)@.contains_key(path@) ==> final(self)@ == old(self)@,
    {
        if self.subtrees.contains_key(path) {
            let mut st = self.take_subtree(path);
            st.clear();
            let p = path.copy_key();
            self.put_subtree(p, st);
            proof {
                assert(old(self)@.remove(path@).insert(path@, st@) =~= old(self)@.insert(path@, st@));
            }
        }
    }

    /// The node under `key` in the subtree at `path`.
    pub fn get_node(&self, path: &Path, key: &[u8]) -> (r: Option<&Node>)
        requires
            self.wf(),
        ensures
            match r {
                Some(n) => self@.contains_key(path@) && self@[path@].nodes.contains_key(key@) && *n
                    == self@[path@].nodes[key@],
                None => !self@.contains_key(path@) || !self@[path@].nodes.contains_key(key@),
            },
    {
        match self.subtrees.get(path) {
            Some(st) => st.get_node(key),
            None => None,
        }
    }

    /// The subtree at `path`, bound to its path.
    pub fn get_subtree<'a>(&'a self, path: &'a Path) -> (r: Option<SubtreeCtx<'a>>)
        requires
            self.wf(),
        ensures
            match r {
                Some(c) => self@.contains_key(path@) && c.subtree@ == self@[path@] && c.path@ == path@
                    && c.subtree.wf(),
                None => !self@.contains_key(path@),
            },
    {
        match self.subtrees.get(path) {
            Some(st) => Some(SubtreeCtx { subtree: st, path }),
            None => None,
        }
    }

    /// Number of subtrees.
    pub fn n_subtrees(&self) -> (r: usize)
        requires
            self.wf(),
        ensures
            r == self@.len(),
            r == self.size(),
    {
        proof {
            self.subtrees.lemma_len();
            assert(self@.dom() =~= self.subtrees.view().dom());
        }
        self.subtrees.len()
    }

    /// The `i`-th subtree in path order, bound to its path.
    pub fn subtree_at_index(&self, i: usize) -> (r: SubtreeCtx<'_>)
        requires
            self.wf(),
            i < self.size(),
        ensures
            r.path@ == self.path_at(i as int),
            r.subtree@ == self.subtree_at(i as int),
            r.subtree.wf(),
    {
        proof {
            self.subtrees.lemma_entry(i as int);
        }
        let (p, s) = self.subtrees.entry(i);
        SubtreeCtx { subtree: s, path: p }
    }

    /// Paths of the subtrees at or below `prefix`, in path order.
    pub fn descendant_paths(&self, prefix: &Path) -> (r: Vec<&Path>)
        requires
            self.wf(),
        ensures
            forall|i: int|
                0 <= i < r@.len() ==> self@.contains_key((#[trigger] r@[i])@) && is_prefix_of(
                    prefix@,
                    r@[i]@,
                ),
            forall|p: Seq<Seq<u8>>|
                self@.contains_key(p) && is_prefix_of(prefix@, p) ==> exists|i: int|
                    0 <= i < r@.len() && (#[trigger] r@[i])@ == p,
            forall|i: int, j: int| 0 <= i < j < r@.len() ==> path_lt((#[trigger] r@[i])@, (#[trigger] r@[j])@),
    {
        proof {
            self.lemma_positions();
        }
        let n = self.n_subtrees();
        let mut r: Vec<&Path> = Vec::new();
        let ghost mut idx: Seq<int> = Seq::empty();
        let mut i: usize = 0;
        while i < n
            invariant
                self.wf(),
                n == self.size(),
                i <= n,
                idx.len() == r@.len(),
                forall|k: int| 0 <= k < r@.len() ==> 0 <= #[trigger] idx[k] < i && r@[k]@ == self.path_at(idx[k]),
                forall|k: int, l: int| 0 <= k < l < r@.len() ==> #[trigger] idx[k] < #[trigger] idx[l],
                forall|k: int| 0 <= k < r@.len() ==> is_prefix_of(prefix@, (#[trigger] r@[k])@),
                forall|j: int|
                    0 <= j < i && is_prefix_of(prefix@, #[trigger] self.path_at(j)) ==> exists|k: int|
                        0 <= k < r@.len() && idx[k] == j,
                forall|a: int|
                    0 <= a < self.size() ==> self@.contains_key(#[trigger] self.path_at(a)),
                forall|a: int, b: int|
                    0 <= a < b < self.size() ==> path_lt(
                        #[trigger] self.path_at(a),
                        #[trigger] self.path_at(b),
                    ),
            decreases n - i,
        {
            let ctx = self.subtree_at_index(i);
            let ghost old_idx = idx;
            let ghost old_len = r@.len();
            if starts_with(ctx.path, prefix) {
                r.push(ctx.path);
                proof {
                    idx = idx.push(i as int);
                }
            }
            proof {
                assert forall|j: int|
                    0 <= j < i + 1 && is_prefix_of(prefix@, #[trigger] self.path_at(j)) implies exists|k: int|
                        0 <= k < r@.len() && idx[k] == j by {
                    if j == i {
                        assert(idx[old_len as int] == j);
                    } else {
                        let k = choose|k: int| 0 <= k < old_len && old_idx[k] == j;
                        assert(idx[k] == j);
                    }
                }
            }
            i = i + 1;
        }
        proof {
            assert forall|p: Seq<Seq<u8>>|
                self@.contains_key(p) && is_prefix_of(prefix@, p) implies exists|k: int|
                    0 <= k < r@.len() && (#[trigger] r@[k])@ == p by {
                let j = choose|j: int| 0 <= j < self.size() && self.path_at(j) == p;
                let k = choose|k: int| 0 <= k < r@.len() && idx[k] == j;
                assert(r@[k]@ == p);
            }
            assert forall|k: int| 0 <= k < r@.len() implies self@.contains_key((#[trigger] r@[k])@) by {
                assert(self@.contains_key(self.path_at(idx[k])));
            }
            assert forall|k: int, l: int| 0 <= k < l < r@.len() implies path_lt(
                (#[trigger] r@[k])@,
                (#[trigger] r@[l])@,
            ) by {
                assert(idx[k] < idx[l]);
                assert(path_lt(self.path_at(idx[k]), self.path_at(idx[l])));
            }
        }
        r
    }

    /// All subtrees in path order: shorter paths first, then lexicographic.
    pub fn iter_subtrees(&self) -> (r: Vec<SubtreeCtx<'_>>)
        requires
            self.wf(),
        ensures
            r@.len() == self.size(),
            forall|i: int|
                0 <= i < r@.len() ==> (#[trigger] r@[i]).path@ == self.path_at(i)
                    && r@[i].subtree@ == self.subtree_at(i) && r@[i].subtree.wf(),
    {
        let mut r: Vec<SubtreeCtx<'_>> = Vec::new();
        let n = self.n_subtrees();
        let mut i: usize = 0;
        while i < n
            invariant
                self.wf(),
                n == self.size(),
                i <= n,
                r@.len() == i,
                forall|j: int|
                    0 <= j < i ==> (#[trigger] r@[j]).path@ == self.path_at(j) && r@[j].subtree@
                        == self.subtree_at(j) && r@[j].subtree.wf(),
            decreases n - i,
        {
            r.push(self.subtree_at_index(i));
            i = i + 1;
        }
        r
    }
}

/// `prefix` is a prefix of `p` (possibly all of it).
pub open spec fn is_prefix_of(prefix: Seq<Seq<u8>>, p: Seq<Seq<u8>>) -> bool {
    prefix.len() <= p.len() && p.subrange(0, prefix.len() as int) == prefix
}

fn starts_with(p: &Path, prefix: &Path) -> (r: bool)
    ensures
        r == is_prefix_of(prefix@, p@),
{
    let n = prefix.len();
    if n > p.len() {
        return false;
    }
    let mut i: usize = 0;
    while i < n
        invariant
            n == prefix@.len() <= p@.len(),
            i <= n,
            forall|j: int| 0 <= j < i ==> p@[j] == prefix@[j],
        decreases n - i,
    {
        if !crate::keys::same_bytes(p.segment(i).as_slice(), prefix.segment(i).as_slice()) {
            assert(p@.subrange(0, n as int)[i as int] != prefix@[i as int]);
            return false;
        }
        i = i + 1;
    }
    assert(p@.subrange(0, n as int) =~= prefix@);
    true
}

/// A subtree bound to its path, for navigation.
#[derive(Clone, Copy)]
pub struct SubtreeCtx<'a> {
    pub subtree: &'a Subtree,
    pub path: &'a Path,
}

/// A node bound to its key and to the subtree (and path) holding it.
#[derive(Clone, Copy)]
pub struct NodeCtx<'a> {
    pub node: &'a Node,
    pub key: &'a Key,
    pub subtree_ctx: SubtreeCtx<'a>,
}

impl<'a> SubtreeCtx<'a> {
    pub fn subtree(&self) -> (r: &'a Subtree)
        ensures
            r == self.subtree,
    {
        self.subtree
    }

    pub fn path(&self) -> (r: &'a Path)
        ensures
            r == self.path,
    {
        self.path
    }

    /// The node under `key`, bound to its place.
    pub fn get_node(&self, key: &[u8]) -> (r: Option<NodeCtx<'a>>)
        requires
            self.subtree.wf(),
        ensures
            match r {
                Some(c) => self.subtree@.nodes.contains_key(key@) && *c.node == self.subtree@.nodes[key@]
                    && c.key@ == key@ && c.subtree_ctx == *self,
                None => !self.subtree@.nodes.contains_key(key@),
            },
    {
        let n = self.subtree.n_nodes();
        let mut i: usize = 0;
        proof {
            self.subtree.lemma_node_keys();
        }
        while i < n
            invariant
                self.subtree.wf(),
                n == self.subtree.node_keys().len(),
                self.subtree.node_keys().to_set() == self.subtree@.nodes.dom(),
                i <= n,
                forall|j: int| 0 <= j < i ==> self.subtree.node_keys()[j] != key@,
            decreases n - i,
        {
            let (k, node) = self.subtree.node_at(i);
            if crate::keys::same_bytes(k.as_slice(), key) {
                return Some(NodeCtx { node, key: k, subtree_ctx: *self });
            }
            i = i + 1;
        }
        proof {
            if self.subtree@.nodes.contains_key(key@) {
                assert(self.subtree.node_keys().to_set().contains(key@));
            }
        }
        None
    }

    /// The root node, bound to its place, if the root key is declared and the
    /// node is known.
    pub fn get_root(&self) -> (r: Option<NodeCtx<'a>>)
        requires
            self.subtree.wf(),
        ensures
            match r {
                Some(c) => {
                    &&& self.subtree@.root_node == Some(c.key@)
                    &&& self.subtree@.nodes.contains_key(c.key@)
                    &&& *c.node == self.subtree@.nodes[c.key@]
                },
                None => self.subtree@.root_node is None || !self.subtree@.nodes.contains_key(
                    self.subtree@.root_node->0,
                ),
            },
    {
        match self.subtree.root_key() {
            Some(k) => self.get_node(k.as_slice()),
            None => None,
        }
    }

    /// The cluster roots' nodes, bound to their places, each once, in
    /// increasing key order.
    pub fn iter_cluster_roots(&self) -> (r: Vec<NodeCtx<'a>>)
        requires
            self.subtree.wf(),
        ensures
            forall|i: int|
                0 <= i < r@.len() ==> self.subtree@.cluster_roots.contains((#[trigger] r@[i]).key@)
                    && self.subtree@.nodes.contains_key(r@[i].key@) && *r@[i].node
                    == self.subtree@.nodes[r@[i].key@],
            self.subtree@.cluster_roots.subset_of(self.subtree@.nodes.dom()) ==> r@.len()
                == self.subtree.cluster_root_keys().len(),
            self.subtree@.cluster_roots.subset_of(self.subtree@.nodes.dom()) ==> forall|i: int|
                0 <= i < r@.len() ==> (#[trigger] r@[i]).key@ == self.subtree.cluster_root_keys()[i]
                    && *r@[i].node == self.subtree@.nodes[self.subtree.cluster_root_keys()[i]]
                    && r@[i].subtree_ctx == *self,
    {
        let keys = self.subtree.cluster_root_key_list();
        let mut r: Vec<NodeCtx<'a>> = Vec::new();
        let mut i: usize = 0;
        proof {
            self.subtree.lemma_cluster_root_keys();
        }
        while i < keys.len()
            invariant
                self.subtree.wf(),
                keys@.map_values(|k: Key| k@) == self.subtree.cluster_root_keys(),
                self.subtree.cluster_root_keys().to_set() == self.subtree@.cluster_roots,
                self.subtree.cluster_root_keys().len() == self.subtree@.cluster_roots.len(),
                i <= keys@.len(),
                r@.len() <= i,
                self.subtree@.cluster_roots.subset_of(self.subtree@.nodes.dom()) ==> r@.len() == i,
                self.subtree@.cluster_roots.subset_of(self.subtree@.nodes.dom()) ==> forall|j: int|
                    0 <= j < r@.len() ==> (#[trigger] r@[j]).key@ == self.subtree.cluster_root_keys()[j]
                        && *r@[j].node == self.subtree@.nodes[self.subtree.cluster_root_keys()[j]]
                        && r@[j].subtree_ctx == *self,
                forall|j: int|
                    0 <= j < r@.len() ==> self.subtree@.cluster_roots.contains((#[trigger] r@[j]).key@)
                        && self.subtree@.nodes.contains_key(r@[j].key@) && *r@[j].node
                        == self.subtree@.nodes[r@[j].key@],
            decreases keys@.len() - i,
        {
            proof {
                assert(keys@[i as int]@ == self.subtree.cluster_root_keys()[i as int]);
                assert(self.subtree.cluster_root_keys().to_set().contains(keys@[i as int]@));
            }
            match self.get_node(keys[i].as_slice()) {
                Some(c) => {
                    r.push(c);
                },
                None => {},
            }
            i = i + 1;
        }
        r
    }
}

impl<'a> NodeCtx<'a> {
    pub fn node(&self) -> (r: &'a Node)
        ensures
            r == self.node,
    {
        self.node
    }

    pub fn key(&self) -> (r: &'a Key)
        ensures
            r == self.key,
    {
        self.key
    }

    pub fn path(&self) -> (r: &'a Path)
        ensures
            r == self.subtree_ctx.path,
    {
        self.subtree_ctx.path
    }

    pub fn subtree(&self) -> (r: &'a Subtree)
        ensures
            r == self.subtree_ctx.subtree,
    {
        self.subtree_ctx.subtree
    }

    pub fn subtree_ctx(&self) -> (r: SubtreeCtx<'a>)
        ensures
            r == self.subtree_ctx,
    {
        self.subtree_ctx
    }

    /// The node, its path and its key.
    pub fn split(self) -> (r: (&'a Node, &'a Path, &'a Key))
        ensures
            r == (self.node, self.subtree_ctx.path, self.key),
    {
        (self.node, self.subtree_ctx.path, self.key)
    }
}

} // verus!
