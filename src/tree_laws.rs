//! Laws of the tree-level operations, stated over the map of subtree views.

use crate::subtree::{Node, SubtreeView};
use crate::tree::{linked, populate_step, populated, populated_from, subtree_or_empty, tree_inserted};
use crate::subtree::Element;
use vstd::prelude::*;

verus! {

/// The subtrees that populating `path` on an empty tree has made after its
/// first `d` steps: one per prefix shorter than `d`, each holding only a
/// placeholder under the next segment.
pub open spec fn fresh_chain(path: Seq<Seq<u8>>, d: nat) -> Map<Seq<Seq<u8>>, SubtreeView>
    decreases d,
{
    if d == 0 {
        Map::empty()
    } else {
        fresh_chain(path, (d - 1) as nat).insert(
            path.subrange(0, d - 1),
            SubtreeView::empty().inserted(path[d - 1], Node::placeholder()),
        )
    }
}

proof fn lemma_fresh_chain_dom(path: Seq<Seq<u8>>, d: nat)
    requires
        d <= path.len(),
    ensures
        fresh_chain(path, d).dom().finite(),
        fresh_chain(path, d).dom().len() == d,
        forall|p: Seq<Seq<u8>>| #[trigger]
            fresh_chain(path, d).contains_key(p) ==> p.len() < d && p == path.subrange(
                0,
                p.len() as int,
            ),
    decreases d,
{
    if d > 0 {
        lemma_fresh_chain_dom(path, (d - 1) as nat);
        let pre = path.subrange(0, d - 1);
        assert(!fresh_chain(path, (d - 1) as nat).contains_key(pre));
    }
}

proof fn lemma_fresh_chain_value(path: Seq<Seq<u8>>, m: nat, d: nat)
    requires
        d < m <= path.len(),
    ensures
        fresh_chain(path, m).contains_key(path.subrange(0, d as int)),
        fresh_chain(path, m)[path.subrange(0, d as int)] == SubtreeView::empty().inserted(
            path[d as int],
            Node::placeholder(),
        ),
    decreases m,
{
    if m - 1 > d {
        lemma_fresh_chain_value(path, (m - 1) as nat, d);
        assert(path.subrange(0, d as int).len() != path.subrange(0, m - 1).len());
    }
}

proof fn lemma_populated_from_fresh(path: Seq<Seq<u8>>, d: nat)
    requires
        d <= path.len(),
    ensures
        populated_from(fresh_chain(path, d), path, d) == fresh_chain(path, path.len()).insert(
            path,
            SubtreeView::empty(),
        ),
    decreases path.len() - d,
{
    lemma_fresh_chain_dom(path, d);
    let pre = path.subrange(0, d as int);
    assert(!fresh_chain(path, d).contains_key(pre));
    if d < path.len() {
        assert(populate_step(fresh_chain(path, d), path, d) == fresh_chain(path, d + 1));
        lemma_populated_from_fresh(path, d + 1);
    } else {
        assert(pre =~= path);
    }
}

/// Populating the chain of a path with `n` segments on a new tree (only the
/// empty root subtree) gives exactly `n + 1` subtrees, one per prefix; each but the
/// deepest holds exactly one node, a placeholder under the next segment, and
/// the deepest holds no node.
pub proof fn lemma_populate_empty_tree(path: Seq<Seq<u8>>)
    ensures
        ({
            let t = populated(Map::empty().insert(Seq::empty(), SubtreeView::empty()), path);
            &&& t.dom().finite()
            &&& t.dom().len() == path.len() + 1
            &&& forall|d: int| 0 <= d <= path.len() ==> t.contains_key(#[trigger] path.subrange(0, d))
            &&& forall|d: int|
                0 <= d < path.len() ==> t[#[trigger] path.subrange(0, d)].nodes == Map::<
                    Seq<u8>,
                    Node,
                >::empty().insert(path[d], Node::placeholder())
            &&& t[path].nodes == Map::<Seq<u8>, Node>::empty()
        }),
{
    let n = path.len();
    let t0 = Map::<Seq<Seq<u8>>, SubtreeView>::empty().insert(Seq::empty(), SubtreeView::empty());
    let e = Map::<Seq<Seq<u8>>, SubtreeView>::empty();
    assert(path.subrange(0, 0) =~= Seq::<Seq<u8>>::empty());
    assert(populate_step(t0, path, 0) =~= populate_step(e, path, 0));
    assert(populated(t0, path) == populated(e, path));
    lemma_populated_from_fresh(path, 0);
    lemma_fresh_chain_dom(path, n);
    let t = populated(Map::empty(), path);
    assert(t == fresh_chain(path, n).insert(path, SubtreeView::empty()));
    assert(!fresh_chain(path, n).contains_key(path));
    assert forall|d: int| 0 <= d <= path.len() implies t.contains_key(
        #[trigger] path.subrange(0, d),
    ) by {
        if d < n {
            lemma_fresh_chain_value(path, n, d as nat);
        } else {
            assert(path.subrange(0, d) =~= path);
        }
    }
    assert forall|d: int| 0 <= d < path.len() implies t[#[trigger] path.subrange(0, d)].nodes
        == Map::<Seq<u8>, Node>::empty().insert(path[d], Node::placeholder()) by {
        lemma_fresh_chain_value(path, n, d as nat);
        assert(path.subrange(0, d).len() != path.len());
    }
}

/// Unloading the subtree at a path keeps its entry, leaves it without nodes,
/// and leaves every other subtree, the parent's announcing node included,
/// as it was.
pub proof fn lemma_clear_then_get(t: Map<Seq<Seq<u8>>, SubtreeView>, path: Seq<Seq<u8>>)
    requires
        t.contains_key(path),
    ensures
        ({
            let c = t.insert(path, t[path].cleared());
            &&& c.contains_key(path)
            &&& c[path].nodes.len() == 0
            &&& c[path].root_node == t[path].root_node
            &&& forall|p: Seq<Seq<u8>>| p != path ==> #[trigger] c.contains_key(p) == t.contains_key(p)
            &&& forall|p: Seq<Seq<u8>>| p != path && t.contains_key(p) ==> #[trigger] c[p] == t[p]
        }),
{
}

/// Every subtree but the root one hangs under a node of its parent subtree:
/// the subtree at `p·k` has a parent subtree at `p` that knows a node `k`.
pub open spec fn announces_children(t: Map<Seq<Seq<u8>>, SubtreeView>) -> bool {
    forall|p: Seq<Seq<u8>>|
        #[trigger] t.contains_key(p) && p.len() > 0 ==> t.contains_key(p.drop_last()) && t[p.drop_last()].nodes.contains_key(
            p.last(),
        )
}

/// `t2` keeps every subtree of `t` and every node key in it.
pub open spec fn keeps_nodes(t: Map<Seq<Seq<u8>>, SubtreeView>, t2: Map<Seq<Seq<u8>>, SubtreeView>) -> bool {
    forall|p: Seq<Seq<u8>>| #[trigger]
        t.contains_key(p) ==> t2.contains_key(p) && t[p].nodes.dom().subset_of(t2[p].nodes.dom())
}

proof fn lemma_keeps_nodes_transitive(
    a: Map<Seq<Seq<u8>>, SubtreeView>,
    b: Map<Seq<Seq<u8>>, SubtreeView>,
    c: Map<Seq<Seq<u8>>, SubtreeView>,
)
    requires
        keeps_nodes(a, b),
        keeps_nodes(b, c),
    ensures
        keeps_nodes(a, c),
{
    assert forall|p: Seq<Seq<u8>>| #[trigger] a.contains_key(p) implies c.contains_key(p)
        && a[p].nodes.dom().subset_of(c[p].nodes.dom()) by {
        assert(b.contains_key(p));
    }
}

proof fn lemma_inserted_nodes(s: SubtreeView, k: Seq<u8>, n: Node)
    ensures
        s.inserted(k, n).nodes.dom() == s.nodes.dom().insert(k),
{
    assert(s.inserted(k, n).nodes.dom() =~= s.nodes.dom().insert(k));
}

/// Populating from depth `d` on keeps what was there, makes every prefix of
/// length at least `d`, and gives each a node for the next segment.
proof fn lemma_populated_from_shape(t: Map<Seq<Seq<u8>>, SubtreeView>, path: Seq<Seq<u8>>, d: nat)
    requires
        d <= path.len(),
    ensures
        keeps_nodes(t, populated_from(t, path, d)),
        forall|p: Seq<Seq<u8>>| #[trigger]
            populated_from(t, path, d).contains_key(p) ==> t.contains_key(p) || (d <= p.len()
                <= path.len() && p == path.subrange(0, p.len() as int)),
        forall|j: int|
            d <= j <= path.len() ==> populated_from(t, path, d).contains_key(
                #[trigger] path.subrange(0, j),
            ),
        forall|j: int|
            d <= j < path.len() ==> populated_from(t, path, d)[#[trigger] path.subrange(
                0,
                j,
            )].nodes.contains_key(path[j]),
    decreases path.len() - d,
{
    let pre = path.subrange(0, d as int);
    let t1 = populate_step(t, path, d);
    let st = subtree_or_empty(t, pre);
    if d < path.len() && !st.nodes.contains_key(path[d as int]) {
        lemma_inserted_nodes(st, path[d as int], Node::placeholder());
    }
    assert(keeps_nodes(t, t1));
    if d < path.len() {
        assert(t1[pre].nodes.contains_key(path[d as int]));
        lemma_populated_from_shape(t1, path, d + 1);
        let r = populated_from(t1, path, d + 1);
        assert(populated_from(t, path, d) == r);
        lemma_keeps_nodes_transitive(t, t1, r);
        assert forall|p: Seq<Seq<u8>>| #[trigger] r.contains_key(p) implies t.contains_key(p) || (d
            <= p.len() <= path.len() && p == path.subrange(0, p.len() as int)) by {
            if t1.contains_key(p) && !t.contains_key(p) {
                assert(p == pre);
            }
        }
        assert(t1.contains_key(pre));
        assert(r.contains_key(pre));
        assert(t1[pre].nodes.dom().contains(path[d as int]));
        assert(r[pre].nodes.contains_key(path[d as int]));
    } else {
        assert(pre =~= path);
    }
}

/// Inserting a node keeps every subtree hanging under a node of its parent
/// subtree.
pub proof fn lemma_insert_keeps_children_announced(
    t: Map<Seq<Seq<u8>>, SubtreeView>,
    path: Seq<Seq<u8>>,
    key: Seq<u8>,
    node: Node,
)
    requires
        announces_children(t),
    ensures
        announces_children(tree_inserted(t, path, key, node)),
{
    lemma_populated_from_shape(t, path, 0);
    let t1 = populated(t, path);
    assert(path.subrange(0, path.len() as int) =~= path);
    assert(t1.contains_key(path));
    assert(announces_children(t1)) by {
        assert forall|p: Seq<Seq<u8>>| #[trigger]
            t1.contains_key(p) && p.len() > 0 implies t1.contains_key(p.drop_last())
            && t1[p.drop_last()].nodes.contains_key(p.last()) by {
            if t.contains_key(p) {
                assert(t.contains_key(p.drop_last()));
            } else {
                let j = p.len() - 1;
                assert(p.drop_last() =~= path.subrange(0, j));
                assert(t1.contains_key(path.subrange(0, j)));
                assert(t1[path.subrange(0, j)].nodes.contains_key(path[j]));
                assert(p.last() == path[j]);
            }
        }
    }
    let cp = path.push(key);
    let t2 = match node.element {
        Element::Sumtree { root_key, .. } => linked(t1, cp, root_key),
        Element::Subtree { root_key } => linked(t1, cp, root_key),
        _ => t1,
    };
    assert(keeps_nodes(t1, t2));
    assert(t2.contains_key(path));
    let s = subtree_or_empty(t2, path);
    lemma_inserted_nodes(s, key, node);
    let t3 = t2.insert(path, s.inserted(key, node));
    assert(t3 == tree_inserted(t, path, key, node));
    assert(keeps_nodes(t2, t3));
    assert forall|p: Seq<Seq<u8>>| #[trigger]
        t3.contains_key(p) && p.len() > 0 implies t3.contains_key(p.drop_last())
        && t3[p.drop_last()].nodes.contains_key(p.last()) by {
        if t1.contains_key(p) {
            assert(t1.contains_key(p.drop_last()));
            assert(t2.contains_key(p.drop_last()));
        } else {
            assert(p == cp);
            assert(p.drop_last() =~= path);
            assert(p.last() == key);
        }
    }
}

} // verus!
