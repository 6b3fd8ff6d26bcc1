//! Laws of the subtree bookkeeping, stated over `SubtreeView`.

use crate::subtree::{Node, SubtreeView};
use vstd::prelude::*;

verus! {

/// One mutation of a subtree.
pub enum SubtreeOp {
    Insert { key: Seq<u8>, node: Node },
    Remove { key: Seq<u8> },
}

impl SubtreeOp {
    /// The operation does not insert a node that names itself as a child.
    pub open spec fn no_self_child(self) -> bool {
        match self {
            SubtreeOp::Insert { key, node } => !node.children().contains(key),
            SubtreeOp::Remove { .. } => true,
        }
    }

    pub open spec fn apply(self, s: SubtreeView) -> SubtreeView {
        match self {
            SubtreeOp::Insert { key, node } => s.inserted(key, node),
            SubtreeOp::Remove { key } => s.removed(key),
        }
    }
}

/// State after applying `ops` in order.
pub open spec fn apply_all(s: SubtreeView, ops: Seq<SubtreeOp>) -> SubtreeView
    decreases ops.len(),
{
    if ops.len() == 0 {
        s
    } else {
        apply_all(ops[0].apply(s), ops.drop_first())
    }
}

/// Removing a node keeps the waitlist apart from the known nodes and the
/// cluster roots among them.
pub proof fn lemma_remove_keeps_consistent(s: SubtreeView, k: Seq<u8>)
    requires
        s.consistent(),
    ensures
        s.removed(k).consistent(),
{
    let r = s.removed(k);
    if s.nodes.contains_key(k) {
        assert(r.waitlist.disjoint(r.nodes.dom()));
        assert(r.cluster_roots.subset_of(r.nodes.dom()));
    }
}

/// Inserting a node that does not name itself as a child keeps the waitlist
/// apart from the known nodes and the cluster roots among them.
pub proof fn lemma_insert_keeps_consistent(s: SubtreeView, k: Seq<u8>, n: Node)
    requires
        s.consistent(),
        !n.children().contains(k),
    ensures
        s.inserted(k, n).consistent(),
{
    lemma_remove_keeps_consistent(s, k);
    let r = s.inserted(k, n);
    assert(r.waitlist.disjoint(r.nodes.dom()));
    assert(r.cluster_roots.subset_of(r.nodes.dom()));
}

/// After any sequence of inserts and removes (no inserted node naming itself
/// as a child), nothing is both known and awaited, and every cluster root is
/// a known node.
pub proof fn lemma_ops_keep_consistent(s: SubtreeView, ops: Seq<SubtreeOp>)
    requires
        s.consistent(),
        forall|i: int| 0 <= i < ops.len() ==> (#[trigger] ops[i]).no_self_child(),
    ensures
        apply_all(s, ops).consistent(),
    decreases ops.len(),
{
    if ops.len() > 0 {
        match ops[0] {
            SubtreeOp::Insert { key, node } => {
                assert(ops[0].no_self_child());
                lemma_insert_keeps_consistent(s, key, node);
            },
            SubtreeOp::Remove { key } => {
                lemma_remove_keeps_consistent(s, key);
            },
        }
        let rest = ops.drop_first();
        assert forall|i: int| 0 <= i < rest.len() implies (#[trigger] rest[i]).no_self_child() by {
            assert(rest[i] == ops[i + 1]);
        }
        lemma_ops_keep_consistent(ops[0].apply(s), rest);
    }
}

/// Inserting the same node under the same key twice in a row leaves the
/// subtree as inserting it once does.
pub proof fn lemma_insert_idempotent(s: SubtreeView, k: Seq<u8>, n: Node)
    requires
        s.consistent(),
        !n.children().contains(k),
    ensures
        s.inserted(k, n).inserted(k, n) == s.inserted(k, n),
{
    let t = s.inserted(k, n);
    let u = t.inserted(k, n);
    let m = t.removed(k);
    assert(m.nodes =~= s.removed(k).nodes);
    assert(u.nodes =~= t.nodes);
    assert(u.cluster_roots =~= t.cluster_roots);
    assert(u.waitlist =~= t.waitlist);
}

/// Removing a known node and inserting it again restores the subtree, where
/// the node does not name itself as a child, the key is not awaited, the
/// root is no cluster root, and each of the node's children is no cluster
/// root and is awaited exactly when it is unknown.
pub proof fn lemma_remove_insert_round_trip(s: SubtreeView, k: Seq<u8>)
    requires
        s.nodes.contains_key(k),
        !s.nodes[k].children().contains(k),
        !s.waitlist.contains(k),
        s.root_node == Some(k) ==> !s.cluster_roots.contains(k),
        forall|c: Seq<u8>| #[trigger]
            s.nodes[k].children().contains(c) ==> !s.cluster_roots.contains(c) && (
            s.waitlist.contains(c) <==> !s.nodes.contains_key(c)),
    ensures
        s.removed(k).inserted(k, s.nodes[k]) == s,
{
    let n = s.nodes[k];
    let r = s.removed(k).inserted(k, n);
    assert(r.nodes =~= s.nodes);
    assert(r.cluster_roots =~= s.cluster_roots);
    assert(r.waitlist =~= s.waitlist);
}

/// Keys a subtree is entered from: its cluster roots and its declared root.
pub open spec fn entry_points(s: SubtreeView) -> Set<Seq<u8>> {
    match s.root_node {
        Some(r) => s.cluster_roots.insert(r),
        None => s.cluster_roots,
    }
}

/// `x` is a known node reached from one of `starts` through at most `n`
/// child links between known nodes.
pub open spec fn reaches(s: SubtreeView, starts: Set<Seq<u8>>, x: Seq<u8>, n: nat) -> bool
    decreases n,
{
    s.nodes.contains_key(x) && (starts.contains(x) || (n > 0 && exists|p: Seq<u8>|
        #![trigger s.nodes[p]]
        s.nodes.contains_key(p) && s.nodes[p].children().contains(x) && reaches(
            s,
            starts,
            p,
            (n - 1) as nat,
        )))
}

/// Every known node is reached from the root or from a cluster root: no
/// known node escapes tracking.
pub open spec fn all_tracked(s: SubtreeView) -> bool {
    forall|x: Seq<u8>|
        #[trigger] s.nodes.contains_key(x) ==> exists|n: nat| reaches(s, entry_points(s), x, n)
}

/// Every awaited key is named as a child by some known node.
pub open spec fn awaited_named(s: SubtreeView) -> bool {
    forall|w: Seq<u8>|
        #[trigger] s.waitlist.contains(w) ==> exists|p: Seq<u8>|
            #![trigger s.nodes[p]]
            s.nodes.contains_key(p) && s.nodes[p].children().contains(w)
}

/// No known node names itself as a child.
pub open spec fn no_self_children(s: SubtreeView) -> bool {
    forall|k: Seq<u8>| #[trigger] s.nodes.contains_key(k) ==> !s.nodes[k].children().contains(k)
}

/// Every known node is reached from the root or a cluster root, with the two
/// facts that keep this so under inserts and removes.
pub open spec fn reach_invariant(s: SubtreeView) -> bool {
    &&& all_tracked(s)
    &&& awaited_named(s)
    &&& no_self_children(s)
}

/// Inserting `nd` under `k` closes no cycle: when `k` is awaited (and not
/// the root), some node naming it is reached from an entry point other than
/// `nd`'s children.
pub open spec fn hangs_apart(s: SubtreeView, k: Seq<u8>, nd: Node) -> bool {
    let s1 = s.removed(k);
    (s1.waitlist.contains(k) && s1.root_node != Some(k)) ==> exists|p: Seq<u8>, m: nat|
        #![trigger reaches(s1, entry_points(s1).difference(nd.children()), p, m)]
        s1.nodes.contains_key(p) && s1.nodes[p].children().contains(k) && reaches(
            s1,
            entry_points(s1).difference(nd.children()),
            p,
            m,
        )
}

proof fn lemma_reaches_mono(s: SubtreeView, a: Set<Seq<u8>>, b: Set<Seq<u8>>, x: Seq<u8>, n: nat, m: nat)
    requires
        reaches(s, a, x, n),
        a.subset_of(b),
        n <= m,
    ensures
        reaches(s, b, x, m),
    decreases n,
{
    if !a.contains(x) {
        let p = choose|p: Seq<u8>|
            #![trigger s.nodes[p]]
            s.nodes.contains_key(p) && s.nodes[p].children().contains(x) && reaches(
                s,
                a,
                p,
                (n - 1) as nat,
            );
        lemma_reaches_mono(s, a, b, p, (n - 1) as nat, (m - 1) as nat);
        assert(s.nodes.contains_key(p) && s.nodes[p].children().contains(x) && reaches(
            s,
            b,
            p,
            (m - 1) as nat,
        ));
    }
}

/// Reaching survives adding nodes that keep the known ones as they were.
proof fn lemma_reaches_grown(s: SubtreeView, t: SubtreeView, a: Set<Seq<u8>>, x: Seq<u8>, n: nat)
    requires
        reaches(s, a, x, n),
        forall|p: Seq<u8>| #[trigger]
            s.nodes.contains_key(p) ==> t.nodes.contains_key(p) && t.nodes[p] == s.nodes[p],
    ensures
        reaches(t, a, x, n),
    decreases n,
{
    if !a.contains(x) {
        let p = choose|p: Seq<u8>|
            #![trigger s.nodes[p]]
            s.nodes.contains_key(p) && s.nodes[p].children().contains(x) && reaches(
                s,
                a,
                p,
                (n - 1) as nat,
            );
        lemma_reaches_grown(s, t, a, p, (n - 1) as nat);
        assert(t.nodes.contains_key(p) && t.nodes[p].children().contains(x) && reaches(
            t,
            a,
            p,
            (n - 1) as nat,
        ));
    }
}

/// After removing `k`, what was reached without ending at `k` is reached
/// from the old starts (but `k`) and from `k`'s known children.
proof fn lemma_reaches_removed(s: SubtreeView, k: Seq<u8>, a: Set<Seq<u8>>, x: Seq<u8>, n: nat)
    requires
        s.nodes.contains_key(k),
        reaches(s, a, x, n),
        x != k,
    ensures
        reaches(
            s.removed(k),
            a.remove(k).union(s.nodes[k].children().intersect(s.removed(k).nodes.dom())),
            x,
            n,
        ),
    decreases n,
{
    let s1 = s.removed(k);
    let b = a.remove(k).union(s.nodes[k].children().intersect(s1.nodes.dom()));
    assert(s1.nodes.contains_key(x));
    if !a.contains(x) {
        let p = choose|p: Seq<u8>|
            #![trigger s.nodes[p]]
            s.nodes.contains_key(p) && s.nodes[p].children().contains(x) && reaches(
                s,
                a,
                p,
                (n - 1) as nat,
            );
        if p == k {
            assert(b.contains(x));
        } else {
            lemma_reaches_removed(s, k, a, p, (n - 1) as nat);
            assert(s1.nodes[p] == s.nodes[p]);
            assert(s1.nodes.contains_key(p) && s1.nodes[p].children().contains(x) && reaches(
                s1,
                b,
                p,
                (n - 1) as nat,
            ));
        }
    }
}

/// What is reached from `a` or from `c` is reached from `a` alone when every
/// known node of `c` is.
proof fn lemma_reaches_through(
    s: SubtreeView,
    a: Set<Seq<u8>>,
    c: Set<Seq<u8>>,
    x: Seq<u8>,
    n: nat,
    m0: nat,
)
    requires
        reaches(s, a.union(c), x, n),
        forall|y: Seq<u8>| #[trigger] c.contains(y) && s.nodes.contains_key(y) ==> reaches(s, a, y, m0),
    ensures
        reaches(s, a, x, n + m0),
    decreases n,
{
    if a.contains(x) {
    } else if c.contains(x) {
        lemma_reaches_mono(s, a, a, x, m0, n + m0);
    } else {
        let p = choose|p: Seq<u8>|
            #![trigger s.nodes[p]]
            s.nodes.contains_key(p) && s.nodes[p].children().contains(x) && reaches(
                s,
                a.union(c),
                p,
                (n - 1) as nat,
            );
        lemma_reaches_through(s, a, c, p, (n - 1) as nat, m0);
        assert(s.nodes.contains_key(p) && s.nodes[p].children().contains(x) && reaches(
            s,
            a,
            p,
            (n - 1 + m0) as nat,
        ));
    }
}

/// An empty subtree keeps no node untracked.
pub proof fn lemma_empty_tracked()
    ensures
        reach_invariant(SubtreeView::empty()),
{
}

/// Removing a node keeps every known node reached from the root or a
/// cluster root: its known children become cluster roots.
pub proof fn lemma_remove_keeps_tracked(s: SubtreeView, k: Seq<u8>)
    requires
        reach_invariant(s),
    ensures
        reach_invariant(s.removed(k)),
{
    if s.nodes.contains_key(k) {
        let s1 = s.removed(k);
        let c = s.nodes[k].children();
        let e = entry_points(s);
        let e1 = entry_points(s1);
        let b = e.remove(k).union(c.intersect(s1.nodes.dom()));
        assert(b.subset_of(e1));
        assert forall|x: Seq<u8>| #[trigger] s1.nodes.contains_key(x) implies exists|n: nat|
            reaches(s1, e1, x, n) by {
            let n = choose|n: nat| reaches(s, e, x, n);
            lemma_reaches_removed(s, k, e, x, n);
            lemma_reaches_mono(s1, b, e1, x, n, n);
        }
        assert forall|w: Seq<u8>| #[trigger] s1.waitlist.contains(w) implies exists|p: Seq<u8>|
            #![trigger s1.nodes[p]]
            s1.nodes.contains_key(p) && s1.nodes[p].children().contains(w) by {
            if w == k && !s.waitlist.contains(k) {
                let n = choose|n: nat| reaches(s, e, k, n);
                assert(!e.contains(k));
                let p = choose|p: Seq<u8>|
                    #![trigger s.nodes[p]]
                    s.nodes.contains_key(p) && s.nodes[p].children().contains(k) && reaches(
                        s,
                        e,
                        p,
                        (n - 1) as nat,
                    );
                assert(p != k);
                assert(s1.nodes[p] == s.nodes[p]);
            } else {
                assert(s.waitlist.contains(w) && !c.contains(w));
                let p = choose|p: Seq<u8>|
                    #![trigger s.nodes[p]]
                    s.nodes.contains_key(p) && s.nodes[p].children().contains(w);
                assert(p != k);
                assert(s1.nodes[p] == s.nodes[p]);
            }
        }
    }
}

/// Inserting a node that does not name itself and closes no cycle keeps
/// every known node reached from the root or a cluster root.
pub proof fn lemma_insert_keeps_tracked(s: SubtreeView, k: Seq<u8>, nd: Node)
    requires
        reach_invariant(s),
        !nd.children().contains(k),
        hangs_apart(s, k, nd),
    ensures
        reach_invariant(s.inserted(k, nd)),
{
    lemma_remove_keeps_tracked(s, k);
    let s1 = s.removed(k);
    let s2 = s.inserted(k, nd);
    let c = nd.children();
    let e1 = entry_points(s1);
    let e2 = entry_points(s2);
    assert(!s1.nodes.contains_key(k));
    assert(e1.difference(c).subset_of(e2));
    assert(e1.subset_of(e2.union(c)));
    assert forall|p: Seq<u8>| #[trigger]
        s1.nodes.contains_key(p) implies s2.nodes.contains_key(p) && s2.nodes[p] == s1.nodes[p] by {
        assert(p != k);
    }
    let m0: nat = if e2.contains(k) {
        0
    } else {
        assert(s1.waitlist.contains(k));
        let (p, m) = choose|p: Seq<u8>, m: nat|
            #![trigger reaches(s1, e1.difference(c), p, m)]
            s1.nodes.contains_key(p) && s1.nodes[p].children().contains(k) && reaches(
                s1,
                e1.difference(c),
                p,
                m,
            );
        lemma_reaches_grown(s1, s2, e1.difference(c), p, m);
        lemma_reaches_mono(s2, e1.difference(c), e2, p, m, m);
        assert(s2.nodes.contains_key(p) && s2.nodes[p].children().contains(k) && reaches(
            s2,
            e2,
            p,
            m,
        ));
        m + 1
    };
    assert(reaches(s2, e2, k, m0));
    assert forall|y: Seq<u8>| #[trigger] c.contains(y) && s2.nodes.contains_key(y) implies reaches(
        s2,
        e2,
        y,
        m0 + 1,
    ) by {
        assert(s2.nodes.contains_key(k) && s2.nodes[k].children().contains(y) && reaches(
            s2,
            e2,
            k,
            m0,
        ));
    }
    assert forall|x: Seq<u8>| #[trigger] s2.nodes.contains_key(x) implies exists|n: nat|
        reaches(s2, e2, x, n) by {
        if x != k {
            let n = choose|n: nat| reaches(s1, e1, x, n);
            lemma_reaches_grown(s1, s2, e1, x, n);
            lemma_reaches_mono(s2, e1, e2.union(c), x, n, n);
            lemma_reaches_through(s2, e2, c, x, n, m0 + 1);
        }
    }
    assert forall|w: Seq<u8>| #[trigger] s2.waitlist.contains(w) implies exists|p: Seq<u8>|
        #![trigger s2.nodes[p]]
        s2.nodes.contains_key(p) && s2.nodes[p].children().contains(w) by {
        if s1.waitlist.contains(w) && w != k {
            let p = choose|p: Seq<u8>|
                #![trigger s1.nodes[p]]
                s1.nodes.contains_key(p) && s1.nodes[p].children().contains(w);
            assert(s2.nodes[p] == s1.nodes[p]);
        } else {
            assert(s2.nodes[k] == nd);
        }
    }
}

} // verus!
