//! Integer sizing helpers for laying subtrees out on a canvas.

use vstd::arithmetic::power2::{lemma2_to64, lemma_pow2_strictly_increases, lemma_pow2_unfold, pow2};
use crate::key_set::KeySet;
use crate::keys::Key;
use crate::subtree::{Subtree, SubtreeView};
use vstd::prelude::*;

verus! {

/// Number of levels of the part of a subtree drawn below `k`: `k` itself when
/// known, and below it each child whose side is shown (`left` and `right`
/// hold the keys whose left or right child is shown) and known. At most
/// `fuel` levels are counted.
pub open spec fn shown_levels(
    s: SubtreeView,
    left: Set<Seq<u8>>,
    right: Set<Seq<u8>>,
    k: Seq<u8>,
    fuel: nat,
) -> nat
    decreases fuel,
{
    if fuel == 0 || !s.nodes.contains_key(k) {
        0
    } else {
        let n = s.nodes[k];
        let l = if left.contains(k) && n.left_child is Some {
            shown_levels(s, left, right, n.left_child->0@, (fuel - 1) as nat)
        } else {
            0
        };
        let r = if right.contains(k) && n.right_child is Some {
            shown_levels(s, left, right, n.right_child->0@, (fuel - 1) as nat)
        } else {
            0
        };
        1 + if l > r {
            l
        } else {
            r
        }
    }
}

fn shown_depth(s: &Subtree, left: &KeySet, right: &KeySet, k: &Key, fuel: usize) -> (r: usize)
    requires
        s.wf(),
        left.wf(),
        right.wf(),
    ensures
        r == shown_levels(s@, left@, right@, k@, fuel as nat),
        r <= fuel,
    decreases fuel,
{
    if fuel == 0 {
        return 0;
    }
    match s.get_node(k.as_slice()) {
        None => 0,
        Some(node) => {
            let l = match &node.left_child {
                Some(c) => if left.contains(k) {
                    shown_depth(s, left, right, c, fuel - 1)
                } else {
                    0
                },
                None => 0,
            };
            let r = match &node.right_child {
                Some(c) => if right.contains(k) {
                    shown_depth(s, left, right, c, fuel - 1)
                } else {
                    0
                },
                None => 0,
            };
            1 + if l > r {
                l
            } else {
                r
            }
        },
    }
}

/// Number of levels of an expanded subtree as drawn: from the root node
/// down through the children whose side is shown, counting at most as many
/// levels as there are nodes; zero when the root node is not known.
pub fn expanded_subtree_levels(subtree: &Subtree, shown_left: &KeySet, shown_right: &KeySet) -> (r:
    usize)
    requires
        subtree.wf(),
        shown_left.wf(),
        shown_right.wf(),
    ensures
        r == match subtree@.root_node {
            Some(k) => shown_levels(subtree@, shown_left@, shown_right@, k, subtree@.nodes.len()),
            None => 0,
        },
{
    match subtree.root_key() {
        Some(k) => shown_depth(subtree, shown_left, shown_right, k, subtree.n_nodes()),
        None => 0,
    }
}

/// Number of leaf slots on the deepest level of a complete binary tree with
/// `n_levels` levels: `2^(n_levels - 1)`, and zero for an empty tree.
pub fn leaves_level_count(n_levels: u32) -> (r: u32)
    requires
        n_levels <= 32,
    ensures
        n_levels == 0 ==> r == 0,
        n_levels > 0 ==> r == pow2((n_levels - 1) as nat),
{
    if n_levels > 0 {
        let mut r: u32 = 1;
        let mut i: u32 = 1;
        proof {
            lemma2_to64();
        }
        while i < n_levels
            invariant
                1 <= i <= n_levels <= 32,
                r == pow2((i - 1) as nat),
            decreases n_levels - i,
        {
            proof {
                lemma2_to64();
                if i - 1 < 30 {
                    lemma_pow2_strictly_increases((i - 1) as nat, 30);
                }
                lemma_pow2_unfold(i as nat);
            }
            r = r * 2;
            i = i + 1;
        }
        r
    } else {
        0
    }
}

} // verus!
