//! A self-balancing (AVL) binary search tree with size augmentation.
//!
//! Every node stores the size of its subtree and a three-way balance tag
//! recording which child subtree is taller. Insertions and removals rebalance
//! bottom-up by single and double rotations; the stored sizes answer rank and
//! selection queries in logarithmic time.

use crate::sorted_seq::{num_below, seq_has_key, sorted_keys};
use vstd::prelude::*;

verus! {

/// Which of a node's two subtrees is the taller one.
#[derive(Clone, Copy, PartialEq, Eq, Structural)]
pub enum ThreeWay {
    /// The left subtree is taller by one.
    Left,
    /// The right subtree is taller by one.
    Right,
    /// Both subtrees have the same height.
    Equal,
}

struct Node {
    key: i64,
    value: i64,
    left: Option<Box<Node>>,
    right: Option<Box<Node>>,
    size: usize,
    state: ThreeWay,
}

/// The entries of the subtree, in ascending key order.
spec fn inorder_opt(n: Option<Box<Node>>) -> Seq<(i64, i64)>
    decreases n,
{
    match n {
        None => Seq::empty(),
        Some(node) => inorder_opt(node.left) + seq![(node.key, node.value)] + inorder_opt(
            node.right,
        ),
    }
}

/// The subtree's contents as a key-value map.
spec fn as_map_opt(n: Option<Box<Node>>) -> Map<i64, i64>
    decreases n,
{
    match n {
        None => Map::empty(),
        Some(node) => as_map_opt(node.left).union_prefer_right(as_map_opt(node.right)).insert(
            node.key,
            node.value,
        ),
    }
}

/// The height of the subtree; an absent subtree has height zero.
spec fn hgt(n: Option<Box<Node>>) -> nat
    decreases n,
{
    match n {
        None => 0,
        Some(node) => 1 + if hgt(node.left) >= hgt(node.right) {
            hgt(node.left)
        } else {
            hgt(node.right)
        },
    }
}

/// The balance tag correctly records the skew of the two subtree heights.
/// Since the tag always is one of the three cases, this also bounds the
/// height difference by one: the AVL balance invariant.
spec fn state_ok(node: Node) -> bool {
    match node.state {
        ThreeWay::Left => hgt(node.left) == hgt(node.right) + 1,
        ThreeWay::Equal => hgt(node.left) == hgt(node.right),
        ThreeWay::Right => hgt(node.right) == hgt(node.left) + 1,
    }
}

/// Everything `wf_opt` asks of the root node except its balance tag:
/// well-formed subtrees, search-order keys, and a correct size field.
/// Rebalancing re-establishes `wf_opt` from this weaker shape.
spec fn node_frame_ok(node: Node) -> bool
    decreases node,
{
    &&& wf_opt(node.left)
    &&& wf_opt(node.right)
    &&& (forall|k: i64| as_map_opt(node.left).dom().contains(k) ==> k < node.key)
    &&& (forall|k: i64| as_map_opt(node.right).dom().contains(k) ==> k > node.key)
    &&& node.size == inorder_opt(node.left).len() + 1 + inorder_opt(node.right).len()
}

/// The subtree is well formed: search order, correct sizes, and correct
/// balance tags everywhere.
spec fn wf_opt(n: Option<Box<Node>>) -> bool
    decreases n,
{
    match n {
        None => true,
        Some(node) => node_frame_ok(*node) && state_ok(*node),
    }
}

/// The stored size field, or zero for an absent subtree.
spec fn size_field(n: Option<Box<Node>>) -> nat {
    match n {
        None => 0,
        Some(node) => node.size as nat,
    }
}

/// Reads the stored subtree size without descending.
fn opt_size(n: &Option<Box<Node>>) -> (r: usize)
    ensures
        r == size_field(*n),
{
    match n {
        None => 0,
        Some(node) => node.size,
    }
}

/// Rotates the subtree right: the left child becomes the new root, the old
/// root becomes its right child, and the left child's former right subtree
/// moves under the old root. Sizes are recomputed for the two moved nodes;
/// balance tags travel with their nodes untouched, the caller sets them.
fn rotate_right(node: &mut Option<Box<Node>>)
    requires
        (*old(node)) is Some,
        (*old(node)).unwrap().left is Some,
        ({
            let n = (*old(node)).unwrap();
            let l = n.left.unwrap();
            &&& n.size == inorder_opt(*old(node)).len()
            &&& l.size == inorder_opt(n.left).len()
            &&& size_field(l.right) == inorder_opt(l.right).len()
            &&& (forall|k: i64| as_map_opt(l.left).dom().contains(k) ==> k < l.key)
            &&& (forall|k: i64| as_map_opt(l.right).dom().contains(k) ==> k > l.key)
            &&& (forall|k: i64| as_map_opt(l.right).dom().contains(k) ==> k < n.key)
            &&& l.key < n.key
            &&& (forall|k: i64| as_map_opt(n.right).dom().contains(k) ==> k > n.key)
        }),
    ensures
        (*final(node)) is Some,
        (*final(node)).unwrap().right is Some,
        ({
            let n = (*old(node)).unwrap();
            let l = n.left.unwrap();
            let f = (*final(node)).unwrap();
            let fr = f.right.unwrap();
            &&& f.key == l.key
            &&& f.value == l.value
            &&& f.state == l.state
            &&& f.left == l.left
            &&& f.size == n.size
            &&& fr.key == n.key
            &&& fr.value == n.value
            &&& fr.state == n.state
            &&& fr.left == l.right
            &&& fr.right == n.right
            &&& fr.size == inorder_opt(l.right).len() + 1 + inorder_opt(n.right).len()
        }),
        inorder_opt(*final(node)) =~= inorder_opt(*old(node)),
        as_map_opt(*final(node)) =~= as_map_opt(*old(node)),
{
    let ghost orig = *node;
    let mut n = node.take().unwrap();
    let mut l = n.left.take().unwrap();
    let n_size = n.size;
    let lr = l.right.take();
    n.size = n.size - l.size + opt_size(&lr);
    n.left = lr;
    l.size = n_size;
    l.right = Some(n);
    proof {
        let n0 = orig.unwrap();
        let l0 = n0.left.unwrap();
        assert(inorder_opt(n0.left) == inorder_opt(l0.left) + seq![(l0.key, l0.value)]
            + inorder_opt(l0.right));
        assert(inorder_opt(orig) == inorder_opt(n0.left) + seq![(n0.key, n0.value)] + inorder_opt(
            n0.right,
        ));
        assert(inorder_opt(l.right) == inorder_opt(l0.right) + seq![(n0.key, n0.value)]
            + inorder_opt(n0.right));
        assert(inorder_opt(Some(l)) == inorder_opt(l0.left) + seq![(l0.key, l0.value)]
            + inorder_opt(l.right));
        assert(inorder_opt(Some(l)) =~= inorder_opt(orig));
        let ma = as_map_opt(l0.left);
        let mb = as_map_opt(l0.right);
        let mc = as_map_opt(n0.right);
        assert(as_map_opt(n0.left) == ma.union_prefer_right(mb).insert(l0.key, l0.value));
        assert(as_map_opt(orig) == as_map_opt(n0.left).union_prefer_right(mc).insert(
            n0.key,
            n0.value,
        ));
        assert(as_map_opt(l.right) == mb.union_prefer_right(mc).insert(n0.key, n0.value));
        assert(as_map_opt(Some(l)) == ma.union_prefer_right(as_map_opt(l.right)).insert(
            l0.key,
            l0.value,
        ));
        assert(!mc.dom().contains(l0.key));
        assert(!ma.dom().contains(n0.key));
        assert(!mb.dom().contains(n0.key));
        assert(as_map_opt(Some(l)) =~= as_map_opt(orig));
    }
    *node = Some(l);
}

/// Rotates the subtree left: the mirror image of `rotate_right`.
fn rotate_left(node: &mut Option<Box<Node>>)
    requires
        (*old(node)) is Some,
        (*old(node)).unwrap().right is Some,
        ({
            let n = (*old(node)).unwrap();
            let r = n.right.unwrap();
            &&& n.size == inorder_opt(*old(node)).len()
            &&& r.size == inorder_opt(n.right).len()
            &&& size_field(r.left) == inorder_opt(r.left).len()
            &&& (forall|k: i64| as_map_opt(r.right).dom().contains(k) ==> k > r.key)
            &&& (forall|k: i64| as_map_opt(r.left).dom().contains(k) ==> k < r.key)
            &&& (forall|k: i64| as_map_opt(r.left).dom().contains(k) ==> k > n.key)
            &&& r.key > n.key
            &&& (forall|k: i64| as_map_opt(n.left).dom().contains(k) ==> k < n.key)
        }),
    ensures
        (*final(node)) is Some,
        (*final(node)).unwrap().left is Some,
        ({
            let n = (*old(node)).unwrap();
            let r = n.right.unwrap();
            let f = (*final(node)).unwrap();
            let fl = f.left.unwrap();
            &&& f.key == r.key
            &&& f.value == r.value
            &&& f.state == r.state
            &&& f.right == r.right
            &&& f.size == n.size
            &&& fl.key == n.key
            &&& fl.value == n.value
            &&& fl.state == n.state
            &&& fl.right == r.left
            &&& fl.left == n.left
            &&& fl.size == inorder_opt(n.left).len() + 1 + inorder_opt(r.left).len()
        }),
        inorder_opt(*final(node)) =~= inorder_opt(*old(node)),
        as_map_opt(*final(node)) =~= as_map_opt(*old(node)),
{
    let ghost orig = *node;
    let mut n = node.take().unwrap();
    let mut r = n.right.take().unwrap();
    let n_size = n.size;
    let rl = r.left.take();
    n.size = n.size - r.size + opt_size(&rl);
    n.right = rl;
    r.size = n_size;
    r.left = Some(n);
    proof {
        let n0 = orig.unwrap();
        let r0 = n0.right.unwrap();
        assert(inorder_opt(n0.right) == inorder_opt(r0.left) + seq![(r0.key, r0.value)]
            + inorder_opt(r0.right));
        assert(inorder_opt(orig) == inorder_opt(n0.left) + seq![(n0.key, n0.value)] + inorder_opt(
            n0.right,
        ));
        assert(inorder_opt(r.left) == inorder_opt(n0.left) + seq![(n0.key, n0.value)]
            + inorder_opt(r0.left));
        assert(inorder_opt(Some(r)) == inorder_opt(r.left) + seq![(r0.key, r0.value)]
            + inorder_opt(r0.right));
        assert(inorder_opt(Some(r)) =~= inorder_opt(orig));
        let ma = as_map_opt(n0.left);
        let mb = as_map_opt(r0.left);
        let mc = as_map_opt(r0.right);
        assert(as_map_opt(n0.right) == mb.union_prefer_right(mc).insert(r0.key, r0.value));
        assert(as_map_opt(orig) == ma.union_prefer_right(as_map_opt(n0.right)).insert(
            n0.key,
            n0.value,
        ));
        assert(as_map_opt(r.left) == ma.union_prefer_right(mb).insert(n0.key, n0.value));
        assert(as_map_opt(Some(r)) == as_map_opt(r.left).union_prefer_right(mc).insert(
            r0.key,
            r0.value,
        ));
        assert(!ma.dom().contains(r0.key));
        assert(!mb.dom().contains(r0.key));
        assert(!mc.dom().contains(n0.key));
        assert(as_map_opt(Some(r)) =~= as_map_opt(orig));
    }
    *node = Some(r);
}

/// A subtree of positive height has a root node.
proof fn lemma_pos_hgt_some(n: Option<Box<Node>>)
    requires
        hgt(n) > 0,
    ensures
        n is Some,
{
    match n {
        None => {
            assert(hgt(n) == 0);
        },
        Some(_) => {},
    }
}

/// Restores the AVL invariant at a node whose left subtree has become two
/// levels taller than its right one, by a single or double rotation chosen
/// from the left child's balance tag. Returns whether the subtree's height
/// shrank by one, which is the case unless the left child was balanced.
#[verifier::rlimit(50)]
fn rebalance_left_heavy(node: &mut Option<Box<Node>>) -> (shrunk: bool)
    requires
        (*old(node)) is Some,
        (*old(node)).unwrap().left is Some,
        (*old(node)).unwrap().state == ThreeWay::Left,
        node_frame_ok(*(*old(node)).unwrap()),
        hgt((*old(node)).unwrap().left) == hgt((*old(node)).unwrap().right) + 2,
    ensures
        wf_opt(*final(node)),
        as_map_opt(*final(node)) =~= as_map_opt(*old(node)),
        inorder_opt(*final(node)) =~= inorder_opt(*old(node)),
        shrunk ==> hgt(*final(node)) + 1 == hgt(*old(node)),
        !shrunk ==> hgt(*final(node)) == hgt(*old(node)),
        shrunk == !((*old(node)).unwrap().left.unwrap().state == ThreeWay::Equal),
{
    let ghost orig = *node;
    let mut n = node.take().unwrap();
    let ghost ng = *n;
    let ghost lg = *ng.left.unwrap();
    let ghost hr = hgt(ng.right);
    let ghost ha = hgt(lg.left);
    let ghost hb = hgt(lg.right);
    proof {
        assert(inorder_opt(orig) == inorder_opt(ng.left) + seq![(ng.key, ng.value)] + inorder_opt(
            ng.right,
        ));
        assert(as_map_opt(orig) == as_map_opt(ng.left).union_prefer_right(
            as_map_opt(ng.right),
        ).insert(ng.key, ng.value));
        assert(hgt(orig) == 1 + hgt(ng.left));
        assert(node_frame_ok(lg) && state_ok(lg));
        assert(inorder_opt(ng.left) == inorder_opt(lg.left) + seq![(lg.key, lg.value)]
            + inorder_opt(lg.right));
        assert(as_map_opt(ng.left) == as_map_opt(lg.left).union_prefer_right(
            as_map_opt(lg.right),
        ).insert(lg.key, lg.value));
        assert(hgt(ng.left) == 1 + if ha >= hb {
            ha
        } else {
            hb
        });
        assert(as_map_opt(ng.left).dom().contains(lg.key));
        assert(lg.key < ng.key);
        assert forall|k: i64| as_map_opt(lg.right).dom().contains(k) implies k < ng.key by {
            assert(as_map_opt(ng.left).dom().contains(k));
        }
        assert forall|k: i64| as_map_opt(lg.left).dom().contains(k) implies k < ng.key by {
            assert(as_map_opt(ng.left).dom().contains(k));
        }
        if lg.right is Some {
            let b = lg.right.unwrap();
            assert(node_frame_ok(*b) && state_ok(*b));
            assert(inorder_opt(lg.right) == inorder_opt(b.left) + seq![(b.key, b.value)]
                + inorder_opt(b.right));
            assert(as_map_opt(lg.right) == as_map_opt(b.left).union_prefer_right(
                as_map_opt(b.right),
            ).insert(b.key, b.value));
        }
    }
    let left_state = n.left.as_ref().unwrap().state;
    match left_state {
        ThreeWay::Equal => {
            *node = Some(n);
            rotate_right(node);
            let mut f = node.take().unwrap();
            f.state = ThreeWay::Right;
            proof {
                let fr = f.right.unwrap();
                assert(inorder_opt(Some(f)) == inorder_opt(f.left) + seq![(f.key, f.value)]
                    + inorder_opt(f.right));
                assert(inorder_opt(f.right) == inorder_opt(fr.left) + seq![(fr.key, fr.value)]
                    + inorder_opt(fr.right));
                assert(as_map_opt(Some(f)) == as_map_opt(f.left).union_prefer_right(
                    as_map_opt(f.right),
                ).insert(f.key, f.value));
                assert(as_map_opt(f.right) == as_map_opt(fr.left).union_prefer_right(
                    as_map_opt(fr.right),
                ).insert(fr.key, fr.value));
                assert(inorder_opt(Some(f)) =~= inorder_opt(orig));
                assert(as_map_opt(Some(f)) =~= as_map_opt(orig));
                assert(ha == hr + 1 && hb == hr + 1);
                assert(hgt(f.right) == hr + 2);
                assert(state_ok(*fr) && node_frame_ok(*fr));
                assert(wf_opt(f.right));
                assert(hgt(Some(f)) == hr + 3);
                assert(state_ok(*f) && node_frame_ok(*f));
                assert(wf_opt(Some(f)));
            }
            *node = Some(f);
            false
        },
        ThreeWay::Left => {
            *node = Some(n);
            rotate_right(node);
            let mut f = node.take().unwrap();
            f.state = ThreeWay::Equal;
            let mut fr = f.right.take().unwrap();
            fr.state = ThreeWay::Equal;
            f.right = Some(fr);
            proof {
                let fr1 = f.right.unwrap();
                assert(inorder_opt(Some(f)) == inorder_opt(f.left) + seq![(f.key, f.value)]
                    + inorder_opt(f.right));
                assert(inorder_opt(f.right) == inorder_opt(fr1.left) + seq![(fr1.key, fr1.value)]
                    + inorder_opt(fr1.right));
                assert(as_map_opt(Some(f)) == as_map_opt(f.left).union_prefer_right(
                    as_map_opt(f.right),
                ).insert(f.key, f.value));
                assert(as_map_opt(f.right) == as_map_opt(fr1.left).union_prefer_right(
                    as_map_opt(fr1.right),
                ).insert(fr1.key, fr1.value));
                assert(inorder_opt(Some(f)) =~= inorder_opt(orig));
                assert(as_map_opt(Some(f)) =~= as_map_opt(orig));
                assert(ha == hr + 1 && hb == hr);
                assert(hgt(f.right) == hr + 1);
                assert(state_ok(*fr1) && node_frame_ok(*fr1));
                assert(wf_opt(f.right));
                assert(hgt(Some(f)) == hr + 2);
                assert(state_ok(*f) && node_frame_ok(*f));
                assert(wf_opt(Some(f)));
            }
            *node = Some(f);
            true
        },
        ThreeWay::Right => {
            proof {
                assert(hb == ha + 1 && hb == hr + 1);
                assert(hgt(lg.right) > 0);
                lemma_pos_hgt_some(lg.right);
                let b = lg.right.unwrap();
                if b.left is Some {
                    let c = b.left.unwrap();
                    assert(node_frame_ok(*c));
                    assert(inorder_opt(b.left) == inorder_opt(c.left) + seq![(c.key, c.value)]
                        + inorder_opt(c.right));
                }
                if b.right is Some {
                    let c = b.right.unwrap();
                    assert(node_frame_ok(*c));
                    assert(inorder_opt(b.right) == inorder_opt(c.left) + seq![(c.key, c.value)]
                        + inorder_opt(c.right));
                }
                assert(as_map_opt(lg.right).dom().contains(b.key));
                assert(lg.key < b.key && b.key < ng.key);
                assert forall|k: i64| as_map_opt(b.left).dom().contains(k) implies lg.key < k
                    < ng.key by {
                    assert(as_map_opt(lg.right).dom().contains(k));
                }
                assert forall|k: i64| as_map_opt(b.right).dom().contains(k) implies lg.key < k
                    < ng.key by {
                    assert(as_map_opt(lg.right).dom().contains(k));
                }
            }
            let grand_state = n.left.as_ref().unwrap().right.as_ref().unwrap().state;
            rotate_left(&mut n.left);
            proof {
                assert(inorder_opt(Some(n)) == inorder_opt(n.left) + seq![(ng.key, ng.value)]
                    + inorder_opt(ng.right));
                assert(as_map_opt(Some(n)) == as_map_opt(n.left).union_prefer_right(
                    as_map_opt(ng.right),
                ).insert(ng.key, ng.value));
                assert(inorder_opt(Some(n)) =~= inorder_opt(orig));
                assert(as_map_opt(Some(n)) =~= as_map_opt(orig));
            }
            *node = Some(n);
            rotate_right(node);
            let mut f = node.take().unwrap();
            f.state = ThreeWay::Equal;
            let mut fl = f.left.take().unwrap();
            fl.state = match grand_state {
                ThreeWay::Left | ThreeWay::Equal => ThreeWay::Equal,
                ThreeWay::Right => ThreeWay::Left,
            };
            f.left = Some(fl);
            let mut fr = f.right.take().unwrap();
            fr.state = match grand_state {
                ThreeWay::Left => ThreeWay::Right,
                ThreeWay::Right | ThreeWay::Equal => ThreeWay::Equal,
            };
            f.right = Some(fr);
            proof {
                let b = lg.right.unwrap();
                let fl1 = f.left.unwrap();
                let fr1 = f.right.unwrap();
                assert(inorder_opt(Some(f)) == inorder_opt(f.left) + seq![(f.key, f.value)]
                    + inorder_opt(f.right));
                assert(inorder_opt(f.left) == inorder_opt(fl1.left) + seq![(fl1.key, fl1.value)]
                    + inorder_opt(fl1.right));
                assert(inorder_opt(f.right) == inorder_opt(fr1.left) + seq![(fr1.key, fr1.value)]
                    + inorder_opt(fr1.right));
                assert(as_map_opt(Some(f)) == as_map_opt(f.left).union_prefer_right(
                    as_map_opt(f.right),
                ).insert(f.key, f.value));
                assert(as_map_opt(f.left) == as_map_opt(fl1.left).union_prefer_right(
                    as_map_opt(fl1.right),
                ).insert(fl1.key, fl1.value));
                assert(as_map_opt(f.right) == as_map_opt(fr1.left).union_prefer_right(
                    as_map_opt(fr1.right),
                ).insert(fr1.key, fr1.value));
                assert(inorder_opt(Some(f)) =~= inorder_opt(orig));
                assert(as_map_opt(Some(f)) =~= as_map_opt(orig));
                assert(hgt(f.left) == hr + 1);
                assert(hgt(f.right) == hr + 1);
                assert(state_ok(*fl1) && node_frame_ok(*fl1));
                assert(state_ok(*fr1) && node_frame_ok(*fr1));
                assert(wf_opt(f.left) && wf_opt(f.right));
                assert(hgt(Some(f)) == hr + 2);
                assert(state_ok(*f) && node_frame_ok(*f));
                assert(wf_opt(Some(f)));
            }
            *node = Some(f);
            true
        },
    }
}

/// Restores the AVL invariant at a node whose right subtree has become two
/// levels taller than its left one: the mirror image of
/// `rebalance_left_heavy`.
#[verifier::rlimit(50)]
fn rebalance_right_heavy(node: &mut Option<Box<Node>>) -> (shrunk: bool)
    requires
        (*old(node)) is Some,
        (*old(node)).unwrap().right is Some,
        (*old(node)).unwrap().state == ThreeWay::Right,
        node_frame_ok(*(*old(node)).unwrap()),
        hgt((*old(node)).unwrap().right) == hgt((*old(node)).unwrap().left) + 2,
    ensures
        wf_opt(*final(node)),
        as_map_opt(*final(node)) =~= as_map_opt(*old(node)),
        inorder_opt(*final(node)) =~= inorder_opt(*old(node)),
        shrunk ==> hgt(*final(node)) + 1 == hgt(*old(node)),
        !shrunk ==> hgt(*final(node)) == hgt(*old(node)),
        shrunk == !((*old(node)).unwrap().right.unwrap().state == ThreeWay::Equal),
{
    let ghost orig = *node;
    let mut n = node.take().unwrap();
    let ghost ng = *n;
    let ghost rg = *ng.right.unwrap();
    let ghost hl = hgt(ng.left);
    let ghost ha = hgt(rg.right);
    let ghost hb = hgt(rg.left);
    proof {
        assert(inorder_opt(orig) == inorder_opt(ng.left) + seq![(ng.key, ng.value)] + inorder_opt(
            ng.right,
        ));
        assert(as_map_opt(orig) == as_map_opt(ng.left).union_prefer_right(
            as_map_opt(ng.right),
        ).insert(ng.key, ng.value));
        assert(hgt(orig) == 1 + hgt(ng.right));
        assert(node_frame_ok(rg) && state_ok(rg));
        assert(inorder_opt(ng.right) == inorder_opt(rg.left) + seq![(rg.key, rg.value)]
            + inorder_opt(rg.right));
        assert(as_map_opt(ng.right) == as_map_opt(rg.left).union_prefer_right(
            as_map_opt(rg.right),
        ).insert(rg.key, rg.value));
        assert(hgt(ng.right) == 1 + if hb >= ha {
            hb
        } else {
            ha
        });
        assert(as_map_opt(ng.right).dom().contains(rg.key));
        assert(rg.key > ng.key);
        assert forall|k: i64| as_map_opt(rg.left).dom().contains(k) implies k > ng.key by {
            assert(as_map_opt(ng.right).dom().contains(k));
        }
        assert forall|k: i64| as_map_opt(rg.right).dom().contains(k) implies k > ng.key by {
            assert(as_map_opt(ng.right).dom().contains(k));
        }
        if rg.left is Some {
            let b = rg.left.unwrap();
            assert(node_frame_ok(*b) && state_ok(*b));
            assert(inorder_opt(rg.left) == inorder_opt(b.left) + seq![(b.key, b.value)]
                + inorder_opt(b.right));
            assert(as_map_opt(rg.left) == as_map_opt(b.left).union_prefer_right(
                as_map_opt(b.right),
            ).insert(b.key, b.value));
        }
    }
    let right_state = n.right.as_ref().unwrap().state;
    match right_state {
        ThreeWay::Equal => {
            *node = Some(n);
            rotate_left(node);
            let mut f = node.take().unwrap();
            f.state = ThreeWay::Left;
            proof {
                let fl = f.left.unwrap();
                assert(inorder_opt(Some(f)) == inorder_opt(f.left) + seq![(f.key, f.value)]
                    + inorder_opt(f.right));
                assert(inorder_opt(f.left) == inorder_opt(fl.left) + seq![(fl.key, fl.value)]
                    + inorder_opt(fl.right));
                assert(as_map_opt(Some(f)) == as_map_opt(f.left).union_prefer_right(
                    as_map_opt(f.right),
                ).insert(f.key, f.value));
                assert(as_map_opt(f.left) == as_map_opt(fl.left).union_prefer_right(
                    as_map_opt(fl.right),
                ).insert(fl.key, fl.value));
                assert(inorder_opt(Some(f)) =~= inorder_opt(orig));
                assert(as_map_opt(Some(f)) =~= as_map_opt(orig));
                assert(ha == hl + 1 && hb == hl + 1);
                assert(hgt(f.left) == hl + 2);
                assert(state_ok(*fl) && node_frame_ok(*fl));
                assert(wf_opt(f.left));
                assert(hgt(Some(f)) == hl + 3);
                assert(state_ok(*f) && node_frame_ok(*f));
                assert(wf_opt(Some(f)));
            }
            *node = Some(f);
            false
        },
        ThreeWay::Right => {
            *node = Some(n);
            rotate_left(node);
            let mut f = node.take().unwrap();
            f.state = ThreeWay::Equal;
            let mut fl = f.left.take().unwrap();
            fl.state = ThreeWay::Equal;
            f.left = Some(fl);
            proof {
                let fl1 = f.left.unwrap();
                assert(inorder_opt(Some(f)) == inorder_opt(f.left) + seq![(f.key, f.value)]
                    + inorder_opt(f.right));
                assert(inorder_opt(f.left) == inorder_opt(fl1.left) + seq![(fl1.key, fl1.value)]
                    + inorder_opt(fl1.right));
                assert(as_map_opt(Some(f)) == as_map_opt(f.left).union_prefer_right(
                    as_map_opt(f.right),
                ).insert(f.key, f.value));
                assert(as_map_opt(f.left) == as_map_opt(fl1.left).union_prefer_right(
                    as_map_opt(fl1.right),
                ).insert(fl1.key, fl1.value));
                assert(inorder_opt(Some(f)) =~= inorder_opt(orig));
                assert(as_map_opt(Some(f)) =~= as_map_opt(orig));
                assert(ha == hl + 1 && hb == hl);
                assert(hgt(f.left) == hl + 1);
                assert(state_ok(*fl1) && node_frame_ok(*fl1));
                assert(wf_opt(f.left));
                assert(hgt(Some(f)) == hl + 2);
                assert(state_ok(*f) && node_frame_ok(*f));
                assert(wf_opt(Some(f)));
            }
            *node = Some(f);
            true
        },
        ThreeWay::Left => {
            proof {
                assert(hb == ha + 1 && hb == hl + 1);
                assert(hgt(rg.left) > 0);
                lemma_pos_hgt_some(rg.left);
                let b = rg.left.unwrap();
                if b.left is Some {
                    let c = b.left.unwrap();
                    assert(node_frame_ok(*c));
                    assert(inorder_opt(b.left) == inorder_opt(c.left) + seq![(c.key, c.value)]
                        + inorder_opt(c.right));
                }
                if b.right is Some {
                    let c = b.right.unwrap();
                    assert(node_frame_ok(*c));
                    assert(inorder_opt(b.right) == inorder_opt(c.left) + seq![(c.key, c.value)]
                        + inorder_opt(c.right));
                }
                assert(as_map_opt(rg.left).dom().contains(b.key));
                assert(ng.key < b.key && b.key < rg.key);
                assert forall|k: i64| as_map_opt(b.left).dom().contains(k) implies ng.key < k
                    < rg.key by {
                    assert(as_map_opt(rg.left).dom().contains(k));
                }
                assert forall|k: i64| as_map_opt(b.right).dom().contains(k) implies ng.key < k
                    < rg.key by {
                    assert(as_map_opt(rg.left).dom().contains(k));
                }
            }
            let grand_state = n.right.as_ref().unwrap().left.as_ref().unwrap().state;
            rotate_right(&mut n.right);
            proof {
                assert(inorder_opt(Some(n)) == inorder_opt(ng.left) + seq![(ng.key, ng.value)]
                    + inorder_opt(n.right));
                assert(as_map_opt(Some(n)) == as_map_opt(ng.left).union_prefer_right(
                    as_map_opt(n.right),
                ).insert(ng.key, ng.value));
                assert(inorder_opt(Some(n)) =~= inorder_opt(orig));
                assert(as_map_opt(Some(n)) =~= as_map_opt(orig));
            }
            *node = Some(n);
            rotate_left(node);
            let mut f = node.take().unwrap();
            f.state = ThreeWay::Equal;
            let mut fl = f.left.take().unwrap();
            fl.state = match grand_state {
                ThreeWay::Left | ThreeWay::Equal => ThreeWay::Equal,
                ThreeWay::Right => ThreeWay::Left,
            };
            f.left = Some(fl);
            let mut fr = f.right.take().unwrap();
            fr.state = match grand_state {
                ThreeWay::Left => ThreeWay::Right,
                ThreeWay::Right | ThreeWay::Equal => ThreeWay::Equal,
            };
            f.right = Some(fr);
            proof {
                let b = rg.left.unwrap();
                let fl1 = f.left.unwrap();
                let fr1 = f.right.unwrap();
                assert(inorder_opt(Some(f)) == inorder_opt(f.left) + seq![(f.key, f.value)]
                    + inorder_opt(f.right));
                assert(inorder_opt(f.left) == inorder_opt(fl1.left) + seq![(fl1.key, fl1.value)]
                    + inorder_opt(fl1.right));
                assert(inorder_opt(f.right) == inorder_opt(fr1.left) + seq![(fr1.key, fr1.value)]
                    + inorder_opt(fr1.right));
                assert(as_map_opt(Some(f)) == as_map_opt(f.left).union_prefer_right(
                    as_map_opt(f.right),
                ).insert(f.key, f.value));
                assert(as_map_opt(f.left) == as_map_opt(fl1.left).union_prefer_right(
                    as_map_opt(fl1.right),
                ).insert(fl1.key, fl1.value));
                assert(as_map_opt(f.right) == as_map_opt(fr1.left).union_prefer_right(
                    as_map_opt(fr1.right),
                ).insert(fr1.key, fr1.value));
                assert(inorder_opt(Some(f)) =~= inorder_opt(orig));
                assert(as_map_opt(Some(f)) =~= as_map_opt(orig));
                assert(hgt(f.left) == hl + 1);
                assert(hgt(f.right) == hl + 1);
                assert(state_ok(*fl1) && node_frame_ok(*fl1));
                assert(state_ok(*fr1) && node_frame_ok(*fr1));
                assert(wf_opt(f.left) && wf_opt(f.right));
                assert(hgt(Some(f)) == hl + 2);
                assert(state_ok(*f) && node_frame_ok(*f));
                assert(wf_opt(Some(f)));
            }
            *node = Some(f);
            true
        },
    }
}

/// Inserts `key` into the subtree, overwriting the value in place when the
/// key is already present and growing a fresh balanced leaf otherwise.
/// Returns whether a node was inserted and whether the subtree's height grew;
/// on the way back up it bumps ancestor sizes, retags their balance, and
/// rebalances where the insertion made a node doubly left- or right-heavy.
#[verifier::rlimit(50)]
fn insert_rec(node: &mut Option<Box<Node>>, key: i64, value: i64) -> (r: (bool, bool))
    requires
        wf_opt(*old(node)),
        inorder_opt(*old(node)).len() < usize::MAX,
    ensures
        wf_opt(*final(node)),
        as_map_opt(*final(node)) =~= as_map_opt(*old(node)).insert(key, value),
        r.0 == !as_map_opt(*old(node)).dom().contains(key),
        r.0 ==> inorder_opt(*final(node)).len() == inorder_opt(*old(node)).len() + 1,
        !r.0 ==> inorder_opt(*final(node)).len() == inorder_opt(*old(node)).len(),
        r.1 ==> hgt(*final(node)) == hgt(*old(node)) + 1 && (*final(node)) is Some,
        !r.1 ==> hgt(*final(node)) == hgt(*old(node)),
        !r.0 ==> !r.1,
        r.1 && hgt(*final(node)) > 1 ==> !((*final(node)).unwrap().state == ThreeWay::Equal),
    decreases *old(node),
{
    let ghost orig = *node;
    match node.take() {
        None => {
            *node = Some(
                Box::new(
                    Node {
                        key,
                        value,
                        left: None,
                        right: None,
                        size: 1,
                        state: ThreeWay::Equal,
                    },
                ),
            );
            proof {
                let f = (*node).unwrap();
                assert(inorder_opt(*node) == inorder_opt(f.left) + seq![(key, value)] + inorder_opt(
                    f.right,
                ));
                assert(as_map_opt(*node) == as_map_opt(f.left).union_prefer_right(
                    as_map_opt(f.right),
                ).insert(key, value));
                assert(as_map_opt(*node) =~= as_map_opt(orig).insert(key, value));
            }
            (true, true)
        },
        Some(mut n) => {
            let ghost ng = *n;
            proof {
                assert(node_frame_ok(ng) && state_ok(ng));
                assert(inorder_opt(orig) == inorder_opt(ng.left) + seq![(ng.key, ng.value)]
                    + inorder_opt(ng.right));
                assert(as_map_opt(orig) == as_map_opt(ng.left).union_prefer_right(
                    as_map_opt(ng.right),
                ).insert(ng.key, ng.value));
            }
            if key < n.key {
                let (inserted, increased) = insert_rec(&mut n.left, key, value);
                let ghost nl = n.left;
                proof {
                    assert(!as_map_opt(ng.right).dom().contains(key));
                    assert(as_map_opt(orig).dom().contains(key) == as_map_opt(
                        ng.left,
                    ).dom().contains(key));
                    assert forall|k: i64| as_map_opt(nl).dom().contains(k) implies k < ng.key by {
                        assert(as_map_opt(nl).dom() =~= as_map_opt(ng.left).dom().insert(key));
                    }
                }
                if !inserted {
                    *node = Some(n);
                    proof {
                        let f = (*node).unwrap();
                        assert(inorder_opt(*node) == inorder_opt(nl) + seq![(ng.key, ng.value)]
                            + inorder_opt(ng.right));
                        assert(as_map_opt(*node) == as_map_opt(nl).union_prefer_right(
                            as_map_opt(ng.right),
                        ).insert(ng.key, ng.value));
                        assert(as_map_opt(*node) =~= as_map_opt(orig).insert(key, value));
                        assert(node_frame_ok(*f) && state_ok(*f));
                        assert(hgt(*node) == hgt(orig));
                    }
                    return (false, false);
                }
                n.size = n.size + 1;
                if !increased {
                    *node = Some(n);
                    proof {
                        let f = (*node).unwrap();
                        assert(inorder_opt(*node) == inorder_opt(nl) + seq![(ng.key, ng.value)]
                            + inorder_opt(ng.right));
                        assert(as_map_opt(*node) == as_map_opt(nl).union_prefer_right(
                            as_map_opt(ng.right),
                        ).insert(ng.key, ng.value));
                        assert(as_map_opt(*node) =~= as_map_opt(orig).insert(key, value));
                        assert(node_frame_ok(*f) && state_ok(*f));
                        assert(hgt(*node) == hgt(orig));
                    }
                    return (true, false);
                }
                match n.state {
                    ThreeWay::Equal => {
                        n.state = ThreeWay::Left;
                        *node = Some(n);
                        proof {
                            let f = (*node).unwrap();
                            assert(inorder_opt(*node) == inorder_opt(nl) + seq![(ng.key, ng.value)]
                                + inorder_opt(ng.right));
                            assert(as_map_opt(*node) == as_map_opt(nl).union_prefer_right(
                                as_map_opt(ng.right),
                            ).insert(ng.key, ng.value));
                            assert(as_map_opt(*node) =~= as_map_opt(orig).insert(key, value));
                            assert(node_frame_ok(*f) && state_ok(*f));
                            assert(hgt(*node) == hgt(orig) + 1);
                        }
                        (true, true)
                    },
                    ThreeWay::Right => {
                        n.state = ThreeWay::Equal;
                        *node = Some(n);
                        proof {
                            let f = (*node).unwrap();
                            assert(inorder_opt(*node) == inorder_opt(nl) + seq![(ng.key, ng.value)]
                                + inorder_opt(ng.right));
                            assert(as_map_opt(*node) == as_map_opt(nl).union_prefer_right(
                                as_map_opt(ng.right),
                            ).insert(ng.key, ng.value));
                            assert(as_map_opt(*node) =~= as_map_opt(orig).insert(key, value));
                            assert(node_frame_ok(*f) && state_ok(*f));
                            assert(hgt(*node) == hgt(orig));
                        }
                        (true, false)
                    },
                    ThreeWay::Left => {
                        *node = Some(n);
                        proof {
                            let f = (*node).unwrap();
                            assert(inorder_opt(*node) == inorder_opt(nl) + seq![(ng.key, ng.value)]
                                + inorder_opt(ng.right));
                            assert(as_map_opt(*node) == as_map_opt(nl).union_prefer_right(
                                as_map_opt(ng.right),
                            ).insert(ng.key, ng.value));
                            assert(as_map_opt(*node) =~= as_map_opt(orig).insert(key, value));
                            assert(node_frame_ok(*f));
                            assert(hgt(nl) == hgt(ng.right) + 2);
                        }
                        let shrunk = rebalance_left_heavy(node);
                        proof {
                            assert(shrunk);
                            assert(hgt(*node) == hgt(orig));
                        }
                        (true, false)
                    },
                }
            } else if key > n.key {
                let (inserted, increased) = insert_rec(&mut n.right, key, value);
                let ghost nr = n.right;
                proof {
                    assert(!as_map_opt(ng.left).dom().contains(key));
                    assert(as_map_opt(orig).dom().contains(key) == as_map_opt(
                        ng.right,
                    ).dom().contains(key));
                    assert forall|k: i64| as_map_opt(nr).dom().contains(k) implies k > ng.key by {
                        assert(as_map_opt(nr).dom() =~= as_map_opt(ng.right).dom().insert(key));
                    }
                }
                if !inserted {
                    *node = Some(n);
                    proof {
                        let f = (*node).unwrap();
                        assert(inorder_opt(*node) == inorder_opt(ng.left) + seq![
                            (ng.key, ng.value),
                        ] + inorder_opt(nr));
                        assert(as_map_opt(*node) == as_map_opt(ng.left).union_prefer_right(
                            as_map_opt(nr),
                        ).insert(ng.key, ng.value));
                        assert(as_map_opt(*node) =~= as_map_opt(orig).insert(key, value));
                        assert(node_frame_ok(*f) && state_ok(*f));
                        assert(hgt(*node) == hgt(orig));
                    }
                    return (false, false);
                }
                n.size = n.size + 1;
                if !increased {
                    *node = Some(n);
                    proof {
                        let f = (*node).unwrap();
                        assert(inorder_opt(*node) == inorder_opt(ng.left) + seq![
                            (ng.key, ng.value),
                        ] + inorder_opt(nr));
                        assert(as_map_opt(*node) == as_map_opt(ng.left).union_prefer_right(
                            as_map_opt(nr),
                        ).insert(ng.key, ng.value));
                        assert(as_map_opt(*node) =~= as_map_opt(orig).insert(key, value));
                        assert(node_frame_ok(*f) && state_ok(*f));
                        assert(hgt(*node) == hgt(orig));
                    }
                    return (true, false);
                }
                match n.state {
                    ThreeWay::Equal => {
                        n.state = ThreeWay::Right;
                        *node = Some(n);
                        proof {
                            let f = (*node).unwrap();
                            assert(inorder_opt(*node) == inorder_opt(ng.left) + seq![
                                (ng.key, ng.value),
                            ] + inorder_opt(nr));
                            assert(as_map_opt(*node) == as_map_opt(ng.left).union_prefer_right(
                                as_map_opt(nr),
                            ).insert(ng.key, ng.value));
                            assert(as_map_opt(*node) =~= as_map_opt(orig).insert(key, value));
                            assert(node_frame_ok(*f) && state_ok(*f));
                            assert(hgt(*node) == hgt(orig) + 1);
                        }
                        (true, true)
                    },
                    ThreeWay::Left => {
                        n.state = ThreeWay::Equal;
                        *node = Some(n);
                        proof {
                            let f = (*node).unwrap();
                            assert(inorder_opt(*node) == inorder_opt(ng.left) + seq![
                                (ng.key, ng.value),
                            ] + inorder_opt(nr));
                            assert(as_map_opt(*node) == as_map_opt(ng.left).union_prefer_right(
                                as_map_opt(nr),
                            ).insert(ng.key, ng.value));
                            assert(as_map_opt(*node) =~= as_map_opt(orig).insert(key, value));
                            assert(node_frame_ok(*f) && state_ok(*f));
                            assert(hgt(*node) == hgt(orig));
                        }
                        (true, false)
                    },
                    ThreeWay::Right => {
                        *node = Some(n);
                        proof {
                            let f = (*node).unwrap();
                            assert(inorder_opt(*node) == inorder_opt(ng.left) + seq![
                                (ng.key, ng.value),
                            ] + inorder_opt(nr));
                            assert(as_map_opt(*node) == as_map_opt(ng.left).union_prefer_right(
                                as_map_opt(nr),
                            ).insert(ng.key, ng.value));
                            assert(as_map_opt(*node) =~= as_map_opt(orig).insert(key, value));
                            assert(node_frame_ok(*f));
                            assert(hgt(nr) == hgt(ng.left) + 2);
                        }
                        let shrunk = rebalance_right_heavy(node);
                        proof {
                            assert(shrunk);
                            assert(hgt(*node) == hgt(orig));
                        }
                        (true, false)
                    },
                }
            } else {
                n.value = value;
                *node = Some(n);
                proof {
                    let f = (*node).unwrap();
                    assert(inorder_opt(*node) == inorder_opt(ng.left) + seq![(ng.key, value)]
                        + inorder_opt(ng.right));
                    assert(as_map_opt(*node) == as_map_opt(ng.left).union_prefer_right(
                        as_map_opt(ng.right),
                    ).insert(ng.key, value));
                    assert(as_map_opt(*node) =~= as_map_opt(orig).insert(key, value));
                    assert(as_map_opt(orig).dom().contains(key));
                    assert(node_frame_ok(*f) && state_ok(*f));
                    assert(hgt(*node) == hgt(orig));
                }
                (false, false)
            }
        },
    }
}

/// Removes the entry with the greatest key from the subtree and returns it,
/// rebalancing on the way back up; reports whether the height shrank.
/// Leaves an empty subtree untouched.
#[verifier::rlimit(50)]
fn remove_max_rec(node: &mut Option<Box<Node>>) -> (r: (Option<(i64, i64)>, bool))
    requires
        wf_opt(*old(node)),
    ensures
        wf_opt(*final(node)),
        (*old(node)) is None ==> r.0 is None && *final(node) == *old(node) && !r.1,
        (*old(node)) is Some ==> {
            &&& r.0 is Some
            &&& inorder_opt(*old(node)).len() > 0
            &&& r.0.unwrap() == inorder_opt(*old(node)).last()
            &&& inorder_opt(*final(node)) =~= inorder_opt(*old(node)).drop_last()
            &&& as_map_opt(*final(node)) =~= as_map_opt(*old(node)).remove(r.0.unwrap().0)
            &&& as_map_opt(*old(node)).contains_pair(r.0.unwrap().0, r.0.unwrap().1)
            &&& (forall|k: i64|
                as_map_opt(*old(node)).dom().contains(k) ==> k <= r.0.unwrap().0)
        },
        r.1 ==> hgt(*old(node)) == hgt(*final(node)) + 1,
        !r.1 ==> hgt(*final(node)) == hgt(*old(node)),
    decreases *old(node),
{
    let ghost orig = *node;
    match node.take() {
        None => (None, false),
        Some(mut n) => {
            let ghost ng = *n;
            proof {
                assert(node_frame_ok(ng) && state_ok(ng));
                assert(inorder_opt(orig) == inorder_opt(ng.left) + seq![(ng.key, ng.value)]
                    + inorder_opt(ng.right));
                assert(as_map_opt(orig) == as_map_opt(ng.left).union_prefer_right(
                    as_map_opt(ng.right),
                ).insert(ng.key, ng.value));
            }
            match n.right.take() {
                None => {
                    let ret = (n.key, n.value);
                    *node = n.left.take();
                    proof {
                        assert(inorder_opt(ng.right) =~= Seq::<(i64, i64)>::empty());
                        assert(inorder_opt(orig).last() == (ng.key, ng.value));
                        assert(inorder_opt(*node) =~= inorder_opt(orig).drop_last());
                        assert(!as_map_opt(ng.left).dom().contains(ng.key));
                        assert(as_map_opt(*node) =~= as_map_opt(orig).remove(ng.key));
                        assert(hgt(orig) == 1 + hgt(ng.left));
                    }
                    (Some(ret), true)
                },
                Some(right) => {
                    let mut wrapped_right = Some(right);
                    let (ret, decreased) = remove_max_rec(&mut wrapped_right);
                    n.right = wrapped_right;
                    let ghost nr = n.right;
                    let ghost rm = ret.unwrap();
                    proof {
                        assert(as_map_opt(ng.right).dom().contains(rm.0));
                        assert(rm.0 > ng.key);
                        assert(inorder_opt(orig).len() > 0);
                        assert(inorder_opt(orig).last() == inorder_opt(ng.right).last());
                        assert(inorder_opt(orig).last() == rm);
                        assert forall|k: i64| as_map_opt(nr).dom().contains(k) implies k
                            > ng.key by {
                            assert(as_map_opt(nr).dom() =~= as_map_opt(ng.right).dom().remove(
                                rm.0,
                            ));
                        }
                        assert forall|k: i64|
                            as_map_opt(orig).dom().contains(k) implies k <= rm.0 by {}
                        assert(inorder_opt(ng.right).len() >= 1);
                    }
                    n.size = n.size - 1;
                    if !decreased {
                        *node = Some(n);
                        proof {
                            let f = (*node).unwrap();
                            assert(inorder_opt(*node) == inorder_opt(ng.left) + seq![
                                (ng.key, ng.value),
                            ] + inorder_opt(nr));
                            assert(as_map_opt(*node) == as_map_opt(ng.left).union_prefer_right(
                                as_map_opt(nr),
                            ).insert(ng.key, ng.value));
                            assert(inorder_opt(*node) =~= inorder_opt(orig).drop_last());
                            assert(!as_map_opt(ng.left).dom().contains(rm.0) && ng.key != rm.0);
                            assert(as_map_opt(*node) =~= as_map_opt(orig).remove(rm.0));
                            assert(node_frame_ok(*f) && state_ok(*f));
                            assert(hgt(*node) == hgt(orig));
                        }
                        return (ret, false);
                    }
                    match n.state {
                        ThreeWay::Equal => {
                            n.state = ThreeWay::Left;
                            *node = Some(n);
                            proof {
                                let f = (*node).unwrap();
                                assert(inorder_opt(*node) == inorder_opt(ng.left) + seq![
                                    (ng.key, ng.value),
                                ] + inorder_opt(nr));
                                assert(as_map_opt(*node) == as_map_opt(ng.left).union_prefer_right(
                                    as_map_opt(nr),
                                ).insert(ng.key, ng.value));
                                assert(inorder_opt(*node) =~= inorder_opt(orig).drop_last());
                                assert(!as_map_opt(ng.left).dom().contains(rm.0) && ng.key != rm.0);
                                assert(as_map_opt(*node) =~= as_map_opt(orig).remove(rm.0));
                                assert(node_frame_ok(*f) && state_ok(*f));
                                assert(hgt(*node) == hgt(orig));
                            }
                            (ret, false)
                        },
                        ThreeWay::Right => {
                            n.state = ThreeWay::Equal;
                            *node = Some(n);
                            proof {
                                let f = (*node).unwrap();
                                assert(inorder_opt(*node) == inorder_opt(ng.left) + seq![
                                    (ng.key, ng.value),
                                ] + inorder_opt(nr));
                                assert(as_map_opt(*node) == as_map_opt(ng.left).union_prefer_right(
                                    as_map_opt(nr),
                                ).insert(ng.key, ng.value));
                                assert(inorder_opt(*node) =~= inorder_opt(orig).drop_last());
                                assert(!as_map_opt(ng.left).dom().contains(rm.0) && ng.key != rm.0);
                                assert(as_map_opt(*node) =~= as_map_opt(orig).remove(rm.0));
                                assert(node_frame_ok(*f) && state_ok(*f));
                                assert(hgt(orig) == hgt(*node) + 1);
                            }
                            (ret, true)
                        },
                        ThreeWay::Left => {
                            *node = Some(n);
                            proof {
                                let f = (*node).unwrap();
                                assert(inorder_opt(*node) == inorder_opt(ng.left) + seq![
                                    (ng.key, ng.value),
                                ] + inorder_opt(nr));
                                assert(as_map_opt(*node) == as_map_opt(ng.left).union_prefer_right(
                                    as_map_opt(nr),
                                ).insert(ng.key, ng.value));
                                assert(inorder_opt(*node) =~= inorder_opt(orig).drop_last());
                                assert(!as_map_opt(ng.left).dom().contains(rm.0) && ng.key != rm.0);
                                assert(as_map_opt(*node) =~= as_map_opt(orig).remove(rm.0));
                                assert(node_frame_ok(*f));
                                assert(hgt(ng.left) == hgt(nr) + 2);
                            }
                            let shrunk = rebalance_left_heavy(node);
                            proof {
                                assert(hgt(orig) == 1 + hgt(ng.left));
                            }
                            (ret, shrunk)
                        },
                    }
                },
            }
        },
    }
}

/// Removes `key` from the subtree and returns the removed entry, or leaves
/// the subtree untouched and returns nothing when the key is absent. A node
/// with two children trades places with its in-order predecessor, the
/// greatest entry of its left subtree. Reports whether the height shrank.
#[verifier::rlimit(50)]
fn remove_rec(node: &mut Option<Box<Node>>, key: i64) -> (r: (Option<(i64, i64)>, bool))
    requires
        wf_opt(*old(node)),
    ensures
        wf_opt(*final(node)),
        r.0 is None ==> !as_map_opt(*old(node)).dom().contains(key) && *final(node) == *old(node)
            && !r.1,
        r.0 is Some ==> {
            &&& r.0.unwrap().0 == key
            &&& as_map_opt(*old(node)).contains_pair(key, r.0.unwrap().1)
            &&& as_map_opt(*final(node)) =~= as_map_opt(*old(node)).remove(key)
            &&& inorder_opt(*final(node)).len() + 1 == inorder_opt(*old(node)).len()
        },
        r.0 is Some <==> as_map_opt(*old(node)).dom().contains(key),
        r.1 ==> hgt(*old(node)) == hgt(*final(node)) + 1,
        !r.1 ==> hgt(*final(node)) == hgt(*old(node)),
    decreases *old(node),
{
    let ghost orig = *node;
    match node.take() {
        None => (None, false),
        Some(mut n) => {
            let ghost ng = *n;
            proof {
                assert(node_frame_ok(ng) && state_ok(ng));
                assert(inorder_opt(orig) == inorder_opt(ng.left) + seq![(ng.key, ng.value)]
                    + inorder_opt(ng.right));
                assert(as_map_opt(orig) == as_map_opt(ng.left).union_prefer_right(
                    as_map_opt(ng.right),
                ).insert(ng.key, ng.value));
                assert(!as_map_opt(ng.left).dom().contains(ng.key));
                assert(!as_map_opt(ng.right).dom().contains(ng.key));
            }
            if key == n.key {
                if n.left.is_none() && n.right.is_none() {
                    proof {
                        assert(as_map_opt(*node) =~= as_map_opt(orig).remove(key));
                    }
                    (Some((n.key, n.value)), true)
                } else if n.right.is_none() {
                    *node = n.left.take();
                    proof {
                        assert(as_map_opt(*node) =~= as_map_opt(orig).remove(key));
                        assert(hgt(orig) == 1 + hgt(ng.left));
                    }
                    (Some((n.key, n.value)), true)
                } else if n.left.is_none() {
                    *node = n.right.take();
                    proof {
                        assert(as_map_opt(*node) =~= as_map_opt(orig).remove(key));
                        assert(hgt(orig) == 1 + hgt(ng.right));
                    }
                    (Some((n.key, n.value)), true)
                } else {
                    let (pred_opt, decreased) = remove_max_rec(&mut n.left);
                    let (pred_key, pred_value) = pred_opt.unwrap();
                    let removed_key = n.key;
                    let removed_value = n.value;
                    n.key = pred_key;
                    n.value = pred_value;
                    n.size = n.size - 1;
                    let ghost nl = n.left;
                    proof {
                        assert(as_map_opt(ng.left).contains_pair(pred_key, pred_value));
                        assert(pred_key < ng.key);
                        assert(as_map_opt(nl) =~= as_map_opt(ng.left).remove(pred_key));
                        assert forall|k: i64| as_map_opt(nl).dom().contains(k) implies k
                            < pred_key by {
                            assert(as_map_opt(ng.left).dom().contains(k));
                        }
                        assert forall|k: i64| as_map_opt(ng.right).dom().contains(k) implies k
                            > pred_key by {}
                        assert(inorder_opt(nl).len() + 1 == inorder_opt(ng.left).len());
                    }
                    match n.state {
                        _ if !decreased => {
                            *node = Some(n);
                            proof {
                                let f = (*node).unwrap();
                                assert(as_map_opt(*node) == as_map_opt(nl).union_prefer_right(
                                    as_map_opt(ng.right),
                                ).insert(pred_key, pred_value));
                                assert(inorder_opt(*node) == inorder_opt(nl) + seq![
                                    (pred_key, pred_value),
                                ] + inorder_opt(ng.right));
                                assert(as_map_opt(*node) =~= as_map_opt(orig).remove(key));
                                assert(node_frame_ok(*f) && state_ok(*f));
                                assert(hgt(*node) == hgt(orig));
                            }
                            (Some((removed_key, removed_value)), false)
                        },
                        ThreeWay::Equal => {
                            n.state = ThreeWay::Right;
                            *node = Some(n);
                            proof {
                                let f = (*node).unwrap();
                                assert(as_map_opt(*node) == as_map_opt(nl).union_prefer_right(
                                    as_map_opt(ng.right),
                                ).insert(pred_key, pred_value));
                                assert(inorder_opt(*node) == inorder_opt(nl) + seq![
                                    (pred_key, pred_value),
                                ] + inorder_opt(ng.right));
                                assert(as_map_opt(*node) =~= as_map_opt(orig).remove(key));
                                assert(node_frame_ok(*f) && state_ok(*f));
                                assert(hgt(*node) == hgt(orig));
                            }
                            (Some((removed_key, removed_value)), false)
                        },
                        ThreeWay::Left => {
                            n.state = ThreeWay::Equal;
                            *node = Some(n);
                            proof {
                                let f = (*node).unwrap();
                                assert(as_map_opt(*node) == as_map_opt(nl).union_prefer_right(
                                    as_map_opt(ng.right),
                                ).insert(pred_key, pred_value));
                                assert(inorder_opt(*node) == inorder_opt(nl) + seq![
                                    (pred_key, pred_value),
                                ] + inorder_opt(ng.right));
                                assert(as_map_opt(*node) =~= as_map_opt(orig).remove(key));
                                assert(node_frame_ok(*f) && state_ok(*f));
                                assert(hgt(orig) == hgt(*node) + 1);
                            }
                            (Some((removed_key, removed_value)), true)
                        },
                        ThreeWay::Right => {
                            *node = Some(n);
                            proof {
                                let f = (*node).unwrap();
                                assert(as_map_opt(*node) == as_map_opt(nl).union_prefer_right(
                                    as_map_opt(ng.right),
                                ).insert(pred_key, pred_value));
                                assert(inorder_opt(*node) == inorder_opt(nl) + seq![
                                    (pred_key, pred_value),
                                ] + inorder_opt(ng.right));
                                assert(as_map_opt(*node) =~= as_map_opt(orig).remove(key));
                                assert(node_frame_ok(*f));
                                assert(hgt(ng.right) == hgt(nl) + 2);
                            }
                            let ghost pre = *node;
                            let shrunk = rebalance_right_heavy(node);
                            proof {
                                assert(hgt(pre) == hgt(orig));
                            }
                            (Some((removed_key, removed_value)), shrunk)
                        },
                    }
                }
            } else if key > n.key {
                let (removed, decreased) = remove_rec(&mut n.right, key);
                let ghost nr = n.right;
                if removed.is_none() {
                    *node = Some(n);
                    proof {
                        assert(*node == orig);
                    }
                    return (None, false);
                }
                n.size = n.size - 1;
                proof {
                    assert(as_map_opt(orig).dom().contains(key));
                    assert(as_map_opt(nr) =~= as_map_opt(ng.right).remove(key));
                    assert forall|k: i64| as_map_opt(nr).dom().contains(k) implies k > ng.key by {
                        assert(as_map_opt(ng.right).dom().contains(k));
                    }
                    assert(inorder_opt(nr).len() + 1 == inorder_opt(ng.right).len());
                }
                match n.state {
                    _ if !decreased => {
                        *node = Some(n);
                        proof {
                            let f = (*node).unwrap();
                            assert(as_map_opt(*node) == as_map_opt(ng.left).union_prefer_right(
                                as_map_opt(nr),
                            ).insert(ng.key, ng.value));
                            assert(inorder_opt(*node) == inorder_opt(ng.left) + seq![
                                (ng.key, ng.value),
                            ] + inorder_opt(nr));
                            assert(as_map_opt(*node) =~= as_map_opt(orig).remove(key));
                            assert(node_frame_ok(*f) && state_ok(*f));
                            assert(hgt(*node) == hgt(orig));
                        }
                        (removed, false)
                    },
                    ThreeWay::Equal => {
                        n.state = ThreeWay::Left;
                        *node = Some(n);
                        proof {
                            let f = (*node).unwrap();
                            assert(as_map_opt(*node) == as_map_opt(ng.left).union_prefer_right(
                                as_map_opt(nr),
                            ).insert(ng.key, ng.value));
                            assert(inorder_opt(*node) == inorder_opt(ng.left) + seq![
                                (ng.key, ng.value),
                            ] + inorder_opt(nr));
                            assert(as_map_opt(*node) =~= as_map_opt(orig).remove(key));
                            assert(node_frame_ok(*f) && state_ok(*f));
                            assert(hgt(*node) == hgt(orig));
                        }
                        (removed, false)
                    },
                    ThreeWay::Right => {
                        n.state = ThreeWay::Equal;
                        *node = Some(n);
                        proof {
                            let f = (*node).unwrap();
                            assert(as_map_opt(*node) == as_map_opt(ng.left).union_prefer_right(
                                as_map_opt(nr),
                            ).insert(ng.key, ng.value));
                            assert(inorder_opt(*node) == inorder_opt(ng.left) + seq![
                                (ng.key, ng.value),
                            ] + inorder_opt(nr));
                            assert(as_map_opt(*node) =~= as_map_opt(orig).remove(key));
                            assert(node_frame_ok(*f) && state_ok(*f));
                            assert(hgt(orig) == hgt(*node) + 1);
                        }
                        (removed, true)
                    },
                    ThreeWay::Left => {
                        *node = Some(n);
                        proof {
                            let f = (*node).unwrap();
                            assert(as_map_opt(*node) == as_map_opt(ng.left).union_prefer_right(
                                as_map_opt(nr),
                            ).insert(ng.key, ng.value));
                            assert(inorder_opt(*node) == inorder_opt(ng.left) + seq![
                                (ng.key, ng.value),
                            ] + inorder_opt(nr));
                            assert(as_map_opt(*node) =~= as_map_opt(orig).remove(key));
                            assert(node_frame_ok(*f));
                            assert(hgt(ng.left) == hgt(nr) + 2);
                        }
                        let ghost pre = *node;
                        let shrunk = rebalance_left_heavy(node);
                        proof {
                            assert(hgt(pre) == hgt(orig));
                        }
                        (removed, shrunk)
                    },
                }
            } else {
                let (removed, decreased) = remove_rec(&mut n.left, key);
                let ghost nl = n.left;
                if removed.is_none() {
                    *node = Some(n);
                    proof {
                        assert(*node == orig);
                    }
                    return (None, false);
                }
                n.size = n.size - 1;
                proof {
                    assert(as_map_opt(orig).dom().contains(key));
                    assert(as_map_opt(nl) =~= as_map_opt(ng.left).remove(key));
                    assert forall|k: i64| as_map_opt(nl).dom().contains(k) implies k < ng.key by {
                        assert(as_map_opt(ng.left).dom().contains(k));
                    }
                    assert(inorder_opt(nl).len() + 1 == inorder_opt(ng.left).len());
                }
                match n.state {
                    _ if !decreased => {
                        *node = Some(n);
                        proof {
                            let f = (*node).unwrap();
                            assert(as_map_opt(*node) == as_map_opt(nl).union_prefer_right(
                                as_map_opt(ng.right),
                            ).insert(ng.key, ng.value));
                            assert(inorder_opt(*node) == inorder_opt(nl) + seq![(ng.key, ng.value)]
                                + inorder_opt(ng.right));
                            assert(as_map_opt(*node) =~= as_map_opt(orig).remove(key));
                            assert(node_frame_ok(*f) && state_ok(*f));
                            assert(hgt(*node) == hgt(orig));
                        }
                        (removed, false)
                    },
                    ThreeWay::Equal => {
                        n.state = ThreeWay::Right;
                        *node = Some(n);
                        proof {
                            let f = (*node).unwrap();
                            assert(as_map_opt(*node) == as_map_opt(nl).union_prefer_right(
                                as_map_opt(ng.right),
                            ).insert(ng.key, ng.value));
                            assert(inorder_opt(*node) == inorder_opt(nl) + seq![(ng.key, ng.value)]
                                + inorder_opt(ng.right));
                            assert(as_map_opt(*node) =~= as_map_opt(orig).remove(key));
                            assert(node_frame_ok(*f) && state_ok(*f));
                            assert(hgt(*node) == hgt(orig));
                        }
                        (removed, false)
                    },
                    ThreeWay::Left => {
                        n.state = ThreeWay::Equal;
                        *node = Some(n);
                        proof {
                            let f = (*node).unwrap();
                            assert(as_map_opt(*node) == as_map_opt(nl).union_prefer_right(
                                as_map_opt(ng.right),
                            ).insert(ng.key, ng.value));
                            assert(inorder_opt(*node) == inorder_opt(nl) + seq![(ng.key, ng.value)]
                                + inorder_opt(ng.right));
                            assert(as_map_opt(*node) =~= as_map_opt(orig).remove(key));
                            assert(node_frame_ok(*f) && state_ok(*f));
                            assert(hgt(orig) == hgt(*node) + 1);
                        }
                        (removed, true)
                    },
                    ThreeWay::Right => {
                        *node = Some(n);
                        proof {
                            let f = (*node).unwrap();
                            assert(as_map_opt(*node) == as_map_opt(nl).union_prefer_right(
                                as_map_opt(ng.right),
                            ).insert(ng.key, ng.value));
                            assert(inorder_opt(*node) == inorder_opt(nl) + seq![(ng.key, ng.value)]
                                + inorder_opt(ng.right));
                            assert(as_map_opt(*node) =~= as_map_opt(orig).remove(key));
                            assert(node_frame_ok(*f));
                            assert(hgt(ng.right) == hgt(nl) + 2);
                        }
                        let ghost pre = *node;
                        let shrunk = rebalance_right_heavy(node);
                        proof {
                            assert(hgt(pre) == hgt(orig));
                        }
                        (removed, shrunk)
                    },
                }
            }
        },
    }
}

/// In a well-formed subtree the in-order entries have strictly increasing
/// keys, and they are exactly the entries of the subtree's map.
proof fn lemma_wf_inorder(n: Option<Box<Node>>)
    requires
        wf_opt(n),
    ensures
        sorted_keys(inorder_opt(n)),
        forall|i: int|
            0 <= i < inorder_opt(n).len() ==> as_map_opt(n).contains_pair(
                (#[trigger] inorder_opt(n)[i]).0,
                inorder_opt(n)[i].1,
            ),
        forall|k: i64| as_map_opt(n).dom().contains(k) ==> seq_has_key(inorder_opt(n), k),
    decreases n,
{
    match n {
        None => {},
        Some(b) => {
            lemma_wf_inorder(b.left);
            lemma_wf_inorder(b.right);
            let s = inorder_opt(n);
            let sl = inorder_opt(b.left);
            let sr = inorder_opt(b.right);
            let ml = as_map_opt(b.left);
            let mr = as_map_opt(b.right);
            assert(s == sl + seq![(b.key, b.value)] + sr);
            assert(as_map_opt(n) == ml.union_prefer_right(mr).insert(b.key, b.value));
            assert forall|i: int| 0 <= i < sl.len() implies (#[trigger] sl[i]).0 < b.key by {
                assert(ml.contains_pair(sl[i].0, sl[i].1));
            }
            assert forall|i: int| 0 <= i < sr.len() implies (#[trigger] sr[i]).0 > b.key by {
                assert(mr.contains_pair(sr[i].0, sr[i].1));
            }
            assert forall|i: int| 0 <= i < s.len() implies as_map_opt(n).contains_pair(
                (#[trigger] s[i]).0,
                s[i].1,
            ) by {
                if i < sl.len() {
                    assert(s[i] == sl[i]);
                    assert(ml.contains_pair(sl[i].0, sl[i].1));
                    assert(!mr.dom().contains(sl[i].0));
                } else if i == sl.len() {
                    assert(s[i] == (b.key, b.value));
                } else {
                    assert(s[i] == sr[i - sl.len() - 1]);
                    assert(mr.contains_pair(s[i].0, s[i].1));
                }
            }
            assert forall|i: int, j: int| 0 <= i < j < s.len() implies s[i].0 < s[j].0 by {
                if j < sl.len() {
                    assert(s[i] == sl[i] && s[j] == sl[j]);
                } else if j == sl.len() {
                    assert(s[i] == sl[i]);
                } else if i < sl.len() {
                    assert(s[i] == sl[i] && s[j] == sr[j - sl.len() - 1]);
                } else if i == sl.len() {
                    assert(s[j] == sr[j - sl.len() - 1]);
                } else {
                    assert(s[i] == sr[i - sl.len() - 1] && s[j] == sr[j - sl.len() - 1]);
                }
            }
            assert forall|k: i64| as_map_opt(n).dom().contains(k) implies seq_has_key(s, k) by {
                if k == b.key {
                    assert(s[sl.len() as int].0 == k);
                } else if mr.dom().contains(k) {
                    assert(seq_has_key(sr, k));
                    let i = choose|i: int| 0 <= i < sr.len() && sr[i].0 == k;
                    assert(s[sl.len() + 1 + i] == sr[i]);
                } else {
                    assert(ml.dom().contains(k));
                    assert(seq_has_key(sl, k));
                    let i = choose|i: int| 0 <= i < sl.len() && sl[i].0 == k;
                    assert(s[i] == sl[i]);
                }
            }
        },
    }
}

/// A well-formed subtree's height never exceeds its number of entries.
proof fn lemma_hgt_le_len(n: Option<Box<Node>>)
    requires
        wf_opt(n),
    ensures
        hgt(n) <= inorder_opt(n).len(),
    decreases n,
{
    match n {
        None => {},
        Some(b) => {
            lemma_hgt_le_len(b.left);
            lemma_hgt_le_len(b.right);
            assert(inorder_opt(n).len() == inorder_opt(b.left).len() + 1 + inorder_opt(
                b.right,
            ).len());
        },
    }
}

/// Looks a key up by binary search descent.
fn search_rec(n: &Option<Box<Node>>, key: i64) -> (r: Option<i64>)
    requires
        wf_opt(*n),
    ensures
        r == (if as_map_opt(*n).dom().contains(key) {
            Some(as_map_opt(*n)[key])
        } else {
            None::<i64>
        }),
    decreases *n,
{
    match n {
        None => None,
        Some(b) => {
            proof {
                assert(node_frame_ok(**b));
                assert(as_map_opt(*n) == as_map_opt(b.left).union_prefer_right(
                    as_map_opt(b.right),
                ).insert(b.key, b.value));
            }
            if key < b.key {
                proof {
                    assert(!as_map_opt(b.right).dom().contains(key));
                }
                search_rec(&b.left, key)
            } else if key > b.key {
                proof {
                    assert(!as_map_opt(b.left).dom().contains(key));
                }
                search_rec(&b.right, key)
            } else {
                Some(b.value)
            }
        },
    }
}

/// Looks a key up by binary search descent, handing out a mutable
/// borrow of the stored value. Only the value behind the borrow can
/// change, so the tree stays well formed whatever the caller writes.
fn search_mut_rec(n: &mut Option<Box<Node>>, key: i64) -> (r: Option<&mut i64>)
    requires
        wf_opt(*old(n)),
    ensures
        wf_opt(*final(n)),
        !as_map_opt(*old(n)).dom().contains(key) ==> r is None && *final(n) == *old(n),
        as_map_opt(*old(n)).dom().contains(key) ==> {
            &&& r is Some
            &&& *r.unwrap() == as_map_opt(*old(n))[key]
            &&& as_map_opt(*final(n)) =~= as_map_opt(*old(n)).insert(key, *final(r.unwrap()))
            &&& inorder_opt(*final(n)).len() == inorder_opt(*old(n)).len()
            &&& hgt(*final(n)) == hgt(*old(n))
        },
    decreases *old(n),
{
    let ghost orig = *n;
    match n {
        None => None,
        Some(b) => {
            let ghost bg = **b;
            proof {
                assert(node_frame_ok(bg) && state_ok(bg));
                assert(inorder_opt(orig) == inorder_opt(bg.left) + seq![(bg.key, bg.value)]
                    + inorder_opt(bg.right));
                assert(as_map_opt(orig) == as_map_opt(bg.left).union_prefer_right(
                    as_map_opt(bg.right),
                ).insert(bg.key, bg.value));
            }
            if key < b.key {
                proof {
                    assert(!as_map_opt(bg.right).dom().contains(key));
                }
                search_mut_rec(&mut b.left, key)
            } else if key > b.key {
                proof {
                    assert(!as_map_opt(bg.left).dom().contains(key));
                }
                search_mut_rec(&mut b.right, key)
            } else {
                Some(&mut b.value)
            }
        },
    }
}

/// Walks to the leftmost node: the entry with the least key.
fn min_rec(n: &Option<Box<Node>>) -> (r: Option<(i64, i64)>)
    requires
        wf_opt(*n),
    ensures
        match r {
            None => *n is None,
            Some(kv) => inorder_opt(*n).len() > 0 && kv == inorder_opt(*n)[0],
        },
    decreases *n,
{
    match n {
        None => None,
        Some(b) => {
            proof {
                assert(inorder_opt(*n) == inorder_opt(b.left) + seq![(b.key, b.value)]
                    + inorder_opt(b.right));
            }
            match &b.left {
                None => Some((b.key, b.value)),
                Some(_) => {
                    let r = min_rec(&b.left);
                    proof {
                        assert(inorder_opt(b.left).len() > 0);
                        assert(inorder_opt(*n)[0] == inorder_opt(b.left)[0]);
                    }
                    r
                },
            }
        },
    }
}

/// Walks to the rightmost node: the entry with the greatest key.
fn max_rec(n: &Option<Box<Node>>) -> (r: Option<(i64, i64)>)
    requires
        wf_opt(*n),
    ensures
        match r {
            None => *n is None,
            Some(kv) => inorder_opt(*n).len() > 0 && kv == inorder_opt(*n).last(),
        },
    decreases *n,
{
    match n {
        None => None,
        Some(b) => {
            proof {
                assert(inorder_opt(*n) == inorder_opt(b.left) + seq![(b.key, b.value)]
                    + inorder_opt(b.right));
            }
            match &b.right {
                None => Some((b.key, b.value)),
                Some(_) => {
                    let r = max_rec(&b.right);
                    proof {
                        assert(inorder_opt(b.right).len() > 0);
                        assert(inorder_opt(*n).last() == inorder_opt(b.right).last());
                    }
                    r
                },
            }
        },
    }
}

/// Selects the entry with `idx` keys before it, steered by the stored
/// subtree sizes.
fn select_rec(n: &Option<Box<Node>>, idx: usize) -> (r: (i64, i64))
    requires
        wf_opt(*n),
        idx < inorder_opt(*n).len(),
    ensures
        r == inorder_opt(*n)[idx as int],
    decreases *n,
{
    proof {
        if (*n) is None {
            assert(inorder_opt(*n).len() == 0);
        }
    }
    let b = n.as_ref().unwrap();
    proof {
        assert(node_frame_ok(**b));
        assert(inorder_opt(*n) == inorder_opt(b.left) + seq![(b.key, b.value)] + inorder_opt(
            b.right,
        ));
        if b.left is Some {
            let l = b.left.unwrap();
            assert(node_frame_ok(*l));
            assert(inorder_opt(b.left) == inorder_opt(l.left) + seq![(l.key, l.value)]
                + inorder_opt(l.right));
        }
    }
    let lsz = opt_size(&b.left);
    if idx < lsz {
        select_rec(&b.left, idx)
    } else if idx == lsz {
        (b.key, b.value)
    } else {
        let r = select_rec(&b.right, idx - lsz - 1);
        proof {
            assert(inorder_opt(*n)[idx as int] == inorder_opt(b.right)[idx - lsz - 1]);
        }
        r
    }
}

/// Counts the entries whose key is strictly below `key`, steered by the
/// stored subtree sizes. Well defined whether or not the key is present.
fn rank_rec(n: &Option<Box<Node>>, key: i64) -> (r: usize)
    requires
        wf_opt(*n),
    ensures
        r == num_below(inorder_opt(*n), key),
    decreases *n,
{
    match n {
        None => {
            proof {
                assert(num_below(inorder_opt(*n), key) == 0);
            }
            0
        },
        Some(b) => {
            proof {
                assert(node_frame_ok(**b));
                assert(inorder_opt(*n) == inorder_opt(b.left) + seq![(b.key, b.value)]
                    + inorder_opt(b.right));
                if b.left is Some {
                    let l = b.left.unwrap();
                    assert(node_frame_ok(*l));
                    assert(inorder_opt(b.left) == inorder_opt(l.left) + seq![(l.key, l.value)]
                        + inorder_opt(l.right));
                }
                lemma_wf_inorder(b.left);
                lemma_wf_inorder(b.right);
                crate::sorted_seq::lemma_num_below_concat(
                    inorder_opt(b.left) + seq![(b.key, b.value)],
                    inorder_opt(b.right),
                    key,
                );
                crate::sorted_seq::lemma_num_below_concat(
                    inorder_opt(b.left),
                    seq![(b.key, b.value)],
                    key,
                );
                assert forall|i: int|
                    0 <= i < inorder_opt(b.left).len() implies (#[trigger] inorder_opt(
                    b.left,
                )[i]).0 < b.key by {
                    assert(as_map_opt(b.left).contains_pair(
                        inorder_opt(b.left)[i].0,
                        inorder_opt(b.left)[i].1,
                    ));
                }
                assert forall|i: int|
                    0 <= i < inorder_opt(b.right).len() implies (#[trigger] inorder_opt(
                    b.right,
                )[i]).0 > b.key by {
                    assert(as_map_opt(b.right).contains_pair(
                        inorder_opt(b.right)[i].0,
                        inorder_opt(b.right)[i].1,
                    ));
                }
                crate::sorted_seq::lemma_num_below_le_len(inorder_opt(b.left), key);
                crate::sorted_seq::lemma_num_below_le_len(inorder_opt(b.right), key);
            }
            let lsz = opt_size(&b.left);
            if key <= b.key {
                proof {
                    crate::sorted_seq::lemma_num_below_none(inorder_opt(b.right), key);
                    crate::sorted_seq::lemma_num_below_none(seq![(b.key, b.value)], key);
                }
                if key == b.key {
                    proof {
                        crate::sorted_seq::lemma_num_below_all(inorder_opt(b.left), key);
                    }
                    lsz
                } else {
                    rank_rec(&b.left, key)
                }
            } else {
                proof {
                    crate::sorted_seq::lemma_num_below_all(inorder_opt(b.left), key);
                    crate::sorted_seq::lemma_num_below_all(seq![(b.key, b.value)], key);
                }
                let rr = rank_rec(&b.right, key);
                lsz + 1 + rr
            }
        },
    }
}

/// Appends the subtree's entries to `out` in ascending key order.
fn entries_rec(n: &Option<Box<Node>>, out: &mut Vec<(i64, i64)>)
    ensures
        final(out)@ == old(out)@ + inorder_opt(*n),
    decreases *n,
{
    match n {
        None => {
            proof {
                assert(out@ =~= out@ + inorder_opt(*n));
            }
        },
        Some(b) => {
            entries_rec(&b.left, out);
            out.push((b.key, b.value));
            entries_rec(&b.right, out);
            proof {
                assert(out@ =~= old(out)@ + inorder_opt(*n));
            }
        },
    }
}

/// Computes the height by following the taller side recorded in the
/// balance tags.
fn height_rec(n: &Option<Box<Node>>) -> (r: usize)
    requires
        wf_opt(*n),
        hgt(*n) <= usize::MAX,
    ensures
        r == hgt(*n),
    decreases *n,
{
    match n {
        None => 0,
        Some(b) => {
            proof {
                assert(node_frame_ok(**b) && state_ok(**b));
            }
            match b.state {
                ThreeWay::Right => {
                    let h = height_rec(&b.right);
                    1 + h
                },
                _ => {
                    let h = height_rec(&b.left);
                    1 + h
                },
            }
        },
    }
}

/// Two raised to the power `e`.
pub open spec fn pow2(e: nat) -> nat
    decreases e,
{
    if e == 0 {
        1
    } else {
        2 * pow2((e - 1) as nat)
    }
}

/// Powers of two grow with the exponent.
proof fn lemma_pow2_mono(a: nat, b: nat)
    requires
        a <= b,
    ensures
        pow2(a) <= pow2(b),
    decreases b,
{
    if a < b {
        lemma_pow2_mono(a, (b - 1) as nat);
    }
}

/// A well-formed tree of height `h` holds at least `2^(h / 2) - 1`
/// entries: the balance tags keep sibling heights within one of each
/// other, so the tree cannot degenerate into a chain.
proof fn lemma_wf_size_for_height(n: Option<Box<Node>>)
    requires
        wf_opt(n),
    ensures
        inorder_opt(n).len() + 1 >= pow2(hgt(n) / 2),
    decreases n,
{
    match n {
        None => {},
        Some(b) => {
            lemma_wf_size_for_height(b.left);
            lemma_wf_size_for_height(b.right);
            let h = hgt(n);
            let hl = hgt(b.left);
            let hr = hgt(b.right);
            assert(inorder_opt(n).len() == inorder_opt(b.left).len() + 1 + inorder_opt(
                b.right,
            ).len());
            if h >= 2 {
                assert(hl + 2 >= h && hr + 2 >= h);
                let e = ((h - 2) as nat) / 2;
                assert(e <= hl / 2 && e <= hr / 2);
                lemma_pow2_mono(e, hl / 2);
                lemma_pow2_mono(e, hr / 2);
                assert(pow2(e + 1) == 2 * pow2(e));
                assert(e + 1 == h / 2);
            }
        },
    }
}

/// An ordered map from `i64` keys to `i64` values with logarithmic
/// insertion, removal, lookup, and order-statistics queries, backed by a
/// size-augmented AVL tree.
///
/// Contracts speak of two views: `self@`, the key-value map, and
/// `self.inorder()`, the entries in ascending key order. `well_formed`
/// holds of every map `new` returns and is preserved by every operation.
pub struct AVLTreeMap {
    root: Option<Box<Node>>,
}

impl View for AVLTreeMap {
    type V = Map<i64, i64>;

    closed spec fn view(&self) -> Map<i64, i64> {
        as_map_opt(self.root)
    }
}

impl AVLTreeMap {
    /// The tree invariant: search order, correct subtree sizes, and
    /// correct balance tags everywhere.
    pub closed spec fn well_formed(self) -> bool {
        wf_opt(self.root)
    }

    /// The entries in ascending key order.
    pub closed spec fn inorder(self) -> Seq<(i64, i64)> {
        inorder_opt(self.root)
    }

    /// The tree's height: the longest root-to-leaf path, zero when empty.
    pub closed spec fn spec_height(self) -> nat {
        hgt(self.root)
    }

    /// Creates an empty map.
    pub fn new() -> (r: Self)
        ensures
            r.well_formed(),
            r@ == Map::<i64, i64>::empty(),
            r.inorder() == Seq::<(i64, i64)>::empty(),
    {
        AVLTreeMap { root: None }
    }

    /// Binds `key` to `value`. Returns true and grows the map by one entry
    /// when the key was absent; overwrites the stored value in place and
    /// returns false when it was present.
    pub fn insert(&mut self, key: i64, value: i64) -> (r: bool)
        requires
            old(self).well_formed(),
            old(self).inorder().len() < usize::MAX,
        ensures
            final(self).well_formed(),
            final(self)@ == old(self)@.insert(key, value),
            r == !old(self)@.dom().contains(key),
            r ==> final(self).inorder().len() == old(self).inorder().len() + 1,
            !r ==> final(self).inorder().len() == old(self).inorder().len(),
    {
        let (inserted, _) = insert_rec(&mut self.root, key, value);
        inserted
    }

    /// Removes `key` and returns the value it was bound to, or returns
    /// nothing and leaves the tree untouched when the key is absent.
    pub fn remove(&mut self, key: i64) -> (r: Option<i64>)
        requires
            old(self).well_formed(),
        ensures
            final(self).well_formed(),
            final(self)@ == old(self)@.remove(key),
            r == (if old(self)@.dom().contains(key) {
                Some(old(self)@[key])
            } else {
                None::<i64>
            }),
            !old(self)@.dom().contains(key) ==> *final(self) == *old(self),
            old(self)@.dom().contains(key) ==> final(self).inorder().len() + 1 == old(
                self,
            ).inorder().len(),
            !old(self)@.dom().contains(key) ==> final(self).inorder() == old(self).inorder(),
    {
        let (removed, _) = remove_rec(&mut self.root, key);
        match removed {
            Some(kv) => Some(kv.1),
            None => None,
        }
    }

    /// Looks up the value bound to `key`.
    pub fn get(&self, key: i64) -> (r: Option<i64>)
        requires
            self.well_formed(),
        ensures
            r == (if self@.dom().contains(key) {
                Some(self@[key])
            } else {
                None::<i64>
            }),
    {
        search_rec(&self.root, key)
    }

    /// Hands out a mutable borrow of the value bound to `key`, through
    /// which the caller may overwrite it in place; the set of keys and the
    /// tree's shape stay as they were.
    pub fn get_mut(&mut self, key: i64) -> (r: Option<&mut i64>)
        requires
            old(self).well_formed(),
        ensures
            final(self).well_formed(),
            !old(self)@.dom().contains(key) ==> r is None && *final(self) == *old(self),
            old(self)@.dom().contains(key) ==> {
                &&& r is Some
                &&& *r.unwrap() == old(self)@[key]
                &&& final(self)@ == old(self)@.insert(key, *final(r.unwrap()))
                &&& final(self).inorder().len() == old(self).inorder().len()
            },
    {
        search_mut_rec(&mut self.root, key)
    }

    /// Whether `key` is bound.
    pub fn contains(&self, key: i64) -> (r: bool)
        requires
            self.well_formed(),
        ensures
            r == self@.dom().contains(key),
    {
        self.get(key).is_some()
    }

    /// The entry with the least key, or nothing when the map is empty.
    pub fn min(&self) -> (r: Option<(i64, i64)>)
        requires
            self.well_formed(),
        ensures
            self.inorder().len() == 0 ==> r is None,
            self.inorder().len() > 0 ==> r == Some(self.inorder()[0]),
    {
        proof {
            if self.root is None {
                assert(self.inorder().len() == 0);
            }
        }
        min_rec(&self.root)
    }

    /// The entry with the greatest key, or nothing when the map is empty.
    pub fn max(&self) -> (r: Option<(i64, i64)>)
        requires
            self.well_formed(),
        ensures
            self.inorder().len() == 0 ==> r is None,
            self.inorder().len() > 0 ==> r == Some(self.inorder().last()),
    {
        proof {
            if self.root is None {
                assert(self.inorder().len() == 0);
            }
        }
        max_rec(&self.root)
    }

    /// How many entries the map holds: the number of live keys.
    pub fn size(&self) -> (r: usize)
        requires
            self.well_formed(),
        ensures
            r == self.inorder().len(),
            r == self@.len(),
    {
        proof {
            self.lemma_inorder_entries();
            if self.root is Some {
                let b = self.root.unwrap();
                assert(node_frame_ok(*b));
                assert(inorder_opt(self.root) == inorder_opt(b.left) + seq![(b.key, b.value)]
                    + inorder_opt(b.right));
            }
        }
        opt_size(&self.root)
    }

    /// Whether the map holds no entry.
    pub fn is_empty(&self) -> (r: bool)
        requires
            self.well_formed(),
        ensures
            r == (self.inorder().len() == 0),
    {
        proof {
            if self.root is Some {
                let b = self.root.unwrap();
                assert(inorder_opt(self.root) == inorder_opt(b.left) + seq![(b.key, b.value)]
                    + inorder_opt(b.right));
            }
        }
        self.root.is_none()
    }

    /// Selects the zero-indexed `order`-th smallest entry, or nothing when
    /// fewer than `order + 1` entries exist.
    pub fn find_by_order(&self, order: usize) -> (r: Option<(i64, i64)>)
        requires
            self.well_formed(),
        ensures
            order < self.inorder().len() ==> r == Some(self.inorder()[order as int]),
            order >= self.inorder().len() ==> r is None,
    {
        let sz = self.size();
        if sz <= order {
            return None;
        }
        Some(select_rec(&self.root, order))
    }

    /// Counts the keys strictly below `key`: the rank `key` has, or would
    /// have, in ascending key order. Well defined for absent keys too.
    pub fn order_of_key(&self, key: i64) -> (r: usize)
        requires
            self.well_formed(),
        ensures
            r == num_below(self.inorder(), key),
    {
        rank_rec(&self.root, key)
    }

    /// The entries in ascending key order.
    pub fn entries(&self) -> (r: Vec<(i64, i64)>)
        requires
            self.well_formed(),
        ensures
            r@ == self.inorder(),
    {
        let mut out: Vec<(i64, i64)> = Vec::new();
        entries_rec(&self.root, &mut out);
        proof {
            assert(out@ =~= self.inorder());
        }
        out
    }

    /// The keys in ascending order.
    pub fn keys(&self) -> (r: Vec<i64>)
        requires
            self.well_formed(),
        ensures
            r@.len() == self.inorder().len(),
            forall|i: int| 0 <= i < r@.len() ==> r@[i] == self.inorder()[i].0,
    {
        let es = self.entries();
        let mut out: Vec<i64> = Vec::new();
        let mut j: usize = 0;
        while j < es.len()
            invariant
                j <= es@.len(),
                es@ == self.inorder(),
                out@.len() == j,
                forall|i: int| 0 <= i < j ==> out@[i] == es@[i].0,
            decreases es@.len() - j,
        {
            let e = es[j];
            out.push(e.0);
            j = j + 1;
        }
        out
    }

    /// The values in ascending order of their keys.
    pub fn values(&self) -> (r: Vec<i64>)
        requires
            self.well_formed(),
        ensures
            r@.len() == self.inorder().len(),
            forall|i: int| 0 <= i < r@.len() ==> r@[i] == self.inorder()[i].1,
    {
        let es = self.entries();
        let mut out: Vec<i64> = Vec::new();
        let mut j: usize = 0;
        while j < es.len()
            invariant
                j <= es@.len(),
                es@ == self.inorder(),
                out@.len() == j,
                forall|i: int| 0 <= i < j ==> out@[i] == es@[i].1,
            decreases es@.len() - j,
        {
            let e = es[j];
            out.push(e.1);
            j = j + 1;
        }
        out
    }

    /// The tree's height, computed by following the taller side recorded
    /// in the balance tags.
    pub fn height(&self) -> (r: usize)
        requires
            self.well_formed(),
        ensures
            r == self.spec_height(),
    {
        proof {
            lemma_hgt_le_len(self.root);
            if self.root is Some {
                let b = self.root.unwrap();
                assert(node_frame_ok(*b));
                assert(inorder_opt(self.root) == inorder_opt(b.left) + seq![(b.key, b.value)]
                    + inorder_opt(b.right));
            }
        }
        height_rec(&self.root)
    }

    /// The in-order entry sequence has strictly increasing keys, holds
    /// exactly the entries of the map view, and is empty exactly when the
    /// map is empty.
    pub proof fn lemma_inorder_entries(&self)
        requires
            self.well_formed(),
        ensures
            sorted_keys(self.inorder()),
            forall|i: int|
                0 <= i < self.inorder().len() ==> self@.contains_pair(
                    (#[trigger] self.inorder()[i]).0,
                    self.inorder()[i].1,
                ),
            forall|k: i64| self@.dom().contains(k) ==> seq_has_key(self.inorder(), k),
            (self.inorder().len() == 0 <==> self@ =~= Map::<i64, i64>::empty()),
            self@.dom().finite(),
            self.inorder().len() == self@.len(),
    {
        lemma_wf_inorder(self.root);
        let s = self.inorder();
        let ks = s.map_values(|p: (i64, i64)| p.0);
        assert(ks.no_duplicates());
        ks.unique_seq_to_set();
        broadcast use vstd::seq_lib::seq_to_set_is_finite;

        assert forall|k: i64| self@.dom().contains(k) implies ks.to_set().contains(k) by {
            assert(seq_has_key(s, k));
            let i = choose|i: int| 0 <= i < s.len() && s[i].0 == k;
            assert(ks[i] == k);
            assert(ks.contains(k));
        }
        assert forall|k: i64| ks.to_set().contains(k) implies self@.dom().contains(k) by {
            let i = choose|i: int| 0 <= i < ks.len() && ks[i] == k;
            assert(self@.contains_pair(s[i].0, s[i].1));
        }
        assert(self@.dom() =~= ks.to_set());
        if self.inorder().len() == 0 {
            assert forall|k: i64| !self@.dom().contains(k) by {
                if self@.dom().contains(k) {
                    assert(seq_has_key(self.inorder(), k));
                }
            }
            assert(self@ =~= Map::<i64, i64>::empty());
        } else {
            assert(self@.contains_pair(self.inorder()[0].0, self.inorder()[0].1));
        }
    }

    /// Rank and selection round-trip: a present key is found again at the
    /// index `order_of_key` gives for it, paired with its stored value.
    pub proof fn lemma_order_find_roundtrip(&self, key: i64)
        requires
            self.well_formed(),
            self@.dom().contains(key),
        ensures
            num_below(self.inorder(), key) < self.inorder().len(),
            self.inorder()[num_below(self.inorder(), key) as int] == (key, self@[key]),
    {
        lemma_wf_inorder(self.root);
        crate::sorted_seq::lemma_sorted_key_at_rank(self.inorder(), key);
        let r = num_below(self.inorder(), key) as int;
        assert(self@.contains_pair(self.inorder()[r].0, self.inorder()[r].1));
    }

    /// The AVL balance invariant keeps the tree shallow: a tree of height
    /// `h` holds at least `2^(h / 2) - 1` entries, so the height is at
    /// most logarithmic in the number of entries and the tree is never a
    /// degenerate chain.
    pub proof fn lemma_height_bounded(&self)
        requires
            self.well_formed(),
        ensures
            self.inorder().len() + 1 >= pow2(self.spec_height() / 2),
    {
        lemma_wf_size_for_height(self.root);
    }

    /// Inserting a binding makes it visible to lookup: the new map holds
    /// `key` bound to `value`, and no other binding changes.
    pub proof fn lemma_insert_get(m: Map<i64, i64>, key: i64, value: i64)
        ensures
            m.insert(key, value).dom().contains(key),
            m.insert(key, value)[key] == value,
            forall|k: i64|
                k != key ==> m.insert(key, value).dom().contains(k) == m.dom().contains(k),
            forall|k: i64| k != key && m.dom().contains(k) ==> m.insert(key, value)[k] == m[k],
    {
    }
}

/// The map a sequence of entries builds up when each is inserted in turn:
/// later entries overwrite earlier ones with the same key.
pub open spec fn map_from_entries(s: Seq<(i64, i64)>) -> Map<i64, i64>
    decreases s.len(),
{
    if s.len() == 0 {
        Map::empty()
    } else {
        map_from_entries(s.drop_last()).insert(s.last().0, s.last().1)
    }
}

impl AVLTreeMap {
    /// Builds a map by inserting every entry of `entries` in order.
    pub fn from_entries(entries: &Vec<(i64, i64)>) -> (r: Self)
        ensures
            r.well_formed(),
            r@ == map_from_entries(entries@),
    {
        let mut tree = AVLTreeMap::new();
        let mut i: usize = 0;
        proof {
            assert(entries@.subrange(0, 0) =~= Seq::<(i64, i64)>::empty());
        }
        while i < entries.len()
            invariant
                tree.well_formed(),
                i <= entries@.len(),
                tree@ == map_from_entries(entries@.subrange(0, i as int)),
                tree.inorder().len() <= i,
            decreases entries@.len() - i,
        {
            let e = entries[i];
            tree.insert(e.0, e.1);
            i = i + 1;
            proof {
                assert(entries@.subrange(0, i as int).drop_last() =~= entries@.subrange(
                    0,
                    i - 1,
                ));
                assert(entries@.subrange(0, i as int).last() == entries@[i - 1]);
            }
        }
        proof {
            assert(entries@.subrange(0, entries@.len() as int) =~= entries@);
        }
        tree
    }
}

impl Default for AVLTreeMap {
    /// The empty map.
    fn default() -> (r: Self)
        ensures
            r.well_formed(),
            r@ == Map::<i64, i64>::empty(),
            r.inorder() == Seq::<(i64, i64)>::empty(),
    {
        AVLTreeMap::new()
    }
}

impl crate::tree_trait::BinarySearchTree for AVLTreeMap {
    open spec fn bst_map(&self) -> Map<i64, i64> {
        self.view()
    }

    open spec fn bst_entries(&self) -> Seq<(i64, i64)> {
        self.inorder()
    }

    open spec fn bst_inv(&self) -> bool {
        self.well_formed()
    }

    fn insert(&mut self, key: i64, value: i64) -> (r: bool) {
        AVLTreeMap::insert(self, key, value)
    }

    fn remove(&mut self, key: i64) -> (r: Option<i64>) {
        AVLTreeMap::remove(self, key)
    }

    fn search(&self, key: i64) -> (r: Option<i64>) {
        AVLTreeMap::get(self, key)
    }

    fn search_mut(&mut self, key: i64) -> (r: Option<&mut i64>) {
        AVLTreeMap::get_mut(self, key)
    }

    fn min(&self) -> (r: Option<(i64, i64)>) {
        AVLTreeMap::min(self)
    }

    fn max(&self) -> (r: Option<(i64, i64)>) {
        AVLTreeMap::max(self)
    }

    fn size(&self) -> (r: usize) {
        AVLTreeMap::size(self)
    }

    fn find_by_order(&self, order: usize) -> (r: Option<(i64, i64)>) {
        AVLTreeMap::find_by_order(self, order)
    }

    fn order_of_key(&self, key: i64) -> (r: usize) {
        AVLTreeMap::order_of_key(self, key)
    }
}

} // verus!
