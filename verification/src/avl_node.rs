//! The AVL engine: a self-balancing binary search tree over `NodeKey`s.
//!
//! Every node owns its children, its key/value pair and its height; the
//! balance invariant (`|height(left) - height(right)| <= 1`, heights exact)
//! together with the search-order invariant is carried by `opt_wf`.

use vstd::prelude::*;
use crate::{key_lt, key_cmp, NodeKey};

verus! {

/// One tree node: key, value, exact height, and the two subtrees.
pub struct AVLNode<V> {
    pub key: NodeKey,
    pub value: V,
    pub height: usize,
    pub left: Option<Box<AVLNode<V>>>,
    pub right: Option<Box<AVLNode<V>>>,
}

/// Handle for the root of a tree (or no tree at all).
pub struct AVLRoot<V> {
    pub node: Option<Box<AVLNode<V>>>,
}

pub type OptNode<V> = Option<Box<AVLNode<V>>>;

impl<V> AVLNode<V> {
    /// Height of an optional subtree: 0 when absent.
    pub open spec fn opt_height(o: OptNode<V>) -> nat
        decreases o,
    {
        match o {
            None => 0,
            Some(n) => n.sheight(),
        }
    }

    /// Mathematical height of a node: one more than its taller subtree.
    pub open spec fn sheight(self) -> nat
        decreases self,
    {
        1 + vstd::math::max(
            Self::opt_height(self.left) as int,
            Self::opt_height(self.right) as int,
        ) as nat
    }

    /// The key/value pairs of an optional subtree, as a map.
    pub open spec fn opt_as_map(o: OptNode<V>) -> Map<NodeKey, V>
        decreases o,
    {
        match o {
            None => Map::empty(),
            Some(n) => n.as_map(),
        }
    }

    /// The key/value pairs reachable from this node, as a map.
    pub open spec fn as_map(self) -> Map<NodeKey, V>
        decreases self,
    {
        Self::opt_as_map(self.left)
            .union_prefer_right(Self::opt_as_map(self.right))
            .insert(self.key, self.value)
    }

    /// The key/value pairs of an optional subtree, in symmetric (in-order)
    /// order.
    pub open spec fn opt_seq(o: OptNode<V>) -> Seq<(NodeKey, V)>
        decreases o,
    {
        match o {
            None => Seq::empty(),
            Some(n) => n.in_seq(),
        }
    }

    /// The key/value pairs reachable from this node, in symmetric order.
    pub open spec fn in_seq(self) -> Seq<(NodeKey, V)>
        decreases self,
    {
        Self::opt_seq(self.left) + seq![(self.key, self.value)] + Self::opt_seq(self.right)
    }

    /// Search-order property: left keys are smaller, right keys are larger,
    /// recursively.
    pub open spec fn bst_ordered(o: OptNode<V>) -> bool
        decreases o,
    {
        match o {
            None => true,
            Some(n) => {
                &&& (forall|k| #[trigger] Self::opt_as_map(n.left).dom().contains(k)
                    ==> key_lt(k, n.key))
                &&& (forall|k| #[trigger] Self::opt_as_map(n.right).dom().contains(k)
                    ==> key_lt(n.key, k))
                &&& Self::bst_ordered(n.left)
                &&& Self::bst_ordered(n.right)
            },
        }
    }

    /// Every stored height field equals the mathematical height.
    pub open spec fn heights_ok(o: OptNode<V>) -> bool
        decreases o,
    {
        match o {
            None => true,
            Some(n) => {
                &&& n.height == n.sheight()
                &&& Self::heights_ok(n.left)
                &&& Self::heights_ok(n.right)
            },
        }
    }

    /// The AVL balance property: subtree heights differ by at most one,
    /// recursively.
    pub open spec fn balanced(o: OptNode<V>) -> bool
        decreases o,
    {
        match o {
            None => true,
            Some(n) => {
                &&& Self::opt_height(n.left) <= Self::opt_height(n.right) + 1
                &&& Self::opt_height(n.right) <= Self::opt_height(n.left) + 1
                &&& Self::balanced(n.left)
                &&& Self::balanced(n.right)
            },
        }
    }

    /// Full well-formedness of an AVL subtree.
    pub open spec fn opt_wf(o: OptNode<V>) -> bool {
        &&& Self::bst_ordered(o)
        &&& Self::heights_ok(o)
        &&& Self::balanced(o)
    }
}

/// A tree's height never exceeds the number of its nodes.
pub proof fn lemma_height_le_size<V>(o: OptNode<V>)
    ensures
        AVLNode::<V>::opt_height(o) <= AVLNode::<V>::opt_seq(o).len(),
    decreases o,
{
    match o {
        None => {},
        Some(n) => {
            lemma_height_le_size(n.left);
            lemma_height_le_size(n.right);
        },
    }
}

/// In a search-ordered tree, the symmetric-order sequence is strictly
/// increasing, lists exactly the pairs of the map, and has the map's length.
pub proof fn lemma_seq_map<V>(o: OptNode<V>)
    requires
        AVLNode::<V>::bst_ordered(o),
    ensures
        AVLNode::<V>::opt_as_map(o).dom().finite(),
        AVLNode::<V>::opt_as_map(o).dom().len() == AVLNode::<V>::opt_seq(o).len(),
        forall|i: int| 0 <= i < AVLNode::<V>::opt_seq(o).len() ==> {
            &&& AVLNode::<V>::opt_as_map(o).dom().contains(
                (#[trigger] AVLNode::<V>::opt_seq(o)[i]).0)
            &&& AVLNode::<V>::opt_as_map(o)[AVLNode::<V>::opt_seq(o)[i].0]
                == AVLNode::<V>::opt_seq(o)[i].1
        },
        forall|i: int, j: int|
            0 <= i < j < AVLNode::<V>::opt_seq(o).len() ==> key_lt(
                (#[trigger] AVLNode::<V>::opt_seq(o)[i]).0,
                (#[trigger] AVLNode::<V>::opt_seq(o)[j]).0,
            ),
        forall|k: NodeKey| #[trigger] AVLNode::<V>::opt_as_map(o).dom().contains(k)
            ==> exists|i: int|
                0 <= i < AVLNode::<V>::opt_seq(o).len()
                && (#[trigger] AVLNode::<V>::opt_seq(o)[i]) == (k, AVLNode::<V>::opt_as_map(o)[k]),
    decreases o,
{
    match o {
        None => {
            assert(AVLNode::<V>::opt_as_map(o).dom() =~= Set::empty());
        },
        Some(n) => {
            lemma_seq_map(n.left);
            lemma_seq_map(n.right);
            let lm = AVLNode::<V>::opt_as_map(n.left);
            let rm = AVLNode::<V>::opt_as_map(n.right);
            let ls = AVLNode::<V>::opt_seq(n.left);
            let rs = AVLNode::<V>::opt_seq(n.right);
            let m = AVLNode::<V>::opt_as_map(o);
            let s = AVLNode::<V>::opt_seq(o);
            assert(s == ls + seq![(n.key, n.value)] + rs);
            assert(m.dom() =~= lm.dom().union(rm.dom()).insert(n.key));
            assert forall|k: NodeKey| lm.dom().contains(k) implies !rm.dom().contains(k) by {
                assert(key_lt(k, n.key));
            }
            assert(lm.dom().disjoint(rm.dom()));
            vstd::set_lib::lemma_set_disjoint_lens(lm.dom(), rm.dom());
            assert(!lm.dom().contains(n.key) && !rm.dom().contains(n.key));
            assert(!lm.dom().union(rm.dom()).contains(n.key));
            assert(m.dom().len() == lm.dom().len() + rm.dom().len() + 1);
            assert forall|i: int| 0 <= i < s.len() implies {
                &&& m.dom().contains((#[trigger] s[i]).0)
                &&& m[s[i].0] == s[i].1
            } by {
                if i < ls.len() {
                    assert(s[i] == ls[i]);
                } else if i == ls.len() {
                    assert(s[i] == (n.key, n.value));
                } else {
                    assert(s[i] == rs[i - ls.len() - 1]);
                }
            }
            assert forall|k: NodeKey| #[trigger] m.dom().contains(k) implies exists|i: int|
                0 <= i < s.len() && (#[trigger] s[i]) == (k, m[k]) by {
                if k == n.key {
                    assert(s[ls.len() as int] == (k, m[k]));
                } else if lm.dom().contains(k) {
                    let i = choose|i: int| 0 <= i < ls.len() && (#[trigger] ls[i]) == (k, lm[k]);
                    assert(s[i] == (k, m[k]));
                } else {
                    let i = choose|i: int| 0 <= i < rs.len() && (#[trigger] rs[i]) == (k, rm[k]);
                    assert(s[ls.len() + 1 + i] == (k, m[k]));
                }
            }
        },
    }
}

/// Two search-ordered trees with the same symmetric-order sequence hold the
/// same map.
pub proof fn lemma_map_from_seq<V>(a: OptNode<V>, b: OptNode<V>)
    requires
        AVLNode::<V>::bst_ordered(a),
        AVLNode::<V>::bst_ordered(b),
        AVLNode::<V>::opt_seq(a) == AVLNode::<V>::opt_seq(b),
    ensures
        AVLNode::<V>::opt_as_map(a) == AVLNode::<V>::opt_as_map(b),
{
    lemma_seq_map(a);
    lemma_seq_map(b);
    let ma = AVLNode::<V>::opt_as_map(a);
    let mb = AVLNode::<V>::opt_as_map(b);
    let s = AVLNode::<V>::opt_seq(a);
    assert forall|k: NodeKey| ma.dom().contains(k) implies
        mb.dom().contains(k) && ma[k] == mb[k] by {
        let i = choose|i: int| 0 <= i < s.len() && (#[trigger] s[i]) == (k, ma[k]);
        assert(mb.dom().contains(s[i].0) && mb[s[i].0] == s[i].1);
    }
    assert forall|k: NodeKey| mb.dom().contains(k) implies ma.dom().contains(k) by {
        let i = choose|i: int| 0 <= i < s.len() && (#[trigger] s[i]) == (k, mb[k]);
        assert(ma.dom().contains(s[i].0));
    }
    assert(ma =~= mb);
}

/// Reads the stored height of an optional subtree (0 when absent).
pub fn height_of<V>(o: &OptNode<V>) -> (h: usize)
    requires
        AVLNode::<V>::heights_ok(*o),
    ensures
        h == AVLNode::<V>::opt_height(*o),
{
    match o {
        None => 0,
        Some(n) => n.height,
    }
}

/// Single right rotation: the left child becomes the top of the subtree and
/// the displaced node becomes its right child. Heights of the two moved nodes
/// are recomputed; the result's balance is the caller's concern.
pub(crate) fn node_rotate_right<V>(mut n: Box<AVLNode<V>>) -> (r: Box<AVLNode<V>>)
    requires
        n.left is Some,
        AVLNode::<V>::bst_ordered(Some(n)),
        AVLNode::<V>::heights_ok(n.left),
        AVLNode::<V>::heights_ok(n.right),
        AVLNode::<V>::opt_height(n.left) < usize::MAX - 1,
        AVLNode::<V>::opt_height(n.right) < usize::MAX - 1,
    ensures
        AVLNode::<V>::bst_ordered(Some(r)),
        AVLNode::<V>::heights_ok(Some(r)),
        r.in_seq() == n.in_seq(),
        r.as_map() == n.as_map(),
        r.key == n.left.unwrap().key,
        r.left == n.left.unwrap().left,
        r.right is Some,
        r.right.unwrap().key == n.key,
        r.right.unwrap().left == n.left.unwrap().right,
        r.right.unwrap().right == n.right,
{
    let ghost n0 = n;
    let mut l: Box<AVLNode<V>> = n.left.take().unwrap();
    n.left = l.right.take();
    let lh = height_of(&n.left);
    let rh = height_of(&n.right);
    n.height = 1 + if lh > rh { lh } else { rh };
    l.right = Some(n);
    let llh = height_of(&l.left);
    let lrh: usize = l.right.as_ref().unwrap().height;
    l.height = 1 + if llh > lrh { llh } else { lrh };
    proof {
        let l0 = n0.left.unwrap();
        let m = l.right.unwrap();
        assert(n0.in_seq() == l0.in_seq() + seq![(n0.key, n0.value)]
            + AVLNode::<V>::opt_seq(n0.right));
        assert(l0.in_seq() == AVLNode::<V>::opt_seq(l0.left) + seq![(l0.key, l0.value)]
            + AVLNode::<V>::opt_seq(l0.right));
        assert(m.in_seq() == AVLNode::<V>::opt_seq(m.left) + seq![(m.key, m.value)]
            + AVLNode::<V>::opt_seq(m.right));
        assert(l.in_seq() == AVLNode::<V>::opt_seq(l.left) + seq![(l.key, l.value)]
            + m.in_seq());
        assert(l.in_seq() =~= n0.in_seq());
        assert(AVLNode::<V>::opt_as_map(n0.left) == l0.as_map());
        assert(l0.as_map() == AVLNode::<V>::opt_as_map(l0.left).union_prefer_right(
            AVLNode::<V>::opt_as_map(l0.right)).insert(l0.key, l0.value));
        assert(m.as_map() == AVLNode::<V>::opt_as_map(m.left).union_prefer_right(
            AVLNode::<V>::opt_as_map(m.right)).insert(m.key, m.value));
        assert(l0.as_map().dom().contains(l0.key));
        assert(key_lt(l0.key, n0.key));
        assert(AVLNode::<V>::bst_ordered(n0.left));
        assert(AVLNode::<V>::bst_ordered(n0.right));
        assert(AVLNode::<V>::bst_ordered(l0.left));
        assert(AVLNode::<V>::bst_ordered(l0.right));
        assert forall|k| #[trigger] m.as_map().dom().contains(k) implies
            key_lt(l.key, k) by {
            if AVLNode::<V>::opt_as_map(l0.right).dom().contains(k) {
            } else if AVLNode::<V>::opt_as_map(n0.right).dom().contains(k) {
            } else {
                assert(k == n0.key);
            }
        }
        assert forall|k| #[trigger] AVLNode::<V>::opt_as_map(m.left).dom().contains(k) implies
            key_lt(k, m.key) by {
            assert(l0.as_map().dom().contains(k));
        }
        assert forall|k| #[trigger] AVLNode::<V>::opt_as_map(m.right).dom().contains(k) implies
            key_lt(m.key, k) by {
            assert(AVLNode::<V>::opt_as_map(n0.right).dom().contains(k));
        }
        assert(AVLNode::<V>::bst_ordered(Some(m)));
        assert(AVLNode::<V>::bst_ordered(Some(l)));
        assert(AVLNode::<V>::opt_seq(Some(l)) == l.in_seq());
        assert(AVLNode::<V>::opt_seq(Some(n0)) == n0.in_seq());
        lemma_map_from_seq::<V>(Some(l), Some(n0));
        assert(AVLNode::<V>::heights_ok(l0.left));
        assert(AVLNode::<V>::heights_ok(l0.right));
        assert(m.sheight() == 1 + vstd::math::max(
            AVLNode::<V>::opt_height(m.left) as int,
            AVLNode::<V>::opt_height(m.right) as int));
        assert(AVLNode::<V>::heights_ok(Some(m)));
        assert(l.sheight() == 1 + vstd::math::max(
            AVLNode::<V>::opt_height(l.left) as int,
            AVLNode::<V>::opt_height(l.right) as int));
        assert(AVLNode::<V>::heights_ok(Some(l)));
    }
    l
}

/// Single left rotation, the mirror image of `node_rotate_right`.
pub(crate) fn node_rotate_left<V>(mut n: Box<AVLNode<V>>) -> (r: Box<AVLNode<V>>)
    requires
        n.right is Some,
        AVLNode::<V>::bst_ordered(Some(n)),
        AVLNode::<V>::heights_ok(n.left),
        AVLNode::<V>::heights_ok(n.right),
        AVLNode::<V>::opt_height(n.left) < usize::MAX - 1,
        AVLNode::<V>::opt_height(n.right) < usize::MAX - 1,
    ensures
        AVLNode::<V>::bst_ordered(Some(r)),
        AVLNode::<V>::heights_ok(Some(r)),
        r.in_seq() == n.in_seq(),
        r.as_map() == n.as_map(),
        r.key == n.right.unwrap().key,
        r.right == n.right.unwrap().right,
        r.left is Some,
        r.left.unwrap().key == n.key,
        r.left.unwrap().right == n.right.unwrap().left,
        r.left.unwrap().left == n.left,
{
    let ghost n0 = n;
    let mut l: Box<AVLNode<V>> = n.right.take().unwrap();
    n.right = l.left.take();
    let lh = height_of(&n.left);
    let rh = height_of(&n.right);
    n.height = 1 + if lh > rh { lh } else { rh };
    l.left = Some(n);
    let llh: usize = l.left.as_ref().unwrap().height;
    let lrh = height_of(&l.right);
    l.height = 1 + if llh > lrh { llh } else { lrh };
    proof {
        let r0 = n0.right.unwrap();
        let m = l.left.unwrap();
        assert(n0.in_seq() == AVLNode::<V>::opt_seq(n0.left) + seq![(n0.key, n0.value)]
            + r0.in_seq());
        assert(r0.in_seq() == AVLNode::<V>::opt_seq(r0.left) + seq![(r0.key, r0.value)]
            + AVLNode::<V>::opt_seq(r0.right));
        assert(m.in_seq() == AVLNode::<V>::opt_seq(m.left) + seq![(m.key, m.value)]
            + AVLNode::<V>::opt_seq(m.right));
        assert(l.in_seq() == m.in_seq() + seq![(l.key, l.value)]
            + AVLNode::<V>::opt_seq(l.right));
        assert(l.in_seq() =~= n0.in_seq());
        assert(AVLNode::<V>::opt_as_map(n0.right) == r0.as_map());
        assert(r0.as_map() == AVLNode::<V>::opt_as_map(r0.left).union_prefer_right(
            AVLNode::<V>::opt_as_map(r0.right)).insert(r0.key, r0.value));
        assert(m.as_map() == AVLNode::<V>::opt_as_map(m.left).union_prefer_right(
            AVLNode::<V>::opt_as_map(m.right)).insert(m.key, m.value));
        assert(r0.as_map().dom().contains(r0.key));
        assert(key_lt(n0.key, r0.key));
        assert(AVLNode::<V>::bst_ordered(n0.left));
        assert(AVLNode::<V>::bst_ordered(n0.right));
        assert(AVLNode::<V>::bst_ordered(r0.left));
        assert(AVLNode::<V>::bst_ordered(r0.right));
        assert forall|k| #[trigger] m.as_map().dom().contains(k) implies
            key_lt(k, l.key) by {
            if AVLNode::<V>::opt_as_map(r0.left).dom().contains(k) {
            } else if AVLNode::<V>::opt_as_map(n0.left).dom().contains(k) {
            } else {
                assert(k == n0.key);
            }
        }
        assert forall|k| #[trigger] AVLNode::<V>::opt_as_map(m.right).dom().contains(k) implies
            key_lt(m.key, k) by {
            assert(r0.as_map().dom().contains(k));
        }
        assert forall|k| #[trigger] AVLNode::<V>::opt_as_map(m.left).dom().contains(k) implies
            key_lt(k, m.key) by {
            assert(AVLNode::<V>::opt_as_map(n0.left).dom().contains(k));
        }
        assert(AVLNode::<V>::bst_ordered(Some(m)));
        assert(AVLNode::<V>::bst_ordered(Some(l)));
        assert(AVLNode::<V>::opt_seq(Some(l)) == l.in_seq());
        assert(AVLNode::<V>::opt_seq(Some(n0)) == n0.in_seq());
        lemma_map_from_seq::<V>(Some(l), Some(n0));
        assert(AVLNode::<V>::heights_ok(r0.left));
        assert(AVLNode::<V>::heights_ok(r0.right));
        assert(m.sheight() == 1 + vstd::math::max(
            AVLNode::<V>::opt_height(m.left) as int,
            AVLNode::<V>::opt_height(m.right) as int));
        assert(AVLNode::<V>::heights_ok(Some(m)));
        assert(l.sheight() == 1 + vstd::math::max(
            AVLNode::<V>::opt_height(l.left) as int,
            AVLNode::<V>::opt_height(l.right) as int));
        assert(AVLNode::<V>::heights_ok(Some(l)));
    }
    l
}

/// Restores the AVL shape at one node after a child changed height by at
/// most one: recomputes the height and, at a balance factor of two, applies
/// the single or double rotation chosen from the grandchild heights.
#[verifier::rlimit(50)]
pub(crate) fn node_fix<V>(mut n: Box<AVLNode<V>>) -> (r: Box<AVLNode<V>>)
    requires
        AVLNode::<V>::bst_ordered(Some(n)),
        AVLNode::<V>::heights_ok(n.left),
        AVLNode::<V>::heights_ok(n.right),
        AVLNode::<V>::balanced(n.left),
        AVLNode::<V>::balanced(n.right),
        AVLNode::<V>::opt_height(n.left) <= AVLNode::<V>::opt_height(n.right) + 2,
        AVLNode::<V>::opt_height(n.right) <= AVLNode::<V>::opt_height(n.left) + 2,
        AVLNode::<V>::opt_height(n.left) + AVLNode::<V>::opt_height(n.right) + 1
            <= usize::MAX,
    ensures
        AVLNode::<V>::opt_wf(Some(r)),
        r.in_seq() == n.in_seq(),
        r.as_map() == n.as_map(),
        vstd::math::max(
            AVLNode::<V>::opt_height(n.left) as int,
            AVLNode::<V>::opt_height(n.right) as int,
        ) <= r.sheight() <= 1 + vstd::math::max(
            AVLNode::<V>::opt_height(n.left) as int,
            AVLNode::<V>::opt_height(n.right) as int,
        ),
        (AVLNode::<V>::opt_height(n.left) <= AVLNode::<V>::opt_height(n.right) + 1
            && AVLNode::<V>::opt_height(n.right) <= AVLNode::<V>::opt_height(n.left) + 1)
            ==> r.sheight() == 1 + vstd::math::max(
                AVLNode::<V>::opt_height(n.left) as int,
                AVLNode::<V>::opt_height(n.right) as int,
            ),
{
    let ghost n0 = n;
    let lh = height_of(&n.left);
    let rh = height_of(&n.right);
    if lh == rh + 2 {
        // Left-heavy. Decide between single and double rotation from the
        // left child's own children.
        let ghost l0 = n.left.unwrap();
        let (llh, lrh) = match &n.left {
            Some(l) => (height_of(&l.left), height_of(&l.right)),
            None => (0, 0),
        };
        proof {
            assert(AVLNode::<V>::bst_ordered(n.left));
            assert(AVLNode::<V>::bst_ordered(n.right));
            assert(AVLNode::<V>::balanced(l0.left));
            assert(AVLNode::<V>::balanced(l0.right));
            assert(AVLNode::<V>::heights_ok(l0.left));
            assert(AVLNode::<V>::heights_ok(l0.right));
        }
        if llh < lrh {
            let l = n.left.take().unwrap();
            let ghost lr0 = l.right.unwrap();
            proof {
                assert(lr0.sheight() == 1 + vstd::math::max(
                    AVLNode::<V>::opt_height(lr0.left) as int,
                    AVLNode::<V>::opt_height(lr0.right) as int));
            }
            let l2 = node_rotate_left(l);
            proof {
                assert(AVLNode::<V>::balanced(lr0.left));
                assert(AVLNode::<V>::balanced(lr0.right));
                assert(AVLNode::<V>::heights_ok(lr0.left));
                assert(AVLNode::<V>::heights_ok(lr0.right));
                assert(l2.left.unwrap().sheight() == 1 + vstd::math::max(
                    AVLNode::<V>::opt_height(l2.left.unwrap().left) as int,
                    AVLNode::<V>::opt_height(l2.left.unwrap().right) as int));
                assert(l2.sheight() == 1 + vstd::math::max(
                    AVLNode::<V>::opt_height(l2.left) as int,
                    AVLNode::<V>::opt_height(l2.right) as int));
            }
            n.left = Some(l2);
            proof {
                assert(AVLNode::<V>::opt_as_map(n.left) == l2.as_map());
                assert(l2.as_map() == l0.as_map());
                assert(AVLNode::<V>::opt_as_map(n0.left) == l0.as_map());
                assert forall|k| #[trigger] AVLNode::<V>::opt_as_map(n.left).dom().contains(k)
                    implies key_lt(k, n.key) by {
                    assert(AVLNode::<V>::opt_as_map(n0.left).dom().contains(k));
                }
                assert(AVLNode::<V>::bst_ordered(Some(n)));
                assert(AVLNode::<V>::opt_seq(n.left) == l2.in_seq());
                assert(AVLNode::<V>::opt_seq(n0.left) == l0.in_seq());
                assert(n.in_seq() == n0.in_seq());
            }
            let r = node_rotate_right(n);
            proof {
                let m = r.right.unwrap();
                assert(m.sheight() == 1 + vstd::math::max(
                    AVLNode::<V>::opt_height(m.left) as int,
                    AVLNode::<V>::opt_height(m.right) as int));
                assert(r.sheight() == 1 + vstd::math::max(
                    AVLNode::<V>::opt_height(r.left) as int,
                    AVLNode::<V>::opt_height(r.right) as int));
                assert(r.left == l2.left);
                assert(m.left == l2.right);
                assert(m.right == n0.right);
                assert(AVLNode::<V>::balanced(r.left));
                assert(AVLNode::<V>::balanced(m.left));
                assert(AVLNode::<V>::balanced(m.right));
                assert(AVLNode::<V>::balanced(Some(m)));
                assert(AVLNode::<V>::balanced(Some(r)));
            }
            r
        } else {
            let r = node_rotate_right(n);
            proof {
                let m = r.right.unwrap();
                assert(m.sheight() == 1 + vstd::math::max(
                    AVLNode::<V>::opt_height(m.left) as int,
                    AVLNode::<V>::opt_height(m.right) as int));
                assert(r.sheight() == 1 + vstd::math::max(
                    AVLNode::<V>::opt_height(r.left) as int,
                    AVLNode::<V>::opt_height(r.right) as int));
                assert(r.left == l0.left);
                assert(m.left == l0.right);
                assert(m.right == n0.right);
                assert(AVLNode::<V>::balanced(r.left));
                assert(AVLNode::<V>::balanced(m.left));
                assert(AVLNode::<V>::balanced(m.right));
                assert(AVLNode::<V>::balanced(Some(m)));
                assert(AVLNode::<V>::balanced(Some(r)));
            }
            r
        }
    } else if rh == lh + 2 {
        // Right-heavy: the mirror image.
        let ghost r0 = n.right.unwrap();
        let (rlh, rrh) = match &n.right {
            Some(r) => (height_of(&r.left), height_of(&r.right)),
            None => (0, 0),
        };
        proof {
            assert(AVLNode::<V>::bst_ordered(n.left));
            assert(AVLNode::<V>::bst_ordered(n.right));
            assert(AVLNode::<V>::balanced(r0.left));
            assert(AVLNode::<V>::balanced(r0.right));
            assert(AVLNode::<V>::heights_ok(r0.left));
            assert(AVLNode::<V>::heights_ok(r0.right));
        }
        if rlh > rrh {
            let rt = n.right.take().unwrap();
            let ghost rl0 = rt.left.unwrap();
            proof {
                assert(rl0.sheight() == 1 + vstd::math::max(
                    AVLNode::<V>::opt_height(rl0.left) as int,
                    AVLNode::<V>::opt_height(rl0.right) as int));
            }
            let r2 = node_rotate_right(rt);
            proof {
                assert(AVLNode::<V>::balanced(rl0.left));
                assert(AVLNode::<V>::balanced(rl0.right));
                assert(AVLNode::<V>::heights_ok(rl0.left));
                assert(AVLNode::<V>::heights_ok(rl0.right));
                assert(r2.right.unwrap().sheight() == 1 + vstd::math::max(
                    AVLNode::<V>::opt_height(r2.right.unwrap().left) as int,
                    AVLNode::<V>::opt_height(r2.right.unwrap().right) as int));
                assert(r2.sheight() == 1 + vstd::math::max(
                    AVLNode::<V>::opt_height(r2.left) as int,
                    AVLNode::<V>::opt_height(r2.right) as int));
            }
            n.right = Some(r2);
            proof {
                assert(AVLNode::<V>::opt_as_map(n.right) == r2.as_map());
                assert(r2.as_map() == r0.as_map());
                assert(AVLNode::<V>::opt_as_map(n0.right) == r0.as_map());
                assert forall|k| #[trigger] AVLNode::<V>::opt_as_map(n.right).dom().contains(k)
                    implies key_lt(n.key, k) by {
                    assert(AVLNode::<V>::opt_as_map(n0.right).dom().contains(k));
                }
                assert(AVLNode::<V>::bst_ordered(Some(n)));
                assert(AVLNode::<V>::opt_seq(n.right) == r2.in_seq());
                assert(AVLNode::<V>::opt_seq(n0.right) == r0.in_seq());
                assert(n.in_seq() == n0.in_seq());
            }
            let r = node_rotate_left(n);
            proof {
                let m = r.left.unwrap();
                assert(m.sheight() == 1 + vstd::math::max(
                    AVLNode::<V>::opt_height(m.left) as int,
                    AVLNode::<V>::opt_height(m.right) as int));
                assert(r.sheight() == 1 + vstd::math::max(
                    AVLNode::<V>::opt_height(r.left) as int,
                    AVLNode::<V>::opt_height(r.right) as int));
                assert(r.right == r2.right);
                assert(m.right == r2.left);
                assert(m.left == n0.left);
                assert(AVLNode::<V>::balanced(r.right));
                assert(AVLNode::<V>::balanced(m.left));
                assert(AVLNode::<V>::balanced(m.right));
                assert(AVLNode::<V>::balanced(Some(m)));
                assert(AVLNode::<V>::balanced(Some(r)));
            }
            r
        } else {
            let r = node_rotate_left(n);
            proof {
                let m = r.left.unwrap();
                assert(m.sheight() == 1 + vstd::math::max(
                    AVLNode::<V>::opt_height(m.left) as int,
                    AVLNode::<V>::opt_height(m.right) as int));
                assert(r.sheight() == 1 + vstd::math::max(
                    AVLNode::<V>::opt_height(r.left) as int,
                    AVLNode::<V>::opt_height(r.right) as int));
                assert(r.right == r0.right);
                assert(m.right == r0.left);
                assert(m.left == n0.left);
                assert(AVLNode::<V>::balanced(r.right));
                assert(AVLNode::<V>::balanced(m.left));
                assert(AVLNode::<V>::balanced(m.right));
                assert(AVLNode::<V>::balanced(Some(m)));
                assert(AVLNode::<V>::balanced(Some(r)));
            }
            r
        }
    } else {
        // Heights already within one of each other: just refresh the height.
        n.height = 1 + if lh > rh { lh } else { rh };
        proof {
            assert(n.sheight() == 1 + vstd::math::max(
                AVLNode::<V>::opt_height(n.left) as int,
                AVLNode::<V>::opt_height(n.right) as int));
            assert(AVLNode::<V>::heights_ok(Some(n)));
            assert(AVLNode::<V>::balanced(Some(n)));
            assert(n.in_seq() == n0.in_seq());
            assert(n.as_map() == n0.as_map());
        }
        n
    }
}

/// Inserts `key -> value` into the subtree, returning the value previously
/// stored under an equal key, if any. The subtree keeps the AVL shape; its
/// height grows by at most one, and only when the key is new.
#[verifier::rlimit(60)]
pub(crate) fn insert_opt<V>(o: OptNode<V>, key: NodeKey, value: V) -> (r: (OptNode<V>, Option<V>))
    requires
        AVLNode::<V>::opt_wf(o),
        AVLNode::<V>::opt_seq(o).len() < usize::MAX,
    ensures
        AVLNode::<V>::opt_wf(r.0),
        AVLNode::<V>::opt_as_map(r.0) == AVLNode::<V>::opt_as_map(o).insert(key, value),
        AVLNode::<V>::opt_as_map(o).dom().contains(key) ==> {
            &&& r.1 == Some(AVLNode::<V>::opt_as_map(o)[key])
            &&& AVLNode::<V>::opt_height(r.0) == AVLNode::<V>::opt_height(o)
            &&& AVLNode::<V>::opt_seq(r.0).len() == AVLNode::<V>::opt_seq(o).len()
        },
        !AVLNode::<V>::opt_as_map(o).dom().contains(key) ==> {
            &&& r.1 is None
            &&& AVLNode::<V>::opt_height(o) <= AVLNode::<V>::opt_height(r.0)
                <= AVLNode::<V>::opt_height(o) + 1
            &&& AVLNode::<V>::opt_seq(r.0).len() == AVLNode::<V>::opt_seq(o).len() + 1
        },
    decreases o,
{
    match o {
        None => {
            let n = Box::new(AVLNode { key, value, height: 1, left: None, right: None });
            proof {
                assert(AVLNode::<V>::opt_as_map(n.left) == Map::<NodeKey, V>::empty());
                assert(AVLNode::<V>::opt_as_map(n.right) == Map::<NodeKey, V>::empty());
                assert(AVLNode::<V>::opt_as_map(Some(n)) == n.as_map());
                assert(n.as_map() =~= Map::<NodeKey, V>::empty().insert(key, value));
                assert(AVLNode::<V>::opt_seq(Some(n)) == n.in_seq());
                assert(n.in_seq() =~= seq![(key, value)]);
                assert(n.sheight() == 1);
                assert(AVLNode::<V>::opt_wf(Some(n)));
            }
            (Some(n), None)
        },
        Some(mut b) => {
            let ghost b0 = b;
            let ghost m0 = AVLNode::<V>::opt_as_map(o);
            proof {
                assert(b.as_map() == AVLNode::<V>::opt_as_map(b.left).union_prefer_right(
                    AVLNode::<V>::opt_as_map(b.right)).insert(b.key, b.value));
                assert(b.in_seq() == AVLNode::<V>::opt_seq(b.left) + seq![(b.key, b.value)]
                    + AVLNode::<V>::opt_seq(b.right));
                lemma_seq_map(b.left);
                lemma_seq_map(b.right);
                lemma_height_le_size(b.left);
                lemma_height_le_size(b.right);
            }
            match key_cmp(&key, &b.key) {
                core::cmp::Ordering::Equal => {
                    let mut old_v = value;
                    core::mem::swap(&mut old_v, &mut b.value);
                    proof {
                        assert(b.as_map() == AVLNode::<V>::opt_as_map(b.left)
                            .union_prefer_right(AVLNode::<V>::opt_as_map(b.right))
                            .insert(b.key, b.value));
                        assert(b.as_map() =~= b0.as_map().insert(key, value));
                        assert(b.sheight() == b0.sheight());
                        assert(AVLNode::<V>::bst_ordered(Some(b)));
                        assert(AVLNode::<V>::heights_ok(Some(b)));
                        assert(AVLNode::<V>::balanced(Some(b)));
                        assert(m0.dom().contains(key));
                        assert(!AVLNode::<V>::opt_as_map(b0.left).dom().contains(key));
                        assert(!AVLNode::<V>::opt_as_map(b0.right).dom().contains(key));
                        assert(m0[key] == old_v);
                        assert(b.in_seq().len() == b0.in_seq().len());
                    }
                    (Some(b), Some(old_v))
                },
                core::cmp::Ordering::Less => {
                    proof {
                        if AVLNode::<V>::opt_as_map(b0.right).dom().contains(key) {
                            assert(key_lt(b0.key, key));
                            assert(false);
                        }
                        assert(m0.dom().contains(key)
                            <==> AVLNode::<V>::opt_as_map(b0.left).dom().contains(key));
                    }
                    let (new_left, prev) = insert_opt(b.left.take(), key, value);
                    b.left = new_left;
                    proof {
                        lemma_seq_map(b.left);
                        lemma_height_le_size(b.left);
                        assert forall|k| #[trigger] AVLNode::<V>::opt_as_map(b.left)
                            .dom().contains(k) implies key_lt(k, b.key) by {
                            if k != key {
                                assert(AVLNode::<V>::opt_as_map(b0.left).dom().contains(k));
                            }
                        }
                        assert(AVLNode::<V>::bst_ordered(Some(b)));
                    }
                    let r = node_fix(b);
                    proof {
                        assert(r.as_map() == AVLNode::<V>::opt_as_map(b.left)
                            .union_prefer_right(AVLNode::<V>::opt_as_map(b0.right))
                            .insert(b0.key, b0.value));
                        assert(r.as_map() =~= m0.insert(key, value));
                        assert(AVLNode::<V>::opt_as_map(Some(r)) == r.as_map());
                        assert(AVLNode::<V>::opt_seq(Some(r)) == r.in_seq());
                        assert(r.in_seq().len() == AVLNode::<V>::opt_seq(b.left).len() + 1
                            + AVLNode::<V>::opt_seq(b0.right).len());
                        assert(AVLNode::<V>::opt_height(Some(r)) == r.sheight());
                        assert(b0.sheight() == 1 + vstd::math::max(
                            AVLNode::<V>::opt_height(b0.left) as int,
                            AVLNode::<V>::opt_height(b0.right) as int));
                    }
                    (Some(r), prev)
                },
                core::cmp::Ordering::Greater => {
                    proof {
                        if AVLNode::<V>::opt_as_map(b0.left).dom().contains(key) {
                            assert(key_lt(key, b0.key));
                            assert(false);
                        }
                        assert(m0.dom().contains(key)
                            <==> AVLNode::<V>::opt_as_map(b0.right).dom().contains(key));
                    }
                    let (new_right, prev) = insert_opt(b.right.take(), key, value);
                    b.right = new_right;
                    proof {
                        lemma_seq_map(b.right);
                        lemma_height_le_size(b.right);
                        assert forall|k| #[trigger] AVLNode::<V>::opt_as_map(b.right)
                            .dom().contains(k) implies key_lt(b.key, k) by {
                            if k != key {
                                assert(AVLNode::<V>::opt_as_map(b0.right).dom().contains(k));
                            }
                        }
                        assert(AVLNode::<V>::bst_ordered(Some(b)));
                    }
                    let r = node_fix(b);
                    proof {
                        assert(r.as_map() == AVLNode::<V>::opt_as_map(b0.left)
                            .union_prefer_right(AVLNode::<V>::opt_as_map(b.right))
                            .insert(b0.key, b0.value));
                        assert(r.as_map() =~= m0.insert(key, value));
                        assert(AVLNode::<V>::opt_as_map(Some(r)) == r.as_map());
                        assert(AVLNode::<V>::opt_seq(Some(r)) == r.in_seq());
                        assert(r.in_seq().len() == AVLNode::<V>::opt_seq(b0.left).len() + 1
                            + AVLNode::<V>::opt_seq(b.right).len());
                        assert(AVLNode::<V>::opt_height(Some(r)) == r.sheight());
                        assert(b0.sheight() == 1 + vstd::math::max(
                            AVLNode::<V>::opt_height(b0.left) as int,
                            AVLNode::<V>::opt_height(b0.right) as int));
                    }
                    (Some(r), prev)
                },
            }
        },
    }
}

/// Detaches the leftmost (smallest-keyed) node of a subtree and returns its
/// pair; the rest keeps the AVL shape and shrinks in height by at most one.
#[verifier::rlimit(60)]
pub(crate) fn remove_first<V>(mut b: Box<AVLNode<V>>) -> (r: (OptNode<V>, (NodeKey, V)))
    requires
        AVLNode::<V>::opt_wf(Some(b)),
        AVLNode::<V>::opt_seq(Some(b)).len() <= usize::MAX,
    ensures
        AVLNode::<V>::opt_wf(r.0),
        b.as_map().dom().contains(r.1.0),
        b.as_map()[r.1.0] == r.1.1,
        forall|k| #[trigger] b.as_map().dom().contains(k) && k != r.1.0
            ==> key_lt(r.1.0, k),
        AVLNode::<V>::opt_as_map(r.0) == b.as_map().remove(r.1.0),
        b.sheight() - 1 <= AVLNode::<V>::opt_height(r.0) <= b.sheight(),
        AVLNode::<V>::opt_seq(r.0).len() == AVLNode::<V>::opt_seq(Some(b)).len() - 1,
    decreases b,
{
    let ghost b0 = b;
    proof {
        assert(b.as_map() == AVLNode::<V>::opt_as_map(b.left).union_prefer_right(
            AVLNode::<V>::opt_as_map(b.right)).insert(b.key, b.value));
        assert(b.in_seq() == AVLNode::<V>::opt_seq(b.left) + seq![(b.key, b.value)]
            + AVLNode::<V>::opt_seq(b.right));
        assert(AVLNode::<V>::opt_seq(Some(b)) == b.in_seq());
        lemma_seq_map(b.left);
        lemma_seq_map(b.right);
        lemma_height_le_size(b.left);
        lemma_height_le_size(b.right);
    }
    let has_left = b.left.is_some();
    if !has_left {
        proof {
            assert(AVLNode::<V>::opt_as_map(b.left) == Map::<NodeKey, V>::empty());
            assert(b.as_map() =~= AVLNode::<V>::opt_as_map(b.right).insert(b.key, b.value));
            assert(!AVLNode::<V>::opt_as_map(b.right).dom().contains(b.key));
            assert(AVLNode::<V>::opt_as_map(b.right) =~= b.as_map().remove(b.key));
            assert(b.sheight() == 1 + AVLNode::<V>::opt_height(b.right));
            assert forall|k| #[trigger] b.as_map().dom().contains(k) && k != b.key
                implies key_lt(b.key, k) by {
                assert(AVLNode::<V>::opt_as_map(b0.right).dom().contains(k));
            }
        }
        let right = b.right.take();
        let bb = *b;
        let AVLNode { key, value, .. } = bb;
        (right, (key, value))
    } else {
        let left = b.left.take().unwrap();
        let (new_left, popped) = remove_first(left);
        b.left = new_left;
        proof {
            assert forall|k| #[trigger] AVLNode::<V>::opt_as_map(b.left).dom().contains(k)
                implies key_lt(k, b.key) by {
                assert(AVLNode::<V>::opt_as_map(b0.left).dom().contains(k));
            }
            assert(AVLNode::<V>::bst_ordered(Some(b)));
            lemma_height_le_size(b.left);
        }
        let r = node_fix(b);
        proof {
            assert(AVLNode::<V>::opt_as_map(Some(r)) == r.as_map());
            assert(AVLNode::<V>::opt_seq(Some(r)) == r.in_seq());
            assert(r.as_map() == AVLNode::<V>::opt_as_map(b.left)
                .union_prefer_right(AVLNode::<V>::opt_as_map(b0.right))
                .insert(b0.key, b0.value));
            assert(r.in_seq().len() == AVLNode::<V>::opt_seq(b.left).len() + 1
                + AVLNode::<V>::opt_seq(b0.right).len());
            assert(AVLNode::<V>::opt_as_map(b0.left).dom().contains(popped.0));
            assert(key_lt(popped.0, b0.key));
            assert(r.as_map() =~= b0.as_map().remove(popped.0));
            assert forall|k| #[trigger] b0.as_map().dom().contains(k) && k != popped.0
                implies key_lt(popped.0, k) by {
                if AVLNode::<V>::opt_as_map(b0.left).dom().contains(k) {
                } else if AVLNode::<V>::opt_as_map(b0.right).dom().contains(k) {
                    assert(key_lt(b0.key, k));
                } else {
                    assert(k == b0.key);
                }
            }
            assert(b0.sheight() == 1 + vstd::math::max(
                AVLNode::<V>::opt_height(b0.left) as int,
                AVLNode::<V>::opt_height(b0.right) as int));
            assert(AVLNode::<V>::opt_height(Some(r)) == r.sheight());
        }
        (Some(r), popped)
    }
}

/// Removes `key` from the subtree, returning the detached pair if the key
/// was present. A node with two children is replaced by its in-order
/// successor, the leftmost node of the right subtree. The subtree keeps
/// the AVL shape and shrinks in height by at most one.
#[verifier::rlimit(60)]
pub(crate) fn remove_opt<V>(o: OptNode<V>, key: NodeKey) -> (r: (OptNode<V>, Option<(NodeKey, V)>))
    requires
        AVLNode::<V>::opt_wf(o),
        AVLNode::<V>::opt_seq(o).len() <= usize::MAX,
    ensures
        AVLNode::<V>::opt_wf(r.0),
        AVLNode::<V>::opt_as_map(r.0) == AVLNode::<V>::opt_as_map(o).remove(key),
        AVLNode::<V>::opt_as_map(o).dom().contains(key) ==> {
            &&& r.1 == Some((key, AVLNode::<V>::opt_as_map(o)[key]))
            &&& AVLNode::<V>::opt_height(o) - 1 <= AVLNode::<V>::opt_height(r.0)
                <= AVLNode::<V>::opt_height(o)
            &&& AVLNode::<V>::opt_seq(r.0).len() == AVLNode::<V>::opt_seq(o).len() - 1
        },
        !AVLNode::<V>::opt_as_map(o).dom().contains(key) ==> {
            &&& r.1 is None
            &&& AVLNode::<V>::opt_height(r.0) == AVLNode::<V>::opt_height(o)
            &&& AVLNode::<V>::opt_seq(r.0).len() == AVLNode::<V>::opt_seq(o).len()
        },
    decreases o,
{
    match o {
        None => {
            proof {
                assert(AVLNode::<V>::opt_as_map(o) =~= AVLNode::<V>::opt_as_map(o).remove(key));
            }
            (None, None)
        },
        Some(mut b) => {
            let ghost b0 = b;
            let ghost m0 = AVLNode::<V>::opt_as_map(o);
            proof {
                assert(b.as_map() == AVLNode::<V>::opt_as_map(b.left).union_prefer_right(
                    AVLNode::<V>::opt_as_map(b.right)).insert(b.key, b.value));
                assert(b.in_seq() == AVLNode::<V>::opt_seq(b.left) + seq![(b.key, b.value)]
                    + AVLNode::<V>::opt_seq(b.right));
                lemma_seq_map(b.left);
                lemma_seq_map(b.right);
                lemma_height_le_size(b.left);
                lemma_height_le_size(b.right);
                assert(!AVLNode::<V>::opt_as_map(b0.left).dom().contains(b0.key));
                assert(!AVLNode::<V>::opt_as_map(b0.right).dom().contains(b0.key));
            }
            match key_cmp(&key, &b.key) {
                core::cmp::Ordering::Equal => {
                    if b.left.is_none() {
                        proof {
                            assert(AVLNode::<V>::opt_as_map(b.left)
                                == Map::<NodeKey, V>::empty());
                            assert(AVLNode::<V>::opt_as_map(b0.right)
                                =~= m0.remove(key));
                            assert(b.sheight() == 1 + AVLNode::<V>::opt_height(b.right));
                        }
                        let right = b.right.take();
                        let bb = *b;
                        let AVLNode { key: k0, value: v0, .. } = bb;
                        (right, Some((k0, v0)))
                    } else if b.right.is_none() {
                        proof {
                            assert(AVLNode::<V>::opt_as_map(b.right)
                                == Map::<NodeKey, V>::empty());
                            assert(AVLNode::<V>::opt_as_map(b0.left)
                                =~= m0.remove(key));
                            assert(b.sheight() == 1 + AVLNode::<V>::opt_height(b.left));
                        }
                        let left = b.left.take();
                        let bb = *b;
                        let AVLNode { key: k0, value: v0, .. } = bb;
                        (left, Some((k0, v0)))
                    } else {
                        let right = b.right.take().unwrap();
                        let (new_right, succ) = remove_first(right);
                        b.right = new_right;
                        let (sk, sv) = succ;
                        let mut old_k = sk;
                        let mut old_v = sv;
                        core::mem::swap(&mut old_k, &mut b.key);
                        core::mem::swap(&mut old_v, &mut b.value);
                        proof {
                            let r0 = b0.right.unwrap();
                            assert(AVLNode::<V>::opt_as_map(b0.right) == r0.as_map());
                            assert(r0.as_map().dom().contains(sk));
                            assert(key_lt(b0.key, sk));
                            assert(b.key == sk && b.value == sv);
                            assert(old_k == b0.key && old_v == b0.value);
                            assert forall|k| #[trigger] AVLNode::<V>::opt_as_map(b.left)
                                .dom().contains(k) implies key_lt(k, b.key) by {
                                assert(AVLNode::<V>::opt_as_map(b0.left).dom().contains(k));
                                assert(key_lt(k, b0.key));
                            }
                            assert forall|k| #[trigger] AVLNode::<V>::opt_as_map(b.right)
                                .dom().contains(k) implies key_lt(b.key, k) by {
                                assert(r0.as_map().remove(sk).dom().contains(k));
                                assert(r0.as_map().dom().contains(k) && k != sk);
                            }
                            assert(AVLNode::<V>::bst_ordered(Some(b)));
                            lemma_height_le_size(b.right);
                        }
                        let r = node_fix(b);
                        proof {
                            assert(AVLNode::<V>::opt_as_map(Some(r)) == r.as_map());
                            assert(AVLNode::<V>::opt_seq(Some(r)) == r.in_seq());
                            assert(r.as_map() == AVLNode::<V>::opt_as_map(b0.left)
                                .union_prefer_right(AVLNode::<V>::opt_as_map(b.right))
                                .insert(sk, sv));
                            let rm = AVLNode::<V>::opt_as_map(b0.right);
                            assert(rm[sk] == sv);
                            assert(m0[sk] == sv);
                            assert(r.as_map() =~= m0.remove(key));
                            assert(r.in_seq().len() == AVLNode::<V>::opt_seq(b0.left).len()
                                + 1 + AVLNode::<V>::opt_seq(b.right).len());
                            assert(b0.sheight() == 1 + vstd::math::max(
                                AVLNode::<V>::opt_height(b0.left) as int,
                                AVLNode::<V>::opt_height(b0.right) as int));
                            assert(AVLNode::<V>::opt_height(Some(r)) == r.sheight());
                        }
                        (Some(r), Some((old_k, old_v)))
                    }
                },
                core::cmp::Ordering::Less => {
                    proof {
                        if AVLNode::<V>::opt_as_map(b0.right).dom().contains(key) {
                            assert(key_lt(b0.key, key));
                            assert(false);
                        }
                        assert(m0.dom().contains(key)
                            <==> AVLNode::<V>::opt_as_map(b0.left).dom().contains(key));
                    }
                    let (new_left, prev) = remove_opt(b.left.take(), key);
                    b.left = new_left;
                    proof {
                        assert forall|k| #[trigger] AVLNode::<V>::opt_as_map(b.left)
                            .dom().contains(k) implies key_lt(k, b.key) by {
                            assert(AVLNode::<V>::opt_as_map(b0.left).remove(key)
                                .dom().contains(k));
                            assert(AVLNode::<V>::opt_as_map(b0.left).dom().contains(k));
                        }
                        assert(AVLNode::<V>::bst_ordered(Some(b)));
                        lemma_seq_map(b.left);
                        lemma_height_le_size(b.left);
                    }
                    let r = node_fix(b);
                    proof {
                        assert(AVLNode::<V>::opt_as_map(Some(r)) == r.as_map());
                        assert(AVLNode::<V>::opt_seq(Some(r)) == r.in_seq());
                        assert(r.as_map() == AVLNode::<V>::opt_as_map(b.left)
                            .union_prefer_right(AVLNode::<V>::opt_as_map(b0.right))
                            .insert(b0.key, b0.value));
                        assert(r.as_map() =~= m0.remove(key));
                        assert(r.in_seq().len() == AVLNode::<V>::opt_seq(b.left).len() + 1
                            + AVLNode::<V>::opt_seq(b0.right).len());
                        assert(b0.sheight() == 1 + vstd::math::max(
                            AVLNode::<V>::opt_height(b0.left) as int,
                            AVLNode::<V>::opt_height(b0.right) as int));
                        assert(AVLNode::<V>::opt_height(Some(r)) == r.sheight());
                    }
                    (Some(r), prev)
                },
                core::cmp::Ordering::Greater => {
                    proof {
                        if AVLNode::<V>::opt_as_map(b0.left).dom().contains(key) {
                            assert(key_lt(key, b0.key));
                            assert(false);
                        }
                        assert(m0.dom().contains(key)
                            <==> AVLNode::<V>::opt_as_map(b0.right).dom().contains(key));
                    }
                    let (new_right, prev) = remove_opt(b.right.take(), key);
                    b.right = new_right;
                    proof {
                        assert forall|k| #[trigger] AVLNode::<V>::opt_as_map(b.right)
                            .dom().contains(k) implies key_lt(b.key, k) by {
                            assert(AVLNode::<V>::opt_as_map(b0.right).remove(key)
                                .dom().contains(k));
                            assert(AVLNode::<V>::opt_as_map(b0.right).dom().contains(k));
                        }
                        assert(AVLNode::<V>::bst_ordered(Some(b)));
                        lemma_seq_map(b.right);
                        lemma_height_le_size(b.right);
                    }
                    let r = node_fix(b);
                    proof {
                        assert(AVLNode::<V>::opt_as_map(Some(r)) == r.as_map());
                        assert(AVLNode::<V>::opt_seq(Some(r)) == r.in_seq());
                        assert(r.as_map() == AVLNode::<V>::opt_as_map(b0.left)
                            .union_prefer_right(AVLNode::<V>::opt_as_map(b.right))
                            .insert(b0.key, b0.value));
                        assert(r.as_map() =~= m0.remove(key));
                        assert(r.in_seq().len() == AVLNode::<V>::opt_seq(b0.left).len() + 1
                            + AVLNode::<V>::opt_seq(b.right).len());
                        assert(b0.sheight() == 1 + vstd::math::max(
                            AVLNode::<V>::opt_height(b0.left) as int,
                            AVLNode::<V>::opt_height(b0.right) as int));
                        assert(AVLNode::<V>::opt_height(Some(r)) == r.sheight());
                    }
                    (Some(r), prev)
                },
            }
        },
    }
}

impl<V> AVLNode<V> {
    /// What it means for `r` to be the in-order successor of `key` in map
    /// `m`: the smallest stored key strictly greater than `key`, with its
    /// value.
    pub open spec fn is_succ(m: Map<NodeKey, V>, key: NodeKey, r: Option<(NodeKey, V)>) -> bool {
        match r {
            None => forall|k| #[trigger] m.dom().contains(k) ==> !key_lt(key, k),
            Some(p) => {
                &&& m.dom().contains(p.0)
                &&& key_lt(key, p.0)
                &&& p.1 == m[p.0]
                &&& forall|k| #[trigger] m.dom().contains(k) && key_lt(key, k)
                    ==> k == p.0 || key_lt(p.0, k)
            },
        }
    }

    /// The mirror image: the largest stored key strictly smaller than `key`.
    pub open spec fn is_pred(m: Map<NodeKey, V>, key: NodeKey, r: Option<(NodeKey, V)>) -> bool {
        match r {
            None => forall|k| #[trigger] m.dom().contains(k) ==> !key_lt(k, key),
            Some(p) => {
                &&& m.dom().contains(p.0)
                &&& key_lt(p.0, key)
                &&& p.1 == m[p.0]
                &&& forall|k| #[trigger] m.dom().contains(k) && key_lt(k, key)
                    ==> k == p.0 || key_lt(k, p.0)
            },
        }
    }
}

/// Looks a key up in the subtree and borrows its value.
pub fn get_opt<'a, V>(o: &'a OptNode<V>, key: NodeKey) -> (r: Option<&'a V>)
    requires
        AVLNode::<V>::bst_ordered(*o),
    ensures
        match r {
            Some(v) => AVLNode::<V>::opt_as_map(*o).dom().contains(key)
                && *v == AVLNode::<V>::opt_as_map(*o)[key],
            None => !AVLNode::<V>::opt_as_map(*o).dom().contains(key),
        },
    decreases *o,
{
    match o {
        None => None,
        Some(n) => {
            match key_cmp(&key, &n.key) {
                core::cmp::Ordering::Equal => Some(&n.value),
                core::cmp::Ordering::Less => {
                    proof {
                        if AVLNode::<V>::opt_as_map(n.right).dom().contains(key) {
                            assert(key_lt(n.key, key));
                        }
                    }
                    get_opt(&n.left, key)
                },
                core::cmp::Ordering::Greater => {
                    proof {
                        if AVLNode::<V>::opt_as_map(n.left).dom().contains(key) {
                            assert(key_lt(key, n.key));
                        }
                    }
                    get_opt(&n.right, key)
                },
            }
        },
    }
}

impl<V> AVLNode<V> {
    /// The tree with the value under `key` replaced by `v` (and nothing else
    /// changed); the tree itself when the key is absent.
    pub open spec fn value_put(o: OptNode<V>, key: NodeKey, v: V) -> OptNode<V>
        decreases o,
    {
        match o {
            None => None,
            Some(n) => if key == n.key {
                Some(Box::new(AVLNode { value: v, ..*n }))
            } else if key_lt(key, n.key) {
                Some(Box::new(AVLNode { left: Self::value_put(n.left, key, v), ..*n }))
            } else {
                Some(Box::new(AVLNode { right: Self::value_put(n.right, key, v), ..*n }))
            },
        }
    }
}

/// Replacing one value neither moves keys nor changes any height, so the
/// result of `value_put` is still well formed and holds the updated map.
pub broadcast proof fn lemma_value_put<V>(o: OptNode<V>, key: NodeKey, v: V)
    requires
        AVLNode::<V>::opt_wf(o),
    ensures
        AVLNode::<V>::opt_wf(#[trigger] AVLNode::<V>::value_put(o, key, v)),
        AVLNode::<V>::opt_height(AVLNode::<V>::value_put(o, key, v))
            == AVLNode::<V>::opt_height(o),
        AVLNode::<V>::opt_as_map(o).dom().contains(key)
            ==> AVLNode::<V>::opt_as_map(AVLNode::<V>::value_put(o, key, v))
                == AVLNode::<V>::opt_as_map(o).insert(key, v),
        !AVLNode::<V>::opt_as_map(o).dom().contains(key)
            ==> AVLNode::<V>::value_put(o, key, v) == o,
        AVLNode::<V>::opt_seq(AVLNode::<V>::value_put(o, key, v)).len()
            == AVLNode::<V>::opt_seq(o).len(),
    decreases o,
{
    let p = AVLNode::<V>::value_put(o, key, v);
    match o {
        None => {},
        Some(n) => {
            let b = p.unwrap();
            assert(n.as_map() == AVLNode::<V>::opt_as_map(n.left).union_prefer_right(
                AVLNode::<V>::opt_as_map(n.right)).insert(n.key, n.value));
            assert(b.as_map() == AVLNode::<V>::opt_as_map(b.left).union_prefer_right(
                AVLNode::<V>::opt_as_map(b.right)).insert(b.key, b.value));
            assert(n.in_seq() == AVLNode::<V>::opt_seq(n.left)
                + seq![(n.key, n.value)] + AVLNode::<V>::opt_seq(n.right));
            assert(b.in_seq() == AVLNode::<V>::opt_seq(b.left)
                + seq![(b.key, b.value)] + AVLNode::<V>::opt_seq(b.right));
            assert(!AVLNode::<V>::opt_as_map(n.left).dom().contains(n.key));
            assert(!AVLNode::<V>::opt_as_map(n.right).dom().contains(n.key));
            if key == n.key {
                assert(b.as_map() =~= n.as_map().insert(key, v));
                assert(b.sheight() == n.sheight());
                assert(AVLNode::<V>::bst_ordered(p));
                assert(AVLNode::<V>::heights_ok(p));
                assert(AVLNode::<V>::balanced(p));
            } else if key_lt(key, n.key) {
                lemma_value_put(n.left, key, v);
                if AVLNode::<V>::opt_as_map(n.right).dom().contains(key) {
                    assert(key_lt(n.key, key));
                }
                if AVLNode::<V>::opt_as_map(n.left).dom().contains(key) {
                    assert forall|k| #[trigger] AVLNode::<V>::opt_as_map(b.left)
                        .dom().contains(k) implies key_lt(k, b.key) by {
                        assert(AVLNode::<V>::opt_as_map(n.left).dom().contains(k));
                    }
                    assert(b.as_map() =~= n.as_map().insert(key, v));
                } else {
                    assert(b.as_map() =~= n.as_map());
                }
                assert(b.sheight() == n.sheight());
                assert(AVLNode::<V>::bst_ordered(p));
                assert(AVLNode::<V>::heights_ok(p));
                assert(AVLNode::<V>::balanced(p));
            } else {
                lemma_value_put(n.right, key, v);
                if AVLNode::<V>::opt_as_map(n.left).dom().contains(key) {
                    assert(key_lt(key, n.key));
                }
                if AVLNode::<V>::opt_as_map(n.right).dom().contains(key) {
                    assert forall|k| #[trigger] AVLNode::<V>::opt_as_map(b.right)
                        .dom().contains(k) implies key_lt(b.key, k) by {
                        assert(AVLNode::<V>::opt_as_map(n.right).dom().contains(k));
                    }
                    assert(b.as_map() =~= n.as_map().insert(key, v));
                } else {
                    assert(b.as_map() =~= n.as_map());
                }
                assert(b.sheight() == n.sheight());
                assert(AVLNode::<V>::bst_ordered(p));
                assert(AVLNode::<V>::heights_ok(p));
                assert(AVLNode::<V>::balanced(p));
            }
        },
    }
}

/// Looks a key up and borrows its value mutably; the final tree is the old
/// one with only that value replaced by whatever the caller wrote.
pub fn get_mut_opt<'a, V>(o: &'a mut OptNode<V>, key: NodeKey) -> (r: Option<&'a mut V>)
    requires
        AVLNode::<V>::bst_ordered(*old(o)),
    ensures
        match r {
            Some(v) => {
                &&& AVLNode::<V>::opt_as_map(*old(o)).dom().contains(key)
                &&& *v == AVLNode::<V>::opt_as_map(*old(o))[key]
                &&& *final(o) == AVLNode::<V>::value_put(*old(o), key, *final(v))
            },
            None => {
                &&& !AVLNode::<V>::opt_as_map(*old(o)).dom().contains(key)
                &&& *final(o) == *old(o)
            },
        },
    decreases *old(o),
{
    match o {
        None => None,
        Some(n) => {
            proof {
                assert(n.as_map() == AVLNode::<V>::opt_as_map(n.left).union_prefer_right(
                    AVLNode::<V>::opt_as_map(n.right)).insert(n.key, n.value));
                assert(!AVLNode::<V>::opt_as_map(n.left).dom().contains(n.key));
                assert(!AVLNode::<V>::opt_as_map(n.right).dom().contains(n.key));
            }
            match key_cmp(&key, &n.key) {
                core::cmp::Ordering::Equal => Some(&mut n.value),
                core::cmp::Ordering::Less => {
                    proof {
                        if AVLNode::<V>::opt_as_map(n.right).dom().contains(key) {
                            assert(key_lt(n.key, key));
                        }
                    }
                    get_mut_opt(&mut n.left, key)
                },
                core::cmp::Ordering::Greater => {
                    proof {
                        if AVLNode::<V>::opt_as_map(n.left).dom().contains(key) {
                            assert(key_lt(key, n.key));
                        }
                    }
                    get_mut_opt(&mut n.right, key)
                },
            }
        },
    }
}

/// The smallest pair of the subtree, if any.
pub fn first_node<V>(o: &OptNode<V>) -> (r: Option<(NodeKey, &V)>)
    requires
        AVLNode::<V>::bst_ordered(*o),
    ensures
        match r {
            None => AVLNode::<V>::opt_as_map(*o).dom() =~= Set::empty(),
            Some(p) => {
                &&& AVLNode::<V>::opt_as_map(*o).dom().contains(p.0)
                &&& *p.1 == AVLNode::<V>::opt_as_map(*o)[p.0]
                &&& forall|k| #[trigger] AVLNode::<V>::opt_as_map(*o).dom().contains(k)
                    ==> k == p.0 || key_lt(p.0, k)
            },
        },
    decreases *o,
{
    match o {
        None => {
            proof {
                assert(AVLNode::<V>::opt_as_map(*o) =~= Map::empty());
            }
            None
        },
        Some(n) => {
            proof {
                assert(AVLNode::<V>::opt_as_map(*o) == n.as_map());
                assert(n.as_map() == AVLNode::<V>::opt_as_map(n.left).union_prefer_right(
                    AVLNode::<V>::opt_as_map(n.right)).insert(n.key, n.value));
                assert(!AVLNode::<V>::opt_as_map(n.left).dom().contains(n.key));
                assert(!AVLNode::<V>::opt_as_map(n.right).dom().contains(n.key));
            }
            match first_node(&n.left) {
                Some(p) => {
                    proof {
                        assert(AVLNode::<V>::opt_as_map(n.left).dom().contains(p.0));
                        assert(key_lt(p.0, n.key));
                        if AVLNode::<V>::opt_as_map(n.right).dom().contains(p.0) {
                            assert(key_lt(n.key, p.0));
                        }
                        assert(n.as_map()[p.0] == AVLNode::<V>::opt_as_map(n.left)[p.0]);
                        assert forall|k| #[trigger] n.as_map().dom().contains(k)
                            implies k == p.0 || key_lt(p.0, k) by {
                            if AVLNode::<V>::opt_as_map(n.left).dom().contains(k) {
                            } else if AVLNode::<V>::opt_as_map(n.right).dom().contains(k) {
                                assert(key_lt(n.key, k));
                            } else {
                                assert(k == n.key);
                            }
                        }
                    }
                    Some(p)
                },
                None => {
                    proof {
                        assert forall|k| #[trigger] n.as_map().dom().contains(k)
                            implies k == n.key || key_lt(n.key, k) by {
                            assert(!AVLNode::<V>::opt_as_map(n.left).dom().contains(k));
                        }
                        assert(n.as_map()[n.key] == n.value);
                    }
                    Some((n.key, &n.value))
                },
            }
        },
    }
}

/// The largest pair of the subtree, if any.
pub fn last_node<V>(o: &OptNode<V>) -> (r: Option<(NodeKey, &V)>)
    requires
        AVLNode::<V>::bst_ordered(*o),
    ensures
        match r {
            None => AVLNode::<V>::opt_as_map(*o).dom() =~= Set::empty(),
            Some(p) => {
                &&& AVLNode::<V>::opt_as_map(*o).dom().contains(p.0)
                &&& *p.1 == AVLNode::<V>::opt_as_map(*o)[p.0]
                &&& forall|k| #[trigger] AVLNode::<V>::opt_as_map(*o).dom().contains(k)
                    ==> k == p.0 || key_lt(k, p.0)
            },
        },
    decreases *o,
{
    match o {
        None => {
            proof {
                assert(AVLNode::<V>::opt_as_map(*o) =~= Map::empty());
            }
            None
        },
        Some(n) => {
            proof {
                assert(AVLNode::<V>::opt_as_map(*o) == n.as_map());
                assert(n.as_map() == AVLNode::<V>::opt_as_map(n.left).union_prefer_right(
                    AVLNode::<V>::opt_as_map(n.right)).insert(n.key, n.value));
                assert(!AVLNode::<V>::opt_as_map(n.left).dom().contains(n.key));
                assert(!AVLNode::<V>::opt_as_map(n.right).dom().contains(n.key));
            }
            match last_node(&n.right) {
                Some(p) => {
                    proof {
                        assert(AVLNode::<V>::opt_as_map(n.right).dom().contains(p.0));
                        assert(key_lt(n.key, p.0));
                        if AVLNode::<V>::opt_as_map(n.left).dom().contains(p.0) {
                            assert(key_lt(p.0, n.key));
                        }
                        assert(n.as_map()[p.0] == AVLNode::<V>::opt_as_map(n.right)[p.0]);
                        assert forall|k| #[trigger] n.as_map().dom().contains(k)
                            implies k == p.0 || key_lt(k, p.0) by {
                            if AVLNode::<V>::opt_as_map(n.right).dom().contains(k) {
                            } else if AVLNode::<V>::opt_as_map(n.left).dom().contains(k) {
                                assert(key_lt(k, n.key));
                            } else {
                                assert(k == n.key);
                            }
                        }
                    }
                    Some(p)
                },
                None => {
                    proof {
                        assert forall|k| #[trigger] n.as_map().dom().contains(k)
                            implies k == n.key || key_lt(k, n.key) by {
                            assert(!AVLNode::<V>::opt_as_map(n.right).dom().contains(k));
                        }
                        assert(n.as_map()[n.key] == n.value);
                    }
                    Some((n.key, &n.value))
                },
            }
        },
    }
}

/// The in-order successor of `key` (present or not) within the subtree.
pub fn succ_node<'a, V>(o: &'a OptNode<V>, key: NodeKey) -> (r: Option<(NodeKey, &'a V)>)
    requires
        AVLNode::<V>::bst_ordered(*o),
    ensures
        AVLNode::<V>::is_succ(
            AVLNode::<V>::opt_as_map(*o),
            key,
            match r { None => None, Some(p) => Some((p.0, *p.1)) },
        ),
    decreases *o,
{
    match o {
        None => {
            proof {
                assert(AVLNode::<V>::opt_as_map(*o) =~= Map::empty());
            }
            None
        },
        Some(n) => {
            proof {
                assert(AVLNode::<V>::opt_as_map(*o) == n.as_map());
                assert(n.as_map() == AVLNode::<V>::opt_as_map(n.left).union_prefer_right(
                    AVLNode::<V>::opt_as_map(n.right)).insert(n.key, n.value));
                assert(!AVLNode::<V>::opt_as_map(n.left).dom().contains(n.key));
                assert(!AVLNode::<V>::opt_as_map(n.right).dom().contains(n.key));
            }
            let c = key_cmp(&key, &n.key);
            if matches!(c, core::cmp::Ordering::Less) {
                match succ_node(&n.left, key) {
                    Some(p) => {
                        proof {
                            assert(AVLNode::<V>::opt_as_map(n.left).dom().contains(p.0));
                            assert(key_lt(p.0, n.key));
                            if AVLNode::<V>::opt_as_map(n.right).dom().contains(p.0) {
                                assert(key_lt(n.key, p.0));
                            }
                            assert(n.as_map()[p.0]
                                == AVLNode::<V>::opt_as_map(n.left)[p.0]);
                            assert forall|k| #[trigger] n.as_map().dom().contains(k)
                                && key_lt(key, k)
                                implies k == p.0 || key_lt(p.0, k) by {
                                if AVLNode::<V>::opt_as_map(n.left).dom().contains(k) {
                                } else if AVLNode::<V>::opt_as_map(n.right).dom()
                                    .contains(k) {
                                    assert(key_lt(p.0, n.key));
                                } else {
                                    assert(k == n.key);
                                    assert(key_lt(p.0, n.key));
                                }
                            }
                        }
                        Some(p)
                    },
                    None => {
                        proof {
                            assert forall|k| #[trigger] n.as_map().dom().contains(k)
                                && key_lt(key, k)
                                implies k == n.key || key_lt(n.key, k) by {
                                if AVLNode::<V>::opt_as_map(n.left).dom().contains(k) {
                                    assert(!key_lt(key, k));
                                }
                            }
                            assert(n.as_map()[n.key] == n.value);
                        }
                        Some((n.key, &n.value))
                    },
                }
            } else {
                proof {
                    if AVLNode::<V>::opt_as_map(n.left).dom().contains(key) {
                        assert(key_lt(key, n.key));
                    }
                }
                let r = succ_node(&n.right, key);
                proof {
                    match r {
                        Some(p) => {
                            assert(AVLNode::<V>::opt_as_map(n.right).dom().contains(p.0));
                            assert(key_lt(n.key, p.0));
                            if AVLNode::<V>::opt_as_map(n.left).dom().contains(p.0) {
                                assert(key_lt(p.0, n.key));
                            }
                            assert(n.as_map()[p.0]
                                == AVLNode::<V>::opt_as_map(n.right)[p.0]);
                            assert forall|k| #[trigger] n.as_map().dom().contains(k)
                                && key_lt(key, k)
                                implies k == p.0 || key_lt(p.0, k) by {
                                if AVLNode::<V>::opt_as_map(n.right).dom().contains(k) {
                                } else if AVLNode::<V>::opt_as_map(n.left).dom()
                                    .contains(k) {
                                    assert(key_lt(k, n.key));
                                    assert(!key_lt(key, k));
                                } else {
                                    assert(k == n.key);
                                    assert(!key_lt(key, k));
                                }
                            }
                        },
                        None => {
                            assert forall|k| #[trigger] n.as_map().dom().contains(k)
                                implies !key_lt(key, k) by {
                                if AVLNode::<V>::opt_as_map(n.left).dom().contains(k) {
                                    assert(key_lt(k, n.key));
                                }
                            }
                        },
                    }
                }
                r
            }
        },
    }
}

/// The in-order predecessor of `key` (present or not) within the subtree.
pub fn pred_node<'a, V>(o: &'a OptNode<V>, key: NodeKey) -> (r: Option<(NodeKey, &'a V)>)
    requires
        AVLNode::<V>::bst_ordered(*o),
    ensures
        AVLNode::<V>::is_pred(
            AVLNode::<V>::opt_as_map(*o),
            key,
            match r { None => None, Some(p) => Some((p.0, *p.1)) },
        ),
    decreases *o,
{
    match o {
        None => {
            proof {
                assert(AVLNode::<V>::opt_as_map(*o) =~= Map::empty());
            }
            None
        },
        Some(n) => {
            proof {
                assert(AVLNode::<V>::opt_as_map(*o) == n.as_map());
                assert(n.as_map() == AVLNode::<V>::opt_as_map(n.left).union_prefer_right(
                    AVLNode::<V>::opt_as_map(n.right)).insert(n.key, n.value));
                assert(!AVLNode::<V>::opt_as_map(n.left).dom().contains(n.key));
                assert(!AVLNode::<V>::opt_as_map(n.right).dom().contains(n.key));
            }
            let c = key_cmp(&key, &n.key);
            if matches!(c, core::cmp::Ordering::Greater) {
                match pred_node(&n.right, key) {
                    Some(p) => {
                        proof {
                            assert(AVLNode::<V>::opt_as_map(n.right).dom().contains(p.0));
                            assert(key_lt(n.key, p.0));
                            if AVLNode::<V>::opt_as_map(n.left).dom().contains(p.0) {
                                assert(key_lt(p.0, n.key));
                            }
                            assert(n.as_map()[p.0]
                                == AVLNode::<V>::opt_as_map(n.right)[p.0]);
                            assert forall|k| #[trigger] n.as_map().dom().contains(k)
                                && key_lt(k, key)
                                implies k == p.0 || key_lt(k, p.0) by {
                                if AVLNode::<V>::opt_as_map(n.right).dom().contains(k) {
                                } else if AVLNode::<V>::opt_as_map(n.left).dom()
                                    .contains(k) {
                                    assert(key_lt(n.key, p.0));
                                } else {
                                    assert(k == n.key);
                                    assert(key_lt(n.key, p.0));
                                }
                            }
                        }
                        Some(p)
                    },
                    None => {
                        proof {
                            assert forall|k| #[trigger] n.as_map().dom().contains(k)
                                && key_lt(k, key)
                                implies k == n.key || key_lt(k, n.key) by {
                                if AVLNode::<V>::opt_as_map(n.right).dom().contains(k) {
                                    assert(!key_lt(k, key));
                                }
                            }
                            assert(n.as_map()[n.key] == n.value);
                        }
                        Some((n.key, &n.value))
                    },
                }
            } else {
                proof {
                    if AVLNode::<V>::opt_as_map(n.right).dom().contains(key) {
                        assert(key_lt(n.key, key));
                    }
                }
                let r = pred_node(&n.left, key);
                proof {
                    match r {
                        Some(p) => {
                            assert(AVLNode::<V>::opt_as_map(n.left).dom().contains(p.0));
                            assert(key_lt(p.0, n.key));
                            if AVLNode::<V>::opt_as_map(n.right).dom().contains(p.0) {
                                assert(key_lt(n.key, p.0));
                            }
                            assert(n.as_map()[p.0]
                                == AVLNode::<V>::opt_as_map(n.left)[p.0]);
                            assert forall|k| #[trigger] n.as_map().dom().contains(k)
                                && key_lt(k, key)
                                implies k == p.0 || key_lt(k, p.0) by {
                                if AVLNode::<V>::opt_as_map(n.left).dom().contains(k) {
                                } else if AVLNode::<V>::opt_as_map(n.right).dom()
                                    .contains(k) {
                                    assert(key_lt(n.key, k));
                                    assert(!key_lt(k, key));
                                } else {
                                    assert(k == n.key);
                                    assert(!key_lt(k, key));
                                }
                            }
                        },
                        None => {
                            assert forall|k| #[trigger] n.as_map().dom().contains(k)
                                implies !key_lt(k, key) by {
                                if AVLNode::<V>::opt_as_map(n.right).dom().contains(k) {
                                    assert(key_lt(n.key, k));
                                }
                            }
                        },
                    }
                }
                r
            }
        },
    }
}

/// Re-checks the height formula and the balance bound at every node, as a
/// consistency test would. On any tree the library itself builds this
/// returns true, because the same facts are part of the tree's invariant.
pub fn check_valid_node<V>(o: &OptNode<V>) -> (r: bool)
    ensures
        r == (AVLNode::<V>::heights_ok(*o) && AVLNode::<V>::balanced(*o)),
    decreases *o,
{
    match o {
        None => true,
        Some(n) => {
            if !check_valid_node(&n.left) {
                return false;
            }
            if !check_valid_node(&n.right) {
                return false;
            }
            let lh = height_of(&n.left);
            let rh = height_of(&n.right);
            let max = if lh > rh { lh } else { rh };
            if n.height == 0 {
                return false;
            }
            if n.height - 1 != max {
                return false;
            }
            let diff_ok = if lh > rh { lh - rh <= 1 } else { rh - lh <= 1 };
            diff_ok
        },
    }
}

/// Counts the nodes of a subtree.
pub fn get_node_num<V>(o: &OptNode<V>) -> (r: usize)
    requires
        AVLNode::<V>::opt_seq(*o).len() <= usize::MAX,
    ensures
        r == AVLNode::<V>::opt_seq(*o).len(),
    decreases *o,
{
    match o {
        None => 0,
        Some(n) => {
            proof {
                assert(n.in_seq() == AVLNode::<V>::opt_seq(n.left)
                    + seq![(n.key, n.value)] + AVLNode::<V>::opt_seq(n.right));
            }
            let a = get_node_num(&n.left);
            let b = get_node_num(&n.right);
            a + b + 1
        },
    }
}

/// Structural equality of two trees by shape and stored height, ignoring
/// keys and values.
pub open spec fn iso<V, W>(a: OptNode<V>, b: OptNode<W>) -> bool
    decreases a,
{
    match (a, b) {
        (None, None) => true,
        (Some(x), Some(y)) => x.height == y.height
            && iso(x.left, y.left) && iso(x.right, y.right),
        _ => false,
    }
}

/// Compares two trees by shape and height only, a consistency-testing
/// aid.
pub fn isomorphic_node<V, W>(a: &OptNode<V>, b: &OptNode<W>) -> (r: bool)
    ensures
        r == iso(*a, *b),
    decreases *a,
{
    match (a, b) {
        (None, None) => true,
        (Some(x), Some(y)) => {
            if x.height != y.height {
                return false;
            }
            if !isomorphic_node(&x.left, &y.left) {
                return false;
            }
            isomorphic_node(&x.right, &y.right)
        },
        _ => false,
    }
}

/// A pair with this exact key and value occurs in the sequence.
pub open spec fn has_pair<V>(s: Seq<(NodeKey, V)>, k: NodeKey, v: V) -> bool {
    exists|i: int| 0 <= i < s.len() && (#[trigger] s[i]).0 == k && s[i].1 == v
}

/// Some pair with this key occurs in the sequence.
pub open spec fn has_key<V>(s: Seq<(NodeKey, V)>, k: NodeKey) -> bool {
    exists|i: int| 0 <= i < s.len() && (#[trigger] s[i]).0 == k
}

/// Destructively flattens a tree into the vector, appending its pairs in
/// symmetric (sorted) order; the tree is consumed node by node.
pub(crate) fn convert_to_list<V>(o: OptNode<V>, out: &mut Vec<(NodeKey, V)>)
    ensures
        final(out)@ == old(out)@ + AVLNode::<V>::opt_seq(o),
    decreases o,
{
    match o {
        None => {
            proof {
                assert(out@ + AVLNode::<V>::opt_seq(o) =~= out@);
            }
        },
        Some(b) => {
            let ghost b0 = b;
            let bb = *b;
            let AVLNode { key, value, left, right, .. } = bb;
            convert_to_list(left, out);
            out.push((key, value));
            convert_to_list(right, out);
            proof {
                assert(b0.in_seq() == AVLNode::<V>::opt_seq(b0.left)
                    + seq![(b0.key, b0.value)] + AVLNode::<V>::opt_seq(b0.right));
                assert(out@ =~= old(out)@ + AVLNode::<V>::opt_seq(o));
            }
        },
    }
}

/// The height of the tree `build_from_sorted` makes out of `n` pairs.
pub open spec fn bh(n: nat) -> nat
    decreases n,
{
    if n == 0 {
        0
    } else {
        1 + vstd::math::max(bh(n / 2) as int, bh((n - 1 - n / 2) as nat) as int) as nat
    }
}

/// `bh` grows with the number of pairs.
pub proof fn lemma_bh_mono(a: nat, b: nat)
    requires
        a <= b,
    ensures
        bh(a) <= bh(b),
    decreases b,
{
    if a == 0 {
        if b > 0 {
            lemma_bh_mono(0, b / 2);
        }
    } else {
        lemma_bh_mono(a / 2, b / 2);
        lemma_bh_mono((a - 1 - a / 2) as nat, (b - 1 - b / 2) as nat);
    }
}

/// One more pair raises `bh` by at most one.
pub proof fn lemma_bh_succ(n: nat)
    ensures
        bh(n) <= bh(n + 1) <= bh(n) + 1,
    decreases n,
{
    lemma_bh_mono(n, n + 1);
    if n > 0 {
        if n % 2 == 0 {
            lemma_bh_mono((n - 1 - n / 2) as nat, n / 2);
            lemma_bh_mono((n + 1 - 1 - (n + 1) / 2) as nat, (n + 1) / 2);
        } else {
            lemma_bh_succ(((n - 1) / 2) as nat);
            lemma_bh_mono(((n - 1) / 2) as nat, ((n + 1) / 2) as nat);
        }
    }
}

/// `bh` never exceeds the number of pairs.
pub proof fn lemma_bh_le(n: nat)
    ensures
        bh(n) <= n,
    decreases n,
{
    if n > 0 {
        lemma_bh_le(n / 2);
        lemma_bh_le((n - 1 - n / 2) as nat);
    }
}

/// Builds a balanced tree out of the last `n` pairs of the vector, which
/// hold strictly descending keys; popped back to front they come out
/// ascending. The recursion consumes one pair per node, left subtree
/// first, in symmetric order.
#[verifier::rlimit(60)]
pub(crate) fn build_from_sorted<V>(v: &mut Vec<(NodeKey, V)>, n: usize) -> (r: OptNode<V>)
    requires
        n <= old(v).len(),
        forall|i: int, j: int|
            old(v)@.len() - n <= i < j < old(v)@.len()
                ==> key_lt((#[trigger] old(v)@[j]).0, (#[trigger] old(v)@[i]).0),
    ensures
        final(v)@ == old(v)@.take(old(v)@.len() - n),
        AVLNode::<V>::opt_wf(r),
        AVLNode::<V>::opt_seq(r)
            == old(v)@.subrange(old(v)@.len() - n, old(v)@.len() as int).reverse(),
        AVLNode::<V>::opt_height(r) == bh(n as nat),
    decreases n,
{
    let ghost v0 = v@;
    if n == 0 {
        proof {
            assert(v@ =~= old(v)@.take(old(v)@.len() - n));
            assert(AVLNode::<V>::opt_seq(None::<Box<AVLNode<V>>>)
                =~= old(v)@.subrange(old(v)@.len() - n, old(v)@.len() as int).reverse());
        }
        return None;
    }
    let half = n / 2;
    let left = build_from_sorted(v, half);
    let p = v.pop().unwrap();
    let (k, value) = p;
    let ghost mid = v0.len() - half - 1;
    let right = build_from_sorted(v, n - half - 1);
    let lh = height_of(&left);
    let rh = height_of(&right);
    proof {
        lemma_bh_le(half as nat);
        lemma_bh_le((n - half - 1) as nat);
    }
    let h = 1 + if lh > rh { lh } else { rh };
    let node = Box::new(AVLNode { key: k, value, height: h, left, right });
    proof {
        let ls = AVLNode::<V>::opt_seq(node.left);
        let rs = AVLNode::<V>::opt_seq(node.right);
        let whole = v0.subrange(v0.len() - n, v0.len() as int).reverse();
        assert(node.in_seq() == ls + seq![(k, value)] + rs);
        assert(ls == v0.subrange(v0.len() - half, v0.len() as int).reverse());
        assert(rs == v0.subrange(v0.len() - n, mid).reverse());
        assert((k, value) == v0[mid]);
        assert(node.in_seq() =~= whole);
        // order: left keys sit at indices above `mid`, right keys below.
        lemma_seq_map(node.left);
        lemma_seq_map(node.right);
        assert forall|q| #[trigger] AVLNode::<V>::opt_as_map(node.left).dom().contains(q)
            implies key_lt(q, k) by {
            let i = choose|i: int| 0 <= i < ls.len()
                && (#[trigger] ls[i]) == (q, AVLNode::<V>::opt_as_map(node.left)[q]);
            assert(ls[i] == v0[v0.len() - 1 - i]);
            assert(key_lt(v0[v0.len() - 1 - i].0, v0[mid].0));
        }
        assert forall|q| #[trigger] AVLNode::<V>::opt_as_map(node.right).dom().contains(q)
            implies key_lt(k, q) by {
            let i = choose|i: int| 0 <= i < rs.len()
                && (#[trigger] rs[i]) == (q, AVLNode::<V>::opt_as_map(node.right)[q]);
            assert(rs[i] == v0[mid - 1 - i]);
            assert(key_lt(v0[mid].0, v0[mid - 1 - i].0));
        }
        assert(AVLNode::<V>::bst_ordered(Some(node)));
        // heights and balance from the size split.
        assert(node.sheight() == 1 + vstd::math::max(
            AVLNode::<V>::opt_height(node.left) as int,
            AVLNode::<V>::opt_height(node.right) as int));
        assert(AVLNode::<V>::heights_ok(Some(node)));
        if n % 2 == 0 {
            lemma_bh_succ((n - half - 1) as nat);
        }
        lemma_bh_mono((n - half - 1) as nat, half as nat);
        assert(AVLNode::<V>::balanced(Some(node)));
        assert(bh(n as nat) == 1 + vstd::math::max(
            bh(half as nat) as int, bh((n - half - 1) as nat) as int));
        assert(v@ =~= old(v)@.take(old(v)@.len() - n));
    }
    Some(node)
}

/// Merges two vectors of strictly ascending keys into one vector of
/// strictly descending keys, consuming both from the back so the largest
/// key moves first. On equal keys the pair of `b` wins and the pair of `a`
/// is dropped, matching the replace semantics of insertion.
#[verifier::rlimit(60)]
pub(crate) fn merge_sorted<V>(a: Vec<(NodeKey, V)>, b: Vec<(NodeKey, V)>)
    -> (out: Vec<(NodeKey, V)>)
    requires
        forall|i: int, j: int| 0 <= i < j < a@.len()
            ==> key_lt((#[trigger] a@[i]).0, (#[trigger] a@[j]).0),
        forall|i: int, j: int| 0 <= i < j < b@.len()
            ==> key_lt((#[trigger] b@[i]).0, (#[trigger] b@[j]).0),
    ensures
        forall|i: int, j: int| 0 <= i < j < out@.len()
            ==> key_lt((#[trigger] out@[j]).0, (#[trigger] out@[i]).0),
        forall|k: NodeKey, v: V| #[trigger] has_pair(out@, k, v) <==> (
            has_pair(b@, k, v) || (has_pair(a@, k, v) && !has_key(b@, k))
        ),
        out@.len() <= a@.len() + b@.len(),
{
    let ghost av = a@;
    let ghost bv = b@;
    let mut a = a;
    let mut b = b;
    let mut out: Vec<(NodeKey, V)> = Vec::new();
    while a.len() > 0 || b.len() > 0
        invariant
            a@ == av.take(a@.len() as int),
            b@ == bv.take(b@.len() as int),
            a@.len() <= av.len(),
            b@.len() <= bv.len(),
            forall|i: int, j: int| 0 <= i < j < av.len()
                ==> key_lt((#[trigger] av[i]).0, (#[trigger] av[j]).0),
            forall|i: int, j: int| 0 <= i < j < bv.len()
                ==> key_lt((#[trigger] bv[i]).0, (#[trigger] bv[j]).0),
            // descending output
            forall|i: int, j: int| 0 <= i < j < out@.len()
                ==> key_lt((#[trigger] out@[j]).0, (#[trigger] out@[i]).0),
            // everything already moved is larger than everything remaining
            forall|i: int| 0 <= i < out@.len() ==> {
                &&& (a@.len() > 0 ==> key_lt(
                    a@[a@.len() - 1].0, (#[trigger] out@[i]).0))
                &&& (b@.len() > 0 ==> key_lt(
                    b@[b@.len() - 1].0, (#[trigger] out@[i]).0))
            },
            // every output pair is one of the inputs
            forall|i: int| 0 <= i < out@.len()
                ==> has_pair(av, (#[trigger] out@[i]).0, out@[i].1)
                    || has_pair(bv, out@[i].0, out@[i].1),
            // a pair of `b` beats a pair of `a` under the same key
            forall|i: int| 0 <= i < out@.len() && has_key(bv, (#[trigger] out@[i]).0)
                ==> has_pair(bv, out@[i].0, out@[i].1),
            // all consumed pairs of `b` made it to the output
            forall|j: int| b@.len() <= j < bv.len()
                ==> has_pair(out@, (#[trigger] bv[j]).0, bv[j].1),
            // consumed pairs of `a` made it unless their key is in `b`
            forall|j: int| a@.len() <= j < av.len() && !has_key(bv, (#[trigger] av[j]).0)
                ==> has_pair(out@, av[j].0, av[j].1),
            out@.len() + a@.len() + b@.len() <= av.len() + bv.len(),
        decreases a@.len() + b@.len(),
    {
        let ghost out0 = out@;
        let ghost an = a@.len() as int;
        let ghost bn = b@.len() as int;
        let take_a = if a.len() == 0 {
            false
        } else if b.len() == 0 {
            true
        } else {
            let pa = &a[a.len() - 1];
            let pb = &b[b.len() - 1];
            matches!(key_cmp(&pa.0, &pb.0), core::cmp::Ordering::Greater)
        };
        if take_a {
            // the largest remaining key is only in `a`
            let p = a.pop().unwrap();
            let ghost k = p.0;
            proof {
                assert(a@ =~= av.take(a@.len() as int));
                // the moved key is in no part of `b`
                assert forall|j: int| 0 <= j < bv.len() implies bv[j].0 != k by {
                    if j < bn {
                        assert(key_lt(bv[j].0, k));
                    } else {
                        assert(has_pair(out0, bv[j].0, bv[j].1));
                        let i = choose|i: int| 0 <= i < out0.len()
                            && (#[trigger] out0[i]).0 == bv[j].0 && out0[i].1 == bv[j].1;
                        assert(key_lt(k, out0[i].0));
                    }
                }
                assert(!has_key(bv, k));
            }
            out.push(p);
            proof {
                assert forall|j: int| a@.len() <= j < av.len()
                    && !has_key(bv, (#[trigger] av[j]).0)
                    implies has_pair(out@, av[j].0, av[j].1) by {
                    if an <= j {
                        assert(has_pair(out0, av[j].0, av[j].1));
                        let i = choose|i: int| 0 <= i < out0.len()
                            && (#[trigger] out0[i]).0 == av[j].0 && out0[i].1 == av[j].1;
                        assert(out@[i].0 == av[j].0 && out@[i].1 == av[j].1);
                    } else {
                        assert(out@[out@.len() - 1].0 == av[j].0
                            && out@[out@.len() - 1].1 == av[j].1);
                    }
                }
                assert forall|j: int| b@.len() <= j < bv.len()
                    implies has_pair(out@, (#[trigger] bv[j]).0, bv[j].1) by {
                    assert(has_pair(out0, bv[j].0, bv[j].1));
                    let i = choose|i: int| 0 <= i < out0.len()
                        && (#[trigger] out0[i]).0 == bv[j].0 && out0[i].1 == bv[j].1;
                    assert(out@[i].0 == bv[j].0 && out@[i].1 == bv[j].1);
                }
                assert(has_pair(av, k, out@[out@.len() - 1].1));
            }
        } else {
            let consume_a = if a.len() == 0 {
                false
            } else {
                let pa = &a[a.len() - 1];
                let pb = &b[b.len() - 1];
                matches!(key_cmp(&pa.0, &pb.0), core::cmp::Ordering::Equal)
            };
            if consume_a {
                // equal keys: the pair of `a` is dropped, `b`'s survives
                let _dropped = a.pop();
                proof {
                    assert(a@ =~= av.take(a@.len() as int));
                }
            }
            let p = b.pop().unwrap();
            let ghost k = p.0;
            proof {
                assert(b@ =~= bv.take(b@.len() as int));
            }
            out.push(p);
            proof {
                assert(out@[out@.len() - 1].0 == bv[bn - 1].0
                    && out@[out@.len() - 1].1 == bv[bn - 1].1);
                assert forall|j: int| b@.len() <= j < bv.len()
                    implies has_pair(out@, (#[trigger] bv[j]).0, bv[j].1) by {
                    if bn <= j {
                        assert(has_pair(out0, bv[j].0, bv[j].1));
                        let i = choose|i: int| 0 <= i < out0.len()
                            && (#[trigger] out0[i]).0 == bv[j].0 && out0[i].1 == bv[j].1;
                        assert(out@[i].0 == bv[j].0 && out@[i].1 == bv[j].1);
                    } else {
                        assert(out@[out@.len() - 1].0 == bv[j].0
                            && out@[out@.len() - 1].1 == bv[j].1);
                    }
                }
                assert forall|j: int| a@.len() <= j < av.len()
                    && !has_key(bv, (#[trigger] av[j]).0)
                    implies has_pair(out@, av[j].0, av[j].1) by {
                    if an <= j {
                        assert(has_pair(out0, av[j].0, av[j].1));
                        let i = choose|i: int| 0 <= i < out0.len()
                            && (#[trigger] out0[i]).0 == av[j].0 && out0[i].1 == av[j].1;
                        assert(out@[i].0 == av[j].0 && out@[i].1 == av[j].1);
                    } else {
                        // the pair dropped in the equal case has its key in b
                        assert(av[j].0 == bv[bn - 1].0);
                        assert(has_key(bv, av[j].0));
                    }
                }
                assert(has_pair(bv, k, out@[out@.len() - 1].1));
            }
        }
    }
    proof {
        assert forall|k: NodeKey, v: V| #[trigger] has_pair(out@, k, v) implies (
            has_pair(bv, k, v) || (has_pair(av, k, v) && !has_key(bv, k))
        ) by {
            let i = choose|i: int| 0 <= i < out@.len()
                && (#[trigger] out@[i]).0 == k && out@[i].1 == v;
            if has_key(bv, k) {
                assert(has_pair(bv, out@[i].0, out@[i].1));
            } else {
                if has_pair(bv, k, v) {
                    let j = choose|j: int| 0 <= j < bv.len() && bv[j] == (k, v);
                    assert(bv[j].0 == k);
                    assert(has_key(bv, k));
                }
                assert(has_pair(av, out@[i].0, out@[i].1)
                    || has_pair(bv, out@[i].0, out@[i].1));
            }
        }
        assert forall|k: NodeKey, v: V| (
            has_pair(bv, k, v) || (has_pair(av, k, v) && !has_key(bv, k))
        ) implies #[trigger] has_pair(out@, k, v) by {
            if has_pair(bv, k, v) {
                let j = choose|j: int| 0 <= j < bv.len()
                    && (#[trigger] bv[j]).0 == k && bv[j].1 == v;
            } else {
                let j = choose|j: int| 0 <= j < av.len()
                    && (#[trigger] av[j]).0 == k && av[j].1 == v;
            }
        }
    }
    out
}

/// Clones a subtree node for node: the shape, keys and heights are kept
/// exactly, and each value is whatever `V::clone` returns for the original.
pub(crate) fn clone_opt<V: Clone>(o: &OptNode<V>) -> (r: OptNode<V>)
    ensures
        iso(*o, r),
        AVLNode::<V>::opt_as_map(r).dom() =~= AVLNode::<V>::opt_as_map(*o).dom(),
        forall|k| #[trigger] AVLNode::<V>::opt_as_map(*o).dom().contains(k)
            ==> vstd::pervasive::cloned::<V>(
                AVLNode::<V>::opt_as_map(*o)[k], AVLNode::<V>::opt_as_map(r)[k]),
        AVLNode::<V>::opt_height(r) == AVLNode::<V>::opt_height(*o),
        AVLNode::<V>::opt_seq(r).len() == AVLNode::<V>::opt_seq(*o).len(),
        AVLNode::<V>::bst_ordered(*o) ==> AVLNode::<V>::bst_ordered(r),
        AVLNode::<V>::heights_ok(*o) ==> AVLNode::<V>::heights_ok(r),
        AVLNode::<V>::balanced(*o) ==> AVLNode::<V>::balanced(r),
    decreases *o,
{
    match o {
        None => None,
        Some(n) => {
            let left = clone_opt(&n.left);
            let right = clone_opt(&n.right);
            let c = Box::new(AVLNode {
                key: n.key,
                value: n.value.clone(),
                height: n.height,
                left,
                right,
            });
            proof {
                let m0 = AVLNode::<V>::opt_as_map(*o);
                assert(n.as_map() == AVLNode::<V>::opt_as_map(n.left).union_prefer_right(
                    AVLNode::<V>::opt_as_map(n.right)).insert(n.key, n.value));
                assert(c.as_map() == AVLNode::<V>::opt_as_map(c.left).union_prefer_right(
                    AVLNode::<V>::opt_as_map(c.right)).insert(c.key, c.value));
                assert(n.in_seq() == AVLNode::<V>::opt_seq(n.left)
                    + seq![(n.key, n.value)] + AVLNode::<V>::opt_seq(n.right));
                assert(c.in_seq() == AVLNode::<V>::opt_seq(c.left)
                    + seq![(c.key, c.value)] + AVLNode::<V>::opt_seq(c.right));
                assert(c.as_map().dom() =~= n.as_map().dom());
                assert forall|k| #[trigger] n.as_map().dom().contains(k)
                    implies vstd::pervasive::cloned::<V>(n.as_map()[k], c.as_map()[k]) by {
                    if k == n.key {
                    } else if AVLNode::<V>::opt_as_map(n.right).dom().contains(k) {
                    } else {
                        assert(AVLNode::<V>::opt_as_map(n.left).dom().contains(k));
                    }
                }
                if AVLNode::<V>::bst_ordered(*o) {
                    assert(AVLNode::<V>::bst_ordered(c.left));
                    assert(AVLNode::<V>::bst_ordered(c.right));
                    assert(AVLNode::<V>::bst_ordered(Some(c)));
                }
                assert(c.sheight() == n.sheight());
                if AVLNode::<V>::heights_ok(*o) {
                    assert(AVLNode::<V>::heights_ok(Some(c)));
                }
                if AVLNode::<V>::balanced(*o) {
                    assert(AVLNode::<V>::balanced(Some(c)));
                }
            }
            Some(c)
        },
    }
}

/// Appends each pair of the subtree to the vector, values by reference, in
/// symmetric order. Makes no assumption about the tree.
pub(crate) fn collect_refs<'a, V>(o: &'a OptNode<V>, out: &mut Vec<(NodeKey, &'a V)>)
    ensures
        final(out)@.len() == old(out)@.len() + AVLNode::<V>::opt_seq(*o).len(),
        forall|i: int| 0 <= i < AVLNode::<V>::opt_seq(*o).len()
            ==> final(out)@[old(out)@.len() + i].0
                    == (#[trigger] AVLNode::<V>::opt_seq(*o)[i]).0
                && *final(out)@[old(out)@.len() + i].1
                    == AVLNode::<V>::opt_seq(*o)[i].1,
        forall|i: int| 0 <= i < old(out)@.len()
            ==> #[trigger] final(out)@[i] == old(out)@[i],
    decreases *o,
{
    match o {
        None => {},
        Some(n) => {
            proof {
                assert(n.in_seq() == AVLNode::<V>::opt_seq(n.left)
                    + seq![(n.key, n.value)] + AVLNode::<V>::opt_seq(n.right));
            }
            collect_refs(&n.left, out);
            out.push((n.key, &n.value));
            collect_refs(&n.right, out);
        },
    }
}

/// Follows the comparison path for a key, with no assumption about the
/// tree; on a well-formed tree this is the ordinary search.
pub(crate) fn find_unchecked<'a, V>(o: &'a OptNode<V>, key: NodeKey) -> (r: Option<&'a V>)
    decreases *o,
{
    match o {
        None => None,
        Some(n) => {
            match key_cmp(&key, &n.key) {
                core::cmp::Ordering::Equal => Some(&n.value),
                core::cmp::Ordering::Less => find_unchecked(&n.left, key),
                core::cmp::Ordering::Greater => find_unchecked(&n.right, key),
            }
        },
    }
}

/// Sum of the sizes of a row of subtrees.
pub open spec fn sum_lens<V>(bs: Seq<OptNode<V>>) -> nat
    decreases bs.len(),
{
    if bs.len() == 0 {
        0
    } else {
        sum_lens(bs.drop_last()) + AVLNode::<V>::opt_seq(bs.last()).len()
    }
}

/// One subtree's size never exceeds the row's sum.
pub proof fn lemma_sum_bound<V>(bs: Seq<OptNode<V>>, i: int)
    requires
        0 <= i < bs.len(),
    ensures
        AVLNode::<V>::opt_seq(bs[i]).len() <= sum_lens(bs),
    decreases bs.len(),
{
    if i == bs.len() - 1 {
    } else {
        lemma_sum_bound(bs.drop_last(), i);
        assert(bs.drop_last()[i] == bs[i]);
    }
}

/// Replacing one subtree changes the sum by that subtree's size change.
pub proof fn lemma_sum_update<V>(bs: Seq<OptNode<V>>, i: int, o: OptNode<V>)
    requires
        0 <= i < bs.len(),
    ensures
        sum_lens(bs.update(i, o)) ==
            sum_lens(bs) - AVLNode::<V>::opt_seq(bs[i]).len()
            + AVLNode::<V>::opt_seq(o).len(),
    decreases bs.len(),
{
    if i == bs.len() - 1 {
        assert(bs.update(i, o).drop_last() =~= bs.drop_last());
        assert(bs.update(i, o).last() == o);
    } else {
        lemma_sum_update(bs.drop_last(), i, o);
        assert(bs.update(i, o).drop_last() =~= bs.drop_last().update(i, o));
        assert(bs.update(i, o).last() == bs.last());
        assert(bs.drop_last()[i] == bs[i]);
    }
}

/// The size of the largest subtree in a row.
pub open spec fn max_bucket_len<V>(bs: Seq<OptNode<V>>) -> nat
    decreases bs.len(),
{
    if bs.len() == 0 {
        0
    } else {
        vstd::math::max(
            max_bucket_len(bs.drop_last()) as int,
            AVLNode::<V>::opt_seq(bs.last()).len() as int,
        ) as nat
    }
}

/// A row of empty subtrees holds nothing.
pub proof fn lemma_sum_zero<V>(bs: Seq<OptNode<V>>)
    requires
        forall|j: int| 0 <= j < bs.len() ==> (#[trigger] bs[j]) is None,
    ensures
        sum_lens(bs) == 0,
    decreases bs.len(),
{
    if bs.len() > 0 {
        lemma_sum_zero(bs.drop_last());
    }
}

/// Two rows whose subtrees hold the same numbers of nodes hold the same
/// total.
pub broadcast proof fn lemma_sum_lens_congruent<V>(a: Seq<OptNode<V>>, b: Seq<OptNode<V>>)
    ensures
        (a.len() == b.len() && (forall|j: int| 0 <= j < a.len()
            ==> AVLNode::<V>::opt_seq(#[trigger] a[j]).len()
                == AVLNode::<V>::opt_seq(#[trigger] b[j]).len()))
            ==> #[trigger] sum_lens(a) == #[trigger] sum_lens(b),
    decreases a.len(),
{
    if a.len() == b.len() && (forall|j: int| 0 <= j < a.len()
        ==> AVLNode::<V>::opt_seq(#[trigger] a[j]).len()
            == AVLNode::<V>::opt_seq(#[trigger] b[j]).len()) {
        if a.len() > 0 {
            lemma_sum_lens_congruent(a.drop_last(), b.drop_last());
            assert forall|j: int| 0 <= j < a.drop_last().len()
                implies AVLNode::<V>::opt_seq(#[trigger] a.drop_last()[j]).len()
                    == AVLNode::<V>::opt_seq(#[trigger] b.drop_last()[j]).len() by {
                assert(a.drop_last()[j] == a[j] && b.drop_last()[j] == b[j]);
            }
            assert(a.last() == a[a.len() - 1] && b.last() == b[b.len() - 1]);
        }
    }
}

} // verus!
