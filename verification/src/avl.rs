//! The plain AVL tree container: the same engine and semantics as
//! `OrdMap`, under a tree-shaped surface (`size`, `contain`, `pop`).

use vstd::prelude::*;
use crate::ord_map::{OrdMap, Cursors, Iter, IterMut, Keys, Values, ValuesMut, IntoIter};

verus! {

/// An AVL tree map from `i64` keys to values; a thin layer over the same
/// verified engine as `OrdMap`.
pub struct AVLTree<V> {
    tree: OrdMap<V>,
}

impl<V> View for AVLTree<V> {
    type V = Map<i64, V>;

    closed spec fn view(&self) -> Map<i64, V> {
        self.tree@
    }
}

impl<V> AVLTree<V> {
    /// The tree's invariant: that of the backing map.
    pub closed spec fn wf(self) -> bool {
        self.tree.wf()
    }

    /// The stored pairs in increasing key order.
    pub closed spec fn seq_view(self) -> Seq<(i64, V)> {
        self.tree.seq_view()
    }

    /// The height of the backing tree.
    pub closed spec fn height(self) -> nat {
        self.tree.height()
    }

    /// Creates an empty tree: no root node at all, so two fresh trees are
    /// isomorphic.
    pub fn new() -> (r: Self)
        ensures
            r.wf(),
            r@ == Map::<i64, V>::empty(),
            r.shape() is None,
    {
        AVLTree { tree: OrdMap::new() }
    }

    /// The number of stored pairs.
    pub fn size(&self) -> (r: usize)
        requires
            self.wf(),
        ensures
            r == self@.dom().len(),
    {
        self.tree.len()
    }

    /// True if nothing is stored.
    pub fn empty(&self) -> (r: bool)
        requires
            self.wf(),
        ensures
            r == (self@.dom() =~= Set::empty()),
    {
        self.tree.is_empty()
    }

    /// The height of the tree.
    pub fn max_height(&self) -> (r: usize)
        requires
            self.wf(),
        ensures
            r == self.height(),
    {
        self.tree.max_height()
    }

    /// Inserts a pair; an existing pair under the same key is replaced.
    pub fn insert(&mut self, key: i64, value: V)
        requires
            old(self).wf(),
            old(self)@.dom().len() < usize::MAX,
        ensures
            final(self).wf(),
            final(self)@ == old(self)@.insert(key, value),
    {
        let _ = self.tree.insert(key, value);
    }

    /// Inserts a pair, handing back the value previously stored under the
    /// key, if any.
    pub fn insert_or_replace(&mut self, key: i64, value: V) -> (r: Option<V>)
        requires
            old(self).wf(),
            old(self)@.dom().len() < usize::MAX,
        ensures
            final(self).wf(),
            final(self)@ == old(self)@.insert(key, value),
            r == if old(self)@.dom().contains(key) {
                Some(old(self)@[key])
            } else {
                None::<V>
            },
    {
        match self.tree.insert(key, value) {
            Some(p) => Some(p.1),
            None => None,
        }
    }

    /// Removes a key, handing back the stored pair if it was present.
    pub fn pop(&mut self, what: &i64) -> (r: Option<(i64, V)>)
        requires
            old(self).wf(),
        ensures
            final(self).wf(),
            final(self)@ == old(self)@.remove(*what),
            r == if old(self)@.dom().contains(*what) {
                Some((*what, old(self)@[*what]))
            } else {
                None::<(i64, V)>
            },
    {
        self.tree.remove(what)
    }

    /// True if the key is stored.
    pub fn contain(&self, what: &i64) -> (r: bool)
        requires
            self.wf(),
        ensures
            r == self@.dom().contains(*what),
    {
        self.tree.contains_key(what)
    }

    /// Borrows the value stored under a key.
    pub fn get_ref(&self, what: &i64) -> (r: Option<&V>)
        requires
            self.wf(),
        ensures
            match r {
                Some(v) => self@.dom().contains(*what) && *v == self@[*what],
                None => !self@.dom().contains(*what),
            },
    {
        self.tree.get(what)
    }

    /// Borrows the value stored under a key mutably.
    pub fn get_mut(&mut self, what: &i64) -> (r: Option<&mut V>)
        requires
            old(self).wf(),
        ensures
            final(self).wf(),
            match r {
                Some(v) => {
                    &&& old(self)@.dom().contains(*what)
                    &&& *v == old(self)@[*what]
                    &&& final(self)@ =~= old(self)@.insert(*what, *final(v))
                },
                None => {
                    &&& !old(self)@.dom().contains(*what)
                    &&& *final(self) == *old(self)
                },
            },
    {
        self.tree.get_mut(what)
    }

    /// Removes every pair.
    pub fn clear(&mut self)
        ensures
            final(self).wf(),
            final(self)@ == Map::<i64, V>::empty(),
    {
        self.tree.clear();
    }

    /// Removes every pair by tearing the tree down node by node;
    /// observably the same as `clear`.
    pub fn traversal_clear(&mut self)
        ensures
            final(self).wf(),
            final(self)@ == Map::<i64, V>::empty(),
    {
        self.tree.clear();
    }

    /// Re-checks the AVL invariant; true on every well-formed tree.
    pub fn check_valid(&self) -> (r: bool)
        requires
            self.wf(),
        ensures
            r == true,
    {
        self.tree.check_valid()
    }

    /// Compares the shapes and heights of two trees, ignoring the stored
    /// pairs.
    pub fn isomorphic(&self, other: &AVLTree<V>) -> (r: bool)
        ensures
            r == crate::avl_node::iso(self.shape(), other.shape()),
    {
        self.tree.isomorphic(&other.tree)
    }

    /// The backing tree, for shape comparisons.
    pub closed spec fn shape(self) -> crate::avl_node::OptNode<V> {
        self.tree.shape()
    }

    /// Walks all pairs and re-checks that keys strictly increase.
    pub fn bst_check(&self) -> (r: bool)
        requires
            self.wf(),
        ensures
            r == true,
    {
        self.tree.bst_check()
    }

    /// Walks all pairs backwards and re-checks that keys strictly decrease.
    pub fn bst_check_reverse(&self) -> (r: bool)
        requires
            self.wf(),
        ensures
            r == true,
    {
        self.tree.bst_check_reverse()
    }

    /// Replaces this tree's content with a deep copy of another tree's.
    pub fn clone_from(&mut self, t: &AVLTree<V>) where V: Clone
        ensures
            t.wf() ==> final(self).wf(),
            final(self)@.dom() =~= t@.dom(),
            forall|k: i64| #[trigger] t@.dom().contains(k)
                ==> vstd::pervasive::cloned::<V>(t@[k], final(self)@[k]),
    {
        self.tree = t.tree.clone();
    }

    /// An iterator over all pairs in increasing key order.
    pub fn iter(&self) -> (r: Iter<V>)
        requires
            self.wf(),
        ensures
            r.wf(),
            r.remaining() == self.seq_view(),
    {
        self.tree.iter()
    }

    /// A mutable iterator over all pairs.
    pub fn iter_mut(&mut self) -> (r: IterMut)
        requires
            old(self).wf(),
        ensures
            *final(self) == *old(self),
            final(self).wf(),
            r.keys@ == old(self).seq_view().map_values(|p: (i64, V)| p.0),
            r.pos == 0,
    {
        self.tree.iter_mut()
    }

    /// An iterator over the keys in increasing order.
    pub fn keys(&self) -> (r: Keys<V>)
        requires
            self.wf(),
        ensures
            r.inner.wf(),
            r.inner.remaining() == self.seq_view(),
    {
        self.tree.keys()
    }

    /// An iterator over the values in increasing key order.
    pub fn values(&self) -> (r: Values<V>)
        requires
            self.wf(),
        ensures
            r.inner.wf(),
            r.inner.remaining() == self.seq_view(),
    {
        self.tree.values()
    }

    /// A mutable iterator over the values in increasing key order.
    pub fn values_mut(&mut self) -> (r: ValuesMut)
        requires
            old(self).wf(),
        ensures
            *final(self) == *old(self),
            final(self).wf(),
            r.inner.keys@ == old(self).seq_view().map_values(|p: (i64, V)| p.0),
            r.inner.pos == 0,
    {
        self.tree.values_mut()
    }

    /// Consumes the tree into an iterator over its pairs.
    pub fn into_iter(self) -> (r: IntoIter<V>)
        requires
            self.wf(),
        ensures
            r.pairs@ == self.seq_view(),
    {
        self.tree.into_iter()
    }

    /// Inserts every pair the iterator yields, in order; pairs under
    /// already-stored keys replace the old ones.
    pub fn extend(&mut self, other: &mut IntoIter<V>)
        requires
            old(self).wf(),
            old(self)@.dom().len() + old(other).pairs@.len() < usize::MAX,
        ensures
            final(self).wf(),
            final(other).pairs@.len() == 0,
            final(self)@ == crate::fold_insert(old(self)@, old(other).pairs@),
    {
        self.tree.extend(other);
    }

    /// A cursor standing on the given key, or nowhere; the cursor owns the
    /// tree until `into_map` hands the backing map back.
    pub fn find_cursors(tree: AVLTree<V>, what: &i64) -> (r: Cursors<V>)
        requires
            tree.wf(),
        ensures
            r.wf(),
            r.map_view() == tree@,
            r.pos_spec() == if tree@.dom().contains(*what) {
                Some(*what)
            } else {
                None::<i64>
            },
    {
        tree.tree.find_cursors(what)
    }
}

impl<V: Clone> Clone for AVLTree<V> {
    /// Deep-copies the tree, keeping the shape and keys exactly.
    fn clone(&self) -> (r: Self)
        ensures
            self.wf() ==> r.wf(),
            r@.dom() =~= self@.dom(),
            forall|k: i64| #[trigger] self@.dom().contains(k)
                ==> vstd::pervasive::cloned::<V>(self@[k], r@[k]),
    {
        AVLTree { tree: self.tree.clone() }
    }
}

} // verus!
