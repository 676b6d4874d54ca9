//! The ordered map: an associative container keyed by `i64`, backed by the
//! AVL engine. Every node carries a zero hash value, so the two-level node
//! order degenerates to the plain key order.

use vstd::prelude::*;
use crate::{NodeKey, key_lt};
use crate::avl_node::{AVLNode, AVLRoot, OptNode};
use crate::avl_node;
use std::collections::VecDeque;

verus! {

broadcast use crate::avl_node::lemma_value_put;

/// The node key an ordered-map key is stored under: hash zero, then the key.
pub open spec fn ord_key(k: i64) -> NodeKey {
    NodeKey { hash: 0, key: k }
}

/// An ordered map from `i64` keys to values, kept as an AVL tree.
pub struct OrdMap<V> {
    root: AVLRoot<V>,
    count: usize,
}

impl<V> OrdMap<V> {
    /// Well-formedness: the tree is a valid AVL tree, the stored count is
    /// the number of nodes, and every node key carries a zero hash.
    pub closed spec fn wf(self) -> bool {
        &&& AVLNode::<V>::opt_wf(self.root.node)
        &&& self.count == AVLNode::<V>::opt_seq(self.root.node).len()
        &&& forall|k| #[trigger] AVLNode::<V>::opt_as_map(self.root.node).dom().contains(k)
            ==> k.hash == 0
    }

    /// The stored pairs, as a map over the engine's node keys.
    closed spec fn node_map(self) -> Map<NodeKey, V> {
        AVLNode::<V>::opt_as_map(self.root.node)
    }

    /// The stored pairs in increasing key order.
    pub closed spec fn seq_view(self) -> Seq<(i64, V)> {
        AVLNode::<V>::opt_seq(self.root.node).map_values(|p: (NodeKey, V)| (p.0.key, p.1))
    }

    /// The height of the backing tree.
    pub closed spec fn height(self) -> nat {
        AVLNode::<V>::opt_height(self.root.node)
    }
}

impl<V> View for OrdMap<V> {
    type V = Map<i64, V>;

    /// The map abstraction the contracts speak of.
    closed spec fn view(&self) -> Map<i64, V> {
        Map::new(
            |k: i64| self.node_map().dom().contains(ord_key(k)),
            |k: i64| self.node_map()[ord_key(k)],
        )
    }
}

impl<V> OrdMap<V> {
    /// Facts tying the three views of a well-formed map together: the
    /// sequence lists exactly the pairs of the map, in strictly increasing
    /// key order, and the reported length is the size of the map's domain.
    pub proof fn lemma_view(self)
        requires
            self.wf(),
        ensures
            self@.dom().finite(),
            self@.dom().len() == self.seq_view().len(),
            forall|i: int| 0 <= i < self.seq_view().len() ==> {
                &&& self@.dom().contains((#[trigger] self.seq_view()[i]).0)
                &&& self@[self.seq_view()[i].0] == self.seq_view()[i].1
            },
            forall|i: int, j: int| 0 <= i < j < self.seq_view().len()
                ==> (#[trigger] self.seq_view()[i]).0 < (#[trigger] self.seq_view()[j]).0,
            forall|k: i64| #[trigger] self@.dom().contains(k) ==> exists|i: int|
                0 <= i < self.seq_view().len()
                && (#[trigger] self.seq_view()[i]) == (k, self@[k]),
    {
        avl_node::lemma_seq_map(self.root.node);
        let em = self.node_map();
        let es = AVLNode::<V>::opt_seq(self.root.node);
        let vs = self.seq_view();
        assert(vs.len() == es.len());
        let g = |k2: NodeKey| k2.key;
        assert forall|j: i64| self@.dom().contains(j) implies
            em.dom().map(g).contains(j) by {
            assert(em.dom().contains(ord_key(j)));
            assert(g(ord_key(j)) == j);
        }
        assert forall|j: i64| em.dom().map(g).contains(j) implies
            self@.dom().contains(j) by {
            let a = choose|a: NodeKey| em.dom().contains(a) && g(a) == j;
            assert(a.hash == 0);
            assert(a == ord_key(j));
        }
        assert(em.dom().map(g) =~= self@.dom());
        assert(vstd::relations::injective_on(g, em.dom())) by {
            assert forall|x: NodeKey, y: NodeKey|
                em.dom().contains(x) && em.dom().contains(y) && #[trigger] g(x) == #[trigger] g(y)
                implies x == y by {
                assert(x.hash == 0 && y.hash == 0);
            }
        }
        vstd::set_lib::lemma_map_size(em.dom(), self@.dom(), g);
        assert forall|i: int| 0 <= i < vs.len() implies {
            &&& self@.dom().contains((#[trigger] vs[i]).0)
            &&& self@[vs[i].0] == vs[i].1
        } by {
            assert(em.dom().contains(es[i].0));
            assert(es[i].0.hash == 0);
            assert(ord_key(es[i].0.key) == es[i].0);
            assert(vs[i] == (es[i].0.key, es[i].1));
        }
        assert forall|i: int, j: int| 0 <= i < j < vs.len() implies
            (#[trigger] vs[i]).0 < (#[trigger] vs[j]).0 by {
            assert(key_lt(es[i].0, es[j].0));
            assert(em.dom().contains(es[i].0) && em.dom().contains(es[j].0));
            assert(es[i].0.hash == 0 && es[j].0.hash == 0);
        }
        assert forall|k: i64| #[trigger] self@.dom().contains(k) implies exists|i: int|
            0 <= i < vs.len() && (#[trigger] vs[i]) == (k, self@[k]) by {
            assert(em.dom().contains(ord_key(k)));
            let i = choose|i: int| 0 <= i < es.len()
                && (#[trigger] es[i]) == (ord_key(k), em[ord_key(k)]);
            assert(vs[i] == (k, self@[k]));
        }
    }

    /// The tree never stands taller than it has pairs.
    pub proof fn lemma_height_bound(self)
        requires
            self.wf(),
        ensures
            self.height() <= self@.dom().len(),
    {
        self.lemma_view();
        avl_node::lemma_height_le_size(self.root.node);
    }

    /// Creates an empty `OrdMap`: no root node at all, so two fresh maps
    /// are isomorphic.
    pub fn new() -> (r: Self)
        ensures
            r.wf(),
            r@ == Map::<i64, V>::empty(),
            r.seq_view() == Seq::<(i64, V)>::empty(),
            r.shape() is None,
    {
        let r = OrdMap { root: AVLRoot { node: None }, count: 0 };
        proof {
            assert(r.node_map() =~= Map::empty());
            assert(r@ =~= Map::<i64, V>::empty());
            assert(r.seq_view() =~= Seq::<(i64, V)>::empty());
        }
        r
    }

    /// The number of stored pairs.
    pub fn len(&self) -> (r: usize)
        requires
            self.wf(),
        ensures
            r == self@.dom().len(),
            r == self.seq_view().len(),
    {
        proof {
            self.lemma_view();
        }
        self.count
    }

    /// True if the map holds nothing.
    pub fn is_empty(&self) -> (r: bool)
        requires
            self.wf(),
        ensures
            r == (self@.dom() =~= Set::empty()),
    {
        proof {
            self.lemma_view();
            if self.count == 0 {
                assert forall|k: i64| !self@.dom().contains(k) by {
                    if self@.dom().contains(k) {
                        vstd::set_lib::lemma_set_empty_equivalency_len(self@.dom());
                    }
                }
                assert(self@.dom() =~= Set::empty());
            } else {
                assert(self.seq_view().len() > 0);
                assert(self@.dom().contains(self.seq_view()[0].0));
            }
        }
        self.count == 0
    }

    /// The height of the backing tree: 0 for an empty map, and otherwise
    /// one more than the taller subtree of the root.
    pub fn max_height(&self) -> (r: usize)
        requires
            self.wf(),
        ensures
            r == self.height(),
    {
        match &self.root.node {
            None => 0,
            Some(n) => n.height,
        }
    }

    /// Re-checks the AVL invariant over the whole tree; the well-formedness
    /// carried by every operation guarantees the answer is true.
    pub fn check_valid(&self) -> (r: bool)
        requires
            self.wf(),
        ensures
            r == true,
    {
        avl_node::check_valid_node(&self.root.node)
    }

    /// Inserts a pair, handing back the previously stored pair under the
    /// same key, if there was one.
    pub fn insert(&mut self, key: i64, value: V) -> (r: Option<(i64, V)>)
        requires
            old(self).wf(),
            old(self)@.dom().len() < usize::MAX,
        ensures
            final(self).wf(),
            final(self)@ == old(self)@.insert(key, value),
            r == if old(self)@.dom().contains(key) {
                Some((key, old(self)@[key]))
            } else {
                None::<(i64, V)>
            },
    {
        proof {
            old(self).lemma_view();
        }
        let mut node = None;
        core::mem::swap(&mut node, &mut self.root.node);
        let nk = NodeKey { hash: 0, key };
        let (new_node, prev) = avl_node::insert_opt(node, nk, value);
        self.root.node = new_node;
        let r = match prev {
            None => {
                self.count = self.count + 1;
                None
            },
            Some(v) => Some((key, v)),
        };
        proof {
            let om = old(self).node_map();
            assert(self.node_map() == om.insert(nk, value));
            assert forall|k| #[trigger] self.node_map().dom().contains(k)
                implies k.hash == 0 by {
                if k != nk {
                    assert(om.dom().contains(k));
                }
            }
            assert(self.wf());
            assert forall|j: i64| true implies
                (#[trigger] self@.dom().contains(j)
                    == old(self)@.insert(key, value).dom().contains(j))
                && (self@.dom().contains(j) ==>
                    self@[j] == old(self)@.insert(key, value)[j]) by {
                if j == key {
                } else {
                    assert(ord_key(j) != nk);
                }
            }
            assert(self@ =~= old(self)@.insert(key, value));
            assert(old(self)@.dom().contains(key) <==> om.dom().contains(nk));
        }
        r
    }

    /// Removes a key, handing back the stored pair if the key was present.
    pub fn remove(&mut self, key: &i64) -> (r: Option<(i64, V)>)
        requires
            old(self).wf(),
        ensures
            final(self).wf(),
            final(self)@ == old(self)@.remove(*key),
            r == if old(self)@.dom().contains(*key) {
                Some((*key, old(self)@[*key]))
            } else {
                None::<(i64, V)>
            },
    {
        proof {
            old(self).lemma_view();
        }
        let mut node = None;
        core::mem::swap(&mut node, &mut self.root.node);
        let nk = NodeKey { hash: 0, key: *key };
        let (new_node, popped) = avl_node::remove_opt(node, nk);
        self.root.node = new_node;
        let r = match popped {
            None => None,
            Some((_, v)) => {
                self.count = self.count - 1;
                Some((*key, v))
            },
        };
        proof {
            let om = old(self).node_map();
            assert(self.node_map() == om.remove(nk));
            assert forall|k| #[trigger] self.node_map().dom().contains(k)
                implies k.hash == 0 by {
                assert(om.dom().contains(k));
            }
            assert(self.wf());
            assert forall|j: i64| true implies
                (#[trigger] self@.dom().contains(j)
                    == old(self)@.remove(*key).dom().contains(j))
                && (self@.dom().contains(j) ==>
                    self@[j] == old(self)@.remove(*key)[j]) by {
                if j != *key {
                    assert(ord_key(j) != nk);
                }
            }
            assert(self@ =~= old(self)@.remove(*key));
            assert(old(self)@.dom().contains(*key) <==> om.dom().contains(nk));
        }
        r
    }

    /// Borrows the value stored under a key.
    pub fn get(&self, key: &i64) -> (r: Option<&V>)
        requires
            self.wf(),
        ensures
            match r {
                Some(v) => self@.dom().contains(*key) && *v == self@[*key],
                None => !self@.dom().contains(*key),
            },
    {
        let nk = NodeKey { hash: 0, key: *key };
        let r = avl_node::get_opt(&self.root.node, nk);
        proof {
            assert(self@.dom().contains(*key) <==> self.node_map().dom().contains(nk));
        }
        r
    }

    /// True if the key is stored.
    pub fn contains_key(&self, key: &i64) -> (r: bool)
        requires
            self.wf(),
        ensures
            r == self@.dom().contains(*key),
    {
        self.get(key).is_some()
    }

    /// Borrows the value stored under a key mutably; afterwards the map
    /// holds whatever the caller wrote through the borrow.
    pub fn get_mut(&mut self, key: &i64) -> (r: Option<&mut V>)
        requires
            old(self).wf(),
        ensures
            final(self).wf(),
            match r {
                Some(v) => {
                    &&& old(self)@.dom().contains(*key)
                    &&& *v == old(self)@[*key]
                    &&& final(self)@ =~= old(self)@.insert(*key, *final(v))
                },
                None => {
                    &&& !old(self)@.dom().contains(*key)
                    &&& *final(self) == *old(self)
                },
            },
    {
        let nk = NodeKey { hash: 0, key: *key };
        avl_node::get_mut_opt(&mut self.root.node, nk)
    }

    /// Removes every pair, leaving the map empty.
    pub fn clear(&mut self)
        ensures
            final(self).wf(),
            final(self)@ == Map::<i64, V>::empty(),
            final(self).seq_view() == Seq::<(i64, V)>::empty(),
    {
        self.root.node = None;
        self.count = 0;
        proof {
            assert(self.node_map() =~= Map::empty());
            assert(self@ =~= Map::<i64, V>::empty());
            assert(self.seq_view() =~= Seq::<(i64, V)>::empty());
        }
    }
}

impl<V> OrdMap<V> {
    /// Moves every pair of `other` into `self`, leaving `other` empty, in
    /// O(n + m): both trees are flattened into sorted lists, the lists are
    /// merged, and one balanced tree is rebuilt from the result. On keys
    /// stored in both maps the pair of `other` wins, matching `insert`'s
    /// replace semantics.
    pub fn append(&mut self, other: &mut Self)
        requires
            old(self).wf(),
            old(other).wf(),
        ensures
            final(self).wf(),
            final(other).wf(),
            final(self)@ == old(self)@.union_prefer_right(old(other)@),
            final(other)@ == Map::<i64, V>::empty(),
    {
        proof {
            avl_node::lemma_seq_map(old(self).root.node);
            avl_node::lemma_seq_map(old(other).root.node);
        }
        let mut node_a = None;
        core::mem::swap(&mut node_a, &mut self.root.node);
        let mut node_b = None;
        core::mem::swap(&mut node_b, &mut other.root.node);
        other.count = 0;
        let ghost ema = AVLNode::<V>::opt_as_map(node_a);
        let ghost emb = AVLNode::<V>::opt_as_map(node_b);
        let ghost sa = AVLNode::<V>::opt_seq(node_a);
        let ghost sb = AVLNode::<V>::opt_seq(node_b);
        let mut va: Vec<(NodeKey, V)> = Vec::new();
        avl_node::convert_to_list(node_a, &mut va);
        let mut vb: Vec<(NodeKey, V)> = Vec::new();
        avl_node::convert_to_list(node_b, &mut vb);
        proof {
            assert(va@ =~= sa);
            assert(vb@ =~= sb);
        }
        let mut merged = avl_node::merge_sorted(va, vb);
        let ghost mv = merged@;
        let n = merged.len();
        let new_root = avl_node::build_from_sorted(&mut merged, n);
        self.root.node = new_root;
        self.count = n;
        proof {
            let em = self.node_map();
            let es = AVLNode::<V>::opt_seq(self.root.node);
            assert(es =~= mv.reverse());
            avl_node::lemma_seq_map(self.root.node);
            // every stored pair is one of the merged pairs and conversely
            assert forall|k: NodeKey, v: V| em.dom().contains(k) && em[k] == v implies
                avl_node::has_pair(mv, k, v) by {
                let i = choose|i: int| 0 <= i < es.len()
                    && (#[trigger] es[i]) == (k, em[k]);
                assert(mv[mv.len() - 1 - i].0 == k && mv[mv.len() - 1 - i].1 == v);
            }
            assert forall|k: NodeKey, v: V| avl_node::has_pair(mv, k, v) implies
                em.dom().contains(k) && em[k] == v by {
                let i = choose|i: int| 0 <= i < mv.len()
                    && (#[trigger] mv[i]).0 == k && mv[i].1 == v;
                assert(es[mv.len() - 1 - i] == mv[i]);
                assert(em.dom().contains(es[mv.len() - 1 - i].0));
            }
            // sequence membership of the inputs matches their maps
            assert forall|k: NodeKey, v: V| #[trigger] avl_node::has_pair(sa, k, v) implies
                ema.dom().contains(k) && ema[k] == v by {
                let i = choose|i: int| 0 <= i < sa.len()
                    && (#[trigger] sa[i]).0 == k && sa[i].1 == v;
            }
            assert forall|k: NodeKey, v: V| #[trigger] avl_node::has_pair(sb, k, v) implies
                emb.dom().contains(k) && emb[k] == v by {
                let i = choose|i: int| 0 <= i < sb.len()
                    && (#[trigger] sb[i]).0 == k && sb[i].1 == v;
            }
            assert forall|k: NodeKey| ema.dom().contains(k) implies
                avl_node::has_pair(sa, k, ema[k]) by {}
            assert forall|k: NodeKey| emb.dom().contains(k) implies
                avl_node::has_pair(sb, k, emb[k]) by {}
            assert forall|k: NodeKey| avl_node::has_key(sb, k) implies
                emb.dom().contains(k) by {
                let i = choose|i: int| 0 <= i < sb.len() && (#[trigger] sb[i]).0 == k;
                assert(emb.dom().contains(sb[i].0));
            }
            // the new map is exactly "other wins over self"
            assert forall|k: NodeKey| #[trigger] em.dom().contains(k) implies
                k.hash == 0 && (emb.dom().contains(k) || ema.dom().contains(k)) by {
                assert(avl_node::has_pair(mv, k, em[k]));
            }
            assert(self.wf());
            assert forall|j: i64| true implies
                (#[trigger] self@.dom().contains(j)
                    == old(self)@.union_prefer_right(old(other)@).dom().contains(j))
                && (self@.dom().contains(j) ==>
                    self@[j] == old(self)@.union_prefer_right(old(other)@)[j]) by {
                let k = ord_key(j);
                if emb.dom().contains(k) {
                    assert(avl_node::has_pair(sb, k, emb[k]));
                    assert(avl_node::has_pair(mv, k, emb[k]));
                    assert(em.dom().contains(k) && em[k] == emb[k]);
                } else if ema.dom().contains(k) {
                    assert(avl_node::has_pair(sa, k, ema[k]));
                    assert(!avl_node::has_key(sb, k));
                    assert(avl_node::has_pair(mv, k, ema[k]));
                    assert(em.dom().contains(k) && em[k] == ema[k]);
                } else {
                    if em.dom().contains(k) {
                        assert(avl_node::has_pair(mv, k, em[k]));
                    }
                }
            }
            assert(self@ =~= old(self)@.union_prefer_right(old(other)@));
            assert(other.node_map() =~= Map::empty());
            assert(other@ =~= Map::<i64, V>::empty());
            assert(AVLNode::<V>::opt_seq(other.root.node) =~= Seq::<(NodeKey, V)>::empty());
            assert(other.wf());
        }
    }
}

impl<V> OrdMap<V> {
    /// In a well-formed map, the engine successor of the i-th key of the
    /// sorted sequence is exactly the (i+1)-th pair, and the last key has
    /// none; mirrored for predecessors.
    proof fn lemma_walk(self, i: int)
        requires
            self.wf(),
            0 <= i < self.seq_view().len(),
        ensures
            i + 1 < self.seq_view().len() ==> AVLNode::<V>::is_succ(
                self.node_map(),
                ord_key(self.seq_view()[i].0),
                Some((ord_key(self.seq_view()[i + 1].0), self.seq_view()[i + 1].1)),
            ),
            i + 1 == self.seq_view().len() ==> AVLNode::<V>::is_succ(
                self.node_map(),
                ord_key(self.seq_view()[i].0),
                None::<(NodeKey, V)>,
            ),
            i >= 1 ==> AVLNode::<V>::is_pred(
                self.node_map(),
                ord_key(self.seq_view()[i].0),
                Some((ord_key(self.seq_view()[i - 1].0), self.seq_view()[i - 1].1)),
            ),
            i == 0 ==> AVLNode::<V>::is_pred(
                self.node_map(),
                ord_key(self.seq_view()[i].0),
                None::<(NodeKey, V)>,
            ),
    {
        self.lemma_view();
        avl_node::lemma_seq_map(self.root.node);
        let es = AVLNode::<V>::opt_seq(self.root.node);
        let em = self.node_map();
        let vs = self.seq_view();
        assert(es[i].0 == ord_key(vs[i].0));
        assert forall|k: NodeKey| #[trigger] em.dom().contains(k)
            && key_lt(es[i].0, k) && (i + 1 < es.len() ==> !key_lt(es[i + 1].0, k))
            implies i + 1 < es.len() && k == es[i + 1].0 by {
            let j = choose|j: int| 0 <= j < es.len() && (#[trigger] es[j]) == (k, em[k]);
            assert(j > i);
            if i + 1 < es.len() && j > i + 1 {
                assert(key_lt(es[i + 1].0, es[j].0));
            }
        }
        assert forall|k: NodeKey| #[trigger] em.dom().contains(k)
            && key_lt(k, es[i].0) && (i >= 1 ==> !key_lt(k, es[i - 1].0))
            implies i >= 1 && k == es[i - 1].0 by {
            let j = choose|j: int| 0 <= j < es.len() && (#[trigger] es[j]) == (k, em[k]);
            assert(j < i);
            if i >= 1 && j < i - 1 {
                assert(key_lt(es[j].0, es[i - 1].0));
            }
        }
        if i + 1 < es.len() {
            assert(em.dom().contains(es[i + 1].0) && em[es[i + 1].0] == es[i + 1].1);
            assert(key_lt(es[i].0, es[i + 1].0));
            assert forall|k: NodeKey| #[trigger] em.dom().contains(k)
                && key_lt(es[i].0, k)
                implies k == es[i + 1].0 || key_lt(es[i + 1].0, k) by {
                let j = choose|j: int| 0 <= j < es.len() && (#[trigger] es[j]) == (k, em[k]);
                assert(j > i);
                if j > i + 1 {
                    assert(key_lt(es[i + 1].0, es[j].0));
                }
            }
            assert(es[i + 1].0 == ord_key(vs[i + 1].0) && es[i + 1].1 == vs[i + 1].1);
        } else {
            assert forall|k: NodeKey| #[trigger] em.dom().contains(k)
                implies !key_lt(es[i].0, k) by {
                let j = choose|j: int| 0 <= j < es.len() && (#[trigger] es[j]) == (k, em[k]);
                if j < i {
                    assert(key_lt(es[j].0, es[i].0));
                }
            }
        }
        if i >= 1 {
            assert(em.dom().contains(es[i - 1].0) && em[es[i - 1].0] == es[i - 1].1);
            assert(key_lt(es[i - 1].0, es[i].0));
            assert forall|k: NodeKey| #[trigger] em.dom().contains(k)
                && key_lt(k, es[i].0)
                implies k == es[i - 1].0 || key_lt(k, es[i - 1].0) by {
                let j = choose|j: int| 0 <= j < es.len() && (#[trigger] es[j]) == (k, em[k]);
                assert(j < i);
                if j < i - 1 {
                    assert(key_lt(es[j].0, es[i - 1].0));
                }
            }
            assert(es[i - 1].0 == ord_key(vs[i - 1].0) && es[i - 1].1 == vs[i - 1].1);
        } else {
            assert forall|k: NodeKey| #[trigger] em.dom().contains(k)
                implies !key_lt(k, es[0].0) by {
                let j = choose|j: int| 0 <= j < es.len() && (#[trigger] es[j]) == (k, em[k]);
                if j > 0 {
                    assert(key_lt(es[0].0, es[j].0));
                }
            }
        }
    }

    /// The first pair of the sorted sequence, found through the tree.
    fn first_pair(&self) -> (r: Option<(i64, &V)>)
        requires
            self.wf(),
        ensures
            self.seq_view().len() == 0 ==> r is None,
            self.seq_view().len() > 0 ==> match r {
                Some(p) => p.0 == self.seq_view()[0].0 && *p.1 == self.seq_view()[0].1,
                None => false,
            },
    {
        proof {
            self.lemma_view();
            avl_node::lemma_seq_map(self.root.node);
        }
        let r = avl_node::first_node(&self.root.node);
        proof {
            let es = AVLNode::<V>::opt_seq(self.root.node);
            if es.len() > 0 {
                assert(self.node_map().dom().contains(es[0].0));
                match r {
                    None => {
                        assert(false);
                    },
                    Some(p) => {
                        let j = choose|j: int| 0 <= j < es.len()
                            && (#[trigger] es[j]) == (p.0, self.node_map()[p.0]);
                        if j > 0 {
                            assert(key_lt(es[0].0, es[j].0));
                        }
                        assert(p.0 == es[0].0);
                    },
                }
            }
        }
        match r {
            None => None,
            Some(p) => Some((p.0.key, p.1)),
        }
    }

    /// The last pair of the sorted sequence, found through the tree.
    fn last_pair(&self) -> (r: Option<(i64, &V)>)
        requires
            self.wf(),
        ensures
            self.seq_view().len() == 0 ==> r is None,
            self.seq_view().len() > 0 ==> match r {
                Some(p) => p.0 == self.seq_view()[self.seq_view().len() - 1].0
                    && *p.1 == self.seq_view()[self.seq_view().len() - 1].1,
                None => false,
            },
    {
        proof {
            self.lemma_view();
            avl_node::lemma_seq_map(self.root.node);
        }
        let r = avl_node::last_node(&self.root.node);
        proof {
            let es = AVLNode::<V>::opt_seq(self.root.node);
            let n = es.len() as int;
            if es.len() > 0 {
                assert(self.node_map().dom().contains(es[n - 1].0));
                match r {
                    None => {
                        assert(false);
                    },
                    Some(p) => {
                        let j = choose|j: int| 0 <= j < es.len()
                            && (#[trigger] es[j]) == (p.0, self.node_map()[p.0]);
                        if j < n - 1 {
                            assert(key_lt(es[j].0, es[n - 1].0));
                        }
                        assert(p.0 == es[n - 1].0);
                    },
                }
            }
        }
        match r {
            None => None,
            Some(p) => Some((p.0.key, p.1)),
        }
    }
}

/// A double-ended iterator over the pairs of an `OrdMap`, in increasing key
/// order, walking the tree by in-order successor and predecessor searches.
pub struct Iter<'a, V> {
    map: &'a OrdMap<V>,
    head: Option<i64>,
    tail: Option<i64>,
    len: usize,
    lo: Ghost<int>,
}

impl<'a, V> Iter<'a, V> {
    /// The pairs the iterator has not yet yielded, in order.
    pub closed spec fn remaining(self) -> Seq<(i64, V)> {
        self.map.seq_view().subrange(self.lo@, self.lo@ + self.len)
    }

    /// The iterator points at a window of its map's sorted sequence.
    pub closed spec fn wf(self) -> bool {
        &&& self.map.wf()
        &&& 0 <= self.lo@
        &&& self.lo@ + self.len <= self.map.seq_view().len()
        &&& (self.len > 0 ==> {
            &&& self.head == Some(self.map.seq_view()[self.lo@].0)
            &&& self.tail == Some(self.map.seq_view()[self.lo@ + self.len - 1].0)
        })
    }

    /// Yields the smallest pair not yet visited.
    pub fn next(&mut self) -> (r: Option<(i64, &'a V)>)
        requires
            old(self).wf(),
        ensures
            final(self).wf(),
            old(self).remaining().len() == 0 ==> r is None && *final(self) == *old(self),
            old(self).remaining().len() > 0 ==> match r {
                Some(p) => {
                    &&& p.0 == old(self).remaining()[0].0
                    &&& *p.1 == old(self).remaining()[0].1
                    &&& final(self).remaining() == old(self).remaining().drop_first()
                },
                None => false,
            },
    {
        if self.len == 0 {
            return None;
        }
        proof {
            self.map.lemma_view();
        }
        let k = match self.head {
            Some(k) => k,
            None => { proof { assert(false); } 0 },
        };
        let v = self.map.get(&k).unwrap();
        proof {
            self.map.lemma_walk(self.lo@);
        }
        let nk = NodeKey { hash: 0, key: k };
        let succ = avl_node::succ_node(&self.map.root.node, nk);
        self.head = match succ {
            Some(p) => Some(p.0.key),
            None => None,
        };
        self.len = self.len - 1;
        proof {
            let vs = self.map.seq_view();
            let i = self.lo@;
            if self.len > 0 {
                // successors are unique, so the walk lands on the next entry
                let e = (ord_key(vs[i + 1].0), vs[i + 1].1);
                assert(AVLNode::<V>::is_succ(self.map.node_map(), nk, Some(e)));
                match succ {
                    None => { assert(false); },
                    Some(p) => {
                        assert(self.map.node_map().dom().contains(p.0));
                        assert(key_lt(nk, p.0));
                        assert(p.0 == e.0 || key_lt(e.0, p.0));
                        assert(e.0 == p.0 || key_lt(p.0, e.0));
                        assert(p.0 == e.0);
                    },
                }
            }
            self.lo@ = i + 1;
        }
        proof {
            assert(final(self).remaining() =~= old(self).remaining().drop_first());
        }
        Some((k, v))
    }

    /// Yields the largest pair not yet visited.
    pub fn next_back(&mut self) -> (r: Option<(i64, &'a V)>)
        requires
            old(self).wf(),
        ensures
            final(self).wf(),
            old(self).remaining().len() == 0 ==> r is None && *final(self) == *old(self),
            old(self).remaining().len() > 0 ==> match r {
                Some(p) => {
                    &&& p.0 == old(self).remaining().last().0
                    &&& *p.1 == old(self).remaining().last().1
                    &&& final(self).remaining() == old(self).remaining().drop_last()
                },
                None => false,
            },
    {
        if self.len == 0 {
            return None;
        }
        proof {
            self.map.lemma_view();
        }
        let k = match self.tail {
            Some(k) => k,
            None => { proof { assert(false); } 0 },
        };
        let v = self.map.get(&k).unwrap();
        proof {
            self.map.lemma_walk(self.lo@ + self.len - 1);
        }
        let nk = NodeKey { hash: 0, key: k };
        let pred = avl_node::pred_node(&self.map.root.node, nk);
        self.tail = match pred {
            Some(p) => Some(p.0.key),
            None => None,
        };
        self.len = self.len - 1;
        proof {
            let vs = self.map.seq_view();
            let i = self.lo@ + self.len;
            if self.len > 0 {
                let e = (ord_key(vs[i - 1].0), vs[i - 1].1);
                assert(AVLNode::<V>::is_pred(self.map.node_map(), nk, Some(e)));
                match pred {
                    None => { assert(false); },
                    Some(p) => {
                        assert(self.map.node_map().dom().contains(p.0));
                        assert(key_lt(p.0, nk));
                        assert(p.0 == e.0 || key_lt(p.0, e.0));
                        assert(e.0 == p.0 || key_lt(e.0, p.0));
                        assert(p.0 == e.0);
                    },
                }
            }
        }
        proof {
            assert(final(self).remaining() =~= old(self).remaining().drop_last());
        }
        Some((k, v))
    }

    /// Lower and upper bound of the number of pairs still to come; both are
    /// exact here.
    pub fn size_hint(&self) -> (r: (usize, Option<usize>))
        requires
            self.wf(),
        ensures
            r.0 == self.remaining().len(),
            r.1 == Some(self.remaining().len() as usize),
    {
        (self.len, Some(self.len))
    }
}

impl<V> OrdMap<V> {
    /// An iterator over all pairs in increasing key order.
    pub fn iter(&self) -> (r: Iter<V>)
        requires
            self.wf(),
        ensures
            r.wf(),
            r.remaining() == self.seq_view(),
    {
        let head = match self.first_pair() {
            Some(p) => Some(p.0),
            None => None,
        };
        let tail = match self.last_pair() {
            Some(p) => Some(p.0),
            None => None,
        };
        let r = Iter { map: self, head, tail, len: self.len(), lo: Ghost(0) };
        proof {
            assert(r.remaining() =~= self.seq_view());
        }
        r
    }
}

/// The smallest stored key strictly greater than `k`, if any.
pub open spec fn view_succ<V>(m: Map<i64, V>, k: i64, r: Option<i64>) -> bool {
    match r {
        None => forall|j: i64| #[trigger] m.dom().contains(j) ==> j <= k,
        Some(j) => m.dom().contains(j) && j > k
            && forall|j2: i64| #[trigger] m.dom().contains(j2) && j2 > k ==> j2 >= j,
    }
}

/// The largest stored key strictly smaller than `k`, if any.
pub open spec fn view_pred<V>(m: Map<i64, V>, k: i64, r: Option<i64>) -> bool {
    match r {
        None => forall|j: i64| #[trigger] m.dom().contains(j) ==> j >= k,
        Some(j) => m.dom().contains(j) && j < k
            && forall|j2: i64| #[trigger] m.dom().contains(j2) && j2 < k ==> j2 <= j,
    }
}

impl<V> OrdMap<V> {
    /// The in-order successor key of `k` within the map, whether or not `k`
    /// itself is stored.
    fn succ_key(&self, k: i64) -> (r: Option<i64>)
        requires
            self.wf(),
        ensures
            view_succ(self@, k, r),
    {
        let nk = NodeKey { hash: 0, key: k };
        let s = avl_node::succ_node(&self.root.node, nk);
        proof {
            match s {
                None => {
                    assert forall|j: i64| #[trigger] self@.dom().contains(j)
                        implies j <= k by {
                        assert(self.node_map().dom().contains(ord_key(j)));
                        assert(!key_lt(nk, ord_key(j)));
                    }
                },
                Some(p) => {
                    assert(p.0.hash == 0);
                    assert(self@.dom().contains(p.0.key));
                    assert forall|j2: i64| #[trigger] self@.dom().contains(j2) && j2 > k
                        implies j2 >= p.0.key by {
                        assert(self.node_map().dom().contains(ord_key(j2)));
                        assert(key_lt(nk, ord_key(j2)));
                        assert(ord_key(j2) == p.0 || key_lt(p.0, ord_key(j2)));
                    }
                },
            }
        }
        match s {
            None => None,
            Some(p) => Some(p.0.key),
        }
    }

    /// The in-order predecessor key of `k` within the map.
    fn pred_key(&self, k: i64) -> (r: Option<i64>)
        requires
            self.wf(),
        ensures
            view_pred(self@, k, r),
    {
        let nk = NodeKey { hash: 0, key: k };
        let s = avl_node::pred_node(&self.root.node, nk);
        proof {
            match s {
                None => {
                    assert forall|j: i64| #[trigger] self@.dom().contains(j)
                        implies j >= k by {
                        assert(self.node_map().dom().contains(ord_key(j)));
                        assert(!key_lt(ord_key(j), nk));
                    }
                },
                Some(p) => {
                    assert(p.0.hash == 0);
                    assert(self@.dom().contains(p.0.key));
                    assert forall|j2: i64| #[trigger] self@.dom().contains(j2) && j2 < k
                        implies j2 <= p.0.key by {
                        assert(self.node_map().dom().contains(ord_key(j2)));
                        assert(key_lt(ord_key(j2), nk));
                        assert(ord_key(j2) == p.0 || key_lt(ord_key(j2), p.0));
                    }
                },
            }
        }
        match s {
            None => None,
            Some(p) => Some(p.0.key),
        }
    }

    /// An iterator over the keys, in increasing order.
    pub fn keys(&self) -> (r: Keys<V>)
        requires
            self.wf(),
        ensures
            r.inner.wf(),
            r.inner.remaining() == self.seq_view(),
    {
        Keys { inner: self.iter() }
    }

    /// An iterator over the values, in increasing key order.
    pub fn values(&self) -> (r: Values<V>)
        requires
            self.wf(),
        ensures
            r.inner.wf(),
            r.inner.remaining() == self.seq_view(),
    {
        Values { inner: self.iter() }
    }

    /// The stored keys, in increasing order.
    fn collect_keys(&self) -> (r: Vec<i64>)
        requires
            self.wf(),
        ensures
            r@ == self.seq_view().map_values(|p: (i64, V)| p.0),
    {
        proof {
            self.lemma_view();
        }
        let ghost vs = self.seq_view();
        let mut it = self.iter();
        let mut out: Vec<i64> = Vec::new();
        let n = self.len();
        while out.len() < n
            invariant
                it.wf(),
                n == vs.len(),
                vs == self.seq_view(),
                self.wf(),
                out@.len() <= n,
                it.remaining() == vs.subrange(out@.len() as int, n as int),
                forall|i: int| 0 <= i < out@.len() ==> out@[i] == vs[i].0,
            decreases n - out@.len(),
        {
            match it.next() {
                Some(p) => {
                    out.push(p.0);
                },
                None => {
                    proof {
                        assert(false);
                    }
                },
            }
            proof {
                assert(it.remaining() =~= vs.subrange(out@.len() as int, n as int));
            }
        }
        proof {
            assert(out@ =~= vs.map_values(|p: (i64, V)| p.0));
        }
        out
    }

    /// A mutable iterator over the pairs: it captures the keys, and each
    /// step borrows the value for that key from the map it is handed.
    pub fn iter_mut(&mut self) -> (r: IterMut)
        requires
            old(self).wf(),
        ensures
            *final(self) == *old(self),
            final(self).wf(),
            r.keys@ == old(self).seq_view().map_values(|p: (i64, V)| p.0),
            r.pos == 0,
    {
        IterMut { keys: self.collect_keys(), pos: 0 }
    }

    /// A mutable iterator over the values, in increasing key order.
    pub fn values_mut(&mut self) -> (r: ValuesMut)
        requires
            old(self).wf(),
        ensures
            *final(self) == *old(self),
            final(self).wf(),
            r.inner.keys@ == old(self).seq_view().map_values(|p: (i64, V)| p.0),
            r.inner.pos == 0,
    {
        ValuesMut { inner: IterMut { keys: self.collect_keys(), pos: 0 } }
    }

    /// Consumes the map into an iterator over its pairs in increasing key
    /// order.
    pub fn into_iter(self) -> (r: IntoIter<V>)
        requires
            self.wf(),
        ensures
            r.pairs@ == self.seq_view(),
    {
        proof {
            self.lemma_view();
        }
        let OrdMap { root, .. } = self;
        let ghost es = AVLNode::<V>::opt_seq(root.node);
        let mut v: Vec<(NodeKey, V)> = Vec::new();
        avl_node::convert_to_list(root.node, &mut v);
        let mut pairs: VecDeque<(i64, V)> = VecDeque::new();
        while v.len() > 0
            invariant
                v@ == es.subrange(0, v@.len() as int),
                v@.len() <= es.len(),
                pairs@ == es.subrange(v@.len() as int, es.len() as int)
                    .map_values(|p: (NodeKey, V)| (p.0.key, p.1)),
            decreases v@.len(),
        {
            let p = v.pop().unwrap();
            pairs.push_front((p.0.key, p.1));
            proof {
                assert(v@ =~= es.subrange(0, v@.len() as int));
                assert(pairs@ =~= es.subrange(v@.len() as int, es.len() as int)
                    .map_values(|p: (NodeKey, V)| (p.0.key, p.1)));
            }
        }
        proof {
            assert(es.subrange(0, es.len() as int) =~= es);
        }
        let r = IntoIter { pairs };
        proof {
            assert(r.pairs@ =~= self.seq_view());
        }
        r
    }

    /// Compares the shapes and heights of two trees, ignoring keys and
    /// values; a consistency-testing aid.
    pub fn isomorphic(&self, other: &OrdMap<V>) -> (r: bool)
        ensures
            r == avl_node::iso(self.shape(), other.shape()),
    {
        avl_node::isomorphic_node(&self.root.node, &other.root.node)
    }

    /// The backing tree, for shape comparisons.
    pub closed spec fn shape(self) -> OptNode<V> {
        self.root.node
    }

    /// Walks all pairs front to back and re-checks that the keys strictly
    /// increase and that the count matches; true on every well-formed map.
    pub fn bst_check(&self) -> (r: bool)
        requires
            self.wf(),
        ensures
            r == true,
    {
        proof {
            self.lemma_view();
        }
        let ghost vs = self.seq_view();
        let n = self.len();
        let mut it = self.iter();
        if n == 0 {
            return true;
        }
        let first = match it.next() {
            Some(p) => p.0,
            None => {
                proof {
                    assert(false);
                }
                0
            },
        };
        let mut prev_k = first;
        let mut cnt: usize = 1;
        while cnt < n
            invariant
                it.wf(),
                self.wf(),
                n == vs.len(),
                vs == self.seq_view(),
                1 <= cnt <= n,
                it.remaining() == vs.subrange(cnt as int, n as int),
                prev_k == vs[cnt - 1].0,
            decreases n - cnt,
        {
            match it.next() {
                Some(p) => {
                    proof {
                        self.lemma_view();
                        assert(p.0 == vs[cnt as int].0);
                        assert(vs[cnt - 1].0 < vs[cnt as int].0);
                    }
                    if prev_k >= p.0 {
                        proof {
                            assert(false);
                        }
                        return false;
                    }
                    prev_k = p.0;
                    cnt = cnt + 1;
                },
                None => {
                    proof {
                        assert(false);
                    }
                },
            }
            proof {
                assert(it.remaining() =~= vs.subrange(cnt as int, n as int));
            }
        }
        cnt == n
    }

    /// The mirror of `bst_check`: walks back to front and re-checks that
    /// the keys strictly decrease; true on every well-formed map.
    pub fn bst_check_reverse(&self) -> (r: bool)
        requires
            self.wf(),
        ensures
            r == true,
    {
        proof {
            self.lemma_view();
        }
        let ghost vs = self.seq_view();
        let n = self.len();
        let mut it = self.iter();
        if n == 0 {
            return true;
        }
        let first = match it.next_back() {
            Some(p) => p.0,
            None => {
                proof {
                    assert(false);
                }
                0
            },
        };
        let mut prev_k = first;
        let mut cnt: usize = 1;
        while cnt < n
            invariant
                it.wf(),
                self.wf(),
                n == vs.len(),
                vs == self.seq_view(),
                1 <= cnt <= n,
                it.remaining() == vs.subrange(0, (n - cnt) as int),
                prev_k == vs[n - cnt].0,
            decreases n - cnt,
        {
            match it.next_back() {
                Some(p) => {
                    proof {
                        self.lemma_view();
                        assert(p.0 == vs[n - cnt - 1].0);
                        assert(vs[n - cnt - 1].0 < vs[(n - cnt) as int].0);
                    }
                    if prev_k <= p.0 {
                        proof {
                            assert(false);
                        }
                        return false;
                    }
                    prev_k = p.0;
                    cnt = cnt + 1;
                },
                None => {
                    proof {
                        assert(false);
                    }
                },
            }
            proof {
                assert(it.remaining() =~= vs.subrange(0, (n - cnt) as int));
            }
        }
        cnt == n
    }
}

/// An iterator over the keys of an `OrdMap`, in increasing order.
pub struct Keys<'a, V> {
    pub inner: Iter<'a, V>,
}

impl<'a, V> Keys<'a, V> {
    /// Yields the next key.
    pub fn next(&mut self) -> (r: Option<i64>)
        requires
            old(self).inner.wf(),
        ensures
            final(self).inner.wf(),
            old(self).inner.remaining().len() == 0 ==> r is None
                && final(self).inner == old(self).inner,
            old(self).inner.remaining().len() > 0 ==> {
                &&& r == Some(old(self).inner.remaining()[0].0)
                &&& final(self).inner.remaining()
                    == old(self).inner.remaining().drop_first()
            },
    {
        match self.inner.next() {
            Some(p) => Some(p.0),
            None => None,
        }
    }

    /// Exact bounds on the number of keys still to come.
    pub fn size_hint(&self) -> (r: (usize, Option<usize>))
        requires
            self.inner.wf(),
        ensures
            r.0 == self.inner.remaining().len(),
            r.1 == Some(self.inner.remaining().len() as usize),
    {
        self.inner.size_hint()
    }
}

/// An iterator over the values of an `OrdMap`, in increasing key order.
pub struct Values<'a, V> {
    pub inner: Iter<'a, V>,
}

impl<'a, V> Values<'a, V> {
    /// Yields the next value.
    pub fn next(&mut self) -> (r: Option<&'a V>)
        requires
            old(self).inner.wf(),
        ensures
            final(self).inner.wf(),
            old(self).inner.remaining().len() == 0 ==> r is None
                && final(self).inner == old(self).inner,
            old(self).inner.remaining().len() > 0 ==> match r {
                Some(v) => {
                    &&& *v == old(self).inner.remaining()[0].1
                    &&& final(self).inner.remaining()
                        == old(self).inner.remaining().drop_first()
                },
                None => false,
            },
    {
        match self.inner.next() {
            Some(p) => Some(p.1),
            None => None,
        }
    }

    /// Exact bounds on the number of values still to come.
    pub fn size_hint(&self) -> (r: (usize, Option<usize>))
        requires
            self.inner.wf(),
        ensures
            r.0 == self.inner.remaining().len(),
            r.1 == Some(self.inner.remaining().len() as usize),
    {
        self.inner.size_hint()
    }
}

/// A mutable iterator over the pairs of an `OrdMap`: it walks a captured
/// key list and borrows each value from the map it is handed.
pub struct IterMut {
    pub keys: Vec<i64>,
    pub pos: usize,
}

impl IterMut {
    /// Borrows the value under the next captured key mutably, together with
    /// the key; the map afterwards holds whatever was written through the
    /// borrow.
    pub fn next_mut<'m, V>(&mut self, map: &'m mut OrdMap<V>) -> (r: Option<(i64, &'m mut V)>)
        requires
            old(map).wf(),
            old(self).pos <= old(self).keys@.len(),
        ensures
            final(map).wf(),
            final(self).keys == old(self).keys,
            old(self).pos == old(self).keys@.len() ==> r is None
                && *final(self) == *old(self) && *final(map) == *old(map),
            old(self).pos < old(self).keys@.len() ==> {
                &&& final(self).pos == old(self).pos + 1
                &&& match r {
                    Some(p) => {
                        &&& p.0 == old(self).keys@[old(self).pos as int]
                        &&& old(map)@.dom().contains(p.0)
                        &&& *p.1 == old(map)@[p.0]
                        &&& final(map)@ =~= old(map)@.insert(p.0, *final(p.1))
                    },
                    None => {
                        &&& !old(map)@.dom().contains(
                            old(self).keys@[old(self).pos as int])
                        &&& *final(map) == *old(map)
                    },
                }
            },
    {
        if self.pos == self.keys.len() {
            return None;
        }
        let k = self.keys[self.pos];
        self.pos = self.pos + 1;
        match map.get_mut(&k) {
            Some(v) => Some((k, v)),
            None => None,
        }
    }

    /// Exact bounds on the number of pairs still to come.
    pub fn size_hint(&self) -> (r: (usize, Option<usize>))
        requires
            self.pos <= self.keys@.len(),
        ensures
            r.0 == self.keys@.len() - self.pos,
            r.1 == Some((self.keys@.len() - self.pos) as usize),
    {
        (self.keys.len() - self.pos, Some(self.keys.len() - self.pos))
    }
}

/// A mutable iterator over the values of an `OrdMap`.
pub struct ValuesMut {
    pub inner: IterMut,
}

impl ValuesMut {
    /// Borrows the next value mutably from the map it is handed.
    pub fn next_mut<'m, V>(&mut self, map: &'m mut OrdMap<V>) -> (r: Option<&'m mut V>)
        requires
            old(map).wf(),
            old(self).inner.pos <= old(self).inner.keys@.len(),
        ensures
            final(map).wf(),
            final(self).inner.keys == old(self).inner.keys,
            old(self).inner.pos == old(self).inner.keys@.len() ==> r is None
                && *final(self) == *old(self) && *final(map) == *old(map),
            old(self).inner.pos < old(self).inner.keys@.len() ==> {
                &&& final(self).inner.pos == old(self).inner.pos + 1
                &&& match r {
                    Some(v) => {
                        &&& old(map)@.dom().contains(
                            old(self).inner.keys@[old(self).inner.pos as int])
                        &&& *v == old(map)@[
                            old(self).inner.keys@[old(self).inner.pos as int]]
                        &&& final(map)@ =~= old(map)@.insert(
                            old(self).inner.keys@[old(self).inner.pos as int],
                            *final(v))
                    },
                    None => {
                        &&& !old(map)@.dom().contains(
                            old(self).inner.keys@[old(self).inner.pos as int])
                        &&& *final(map) == *old(map)
                    },
                }
            },
    {
        match self.inner.next_mut(map) {
            Some(p) => Some(p.1),
            None => None,
        }
    }

    /// Exact bounds on the number of values still to come.
    pub fn size_hint(&self) -> (r: (usize, Option<usize>))
        requires
            self.inner.pos <= self.inner.keys@.len(),
        ensures
            r.0 == self.inner.keys@.len() - self.inner.pos,
            r.1 == Some((self.inner.keys@.len() - self.inner.pos) as usize),
    {
        self.inner.size_hint()
    }
}

/// An owning iterator over the pairs of an `OrdMap`, in increasing key
/// order.
pub struct IntoIter<V> {
    pub pairs: VecDeque<(i64, V)>,
}

impl<V> IntoIter<V> {
    /// Yields the smallest remaining pair.
    pub fn next(&mut self) -> (r: Option<(i64, V)>)
        ensures
            old(self).pairs@.len() == 0 ==> r is None
                && final(self).pairs@ == old(self).pairs@,
            old(self).pairs@.len() > 0 ==> {
                &&& r == Some(old(self).pairs@[0])
                &&& final(self).pairs@ == old(self).pairs@.drop_first()
            },
    {
        let r = self.pairs.pop_front();
        proof {
            if old(self).pairs@.len() > 0 {
                assert(final(self).pairs@ =~= old(self).pairs@.drop_first());
            }
        }
        r
    }

    /// Exact bounds on the number of pairs still to come.
    pub fn size_hint(&self) -> (r: (usize, Option<usize>))
        ensures
            r.0 == self.pairs@.len(),
            r.1 == Some(self.pairs@.len() as usize),
    {
        (self.pairs.len(), Some(self.pairs.len()))
    }

    /// Converts the remaining pairs into an explicit sorted list.
    pub fn into_sorted_list(self) -> (r: SortedList<V>)
        ensures
            r.pairs@ == self.pairs@,
    {
        SortedList { pairs: self.pairs }
    }
}

/// An owning sorted list of pairs, produced by flattening a map.
pub struct SortedList<V> {
    pub pairs: VecDeque<(i64, V)>,
}

impl<V> SortedList<V> {
    /// Takes the smallest remaining pair out of the list.
    pub fn next(&mut self) -> (r: Option<(i64, V)>)
        ensures
            old(self).pairs@.len() == 0 ==> r is None
                && final(self).pairs@ == old(self).pairs@,
            old(self).pairs@.len() > 0 ==> {
                &&& r == Some(old(self).pairs@[0])
                &&& final(self).pairs@ == old(self).pairs@.drop_first()
            },
    {
        let r = self.pairs.pop_front();
        proof {
            if old(self).pairs@.len() > 0 {
                assert(final(self).pairs@ =~= old(self).pairs@.drop_first());
            }
        }
        r
    }

    /// A borrowing iterator over the remaining pairs.
    pub fn iter(&self) -> (r: SortedListIter<V>)
        ensures
            r.list == self,
            r.pos == 0,
    {
        SortedListIter { list: self, pos: 0 }
    }
}

/// A borrowing iterator over a `SortedList`.
pub struct SortedListIter<'a, V> {
    pub list: &'a SortedList<V>,
    pub pos: usize,
}

impl<'a, V> SortedListIter<'a, V> {
    /// Yields the next pair, the value by reference.
    pub fn next(&mut self) -> (r: Option<(i64, &'a V)>)
        requires
            old(self).pos <= old(self).list.pairs@.len(),
        ensures
            final(self).list == old(self).list,
            old(self).pos == old(self).list.pairs@.len() ==> r is None
                && *final(self) == *old(self),
            old(self).pos < old(self).list.pairs@.len() ==> {
                &&& final(self).pos == old(self).pos + 1
                &&& match r {
                    Some(p) => p.0 == old(self).list.pairs@[old(self).pos as int].0
                        && *p.1 == old(self).list.pairs@[old(self).pos as int].1,
                    None => false,
                }
            },
    {
        if self.pos == self.list.pairs.len() {
            return None;
        }
        let p = &self.list.pairs[self.pos];
        self.pos = self.pos + 1;
        Some((p.0, &p.1))
    }
}

impl<V: Clone> Clone for OrdMap<V> {
    /// Deep-copies the map: the tree shape and all keys are kept exactly,
    /// and each value is whatever `V::clone` returns for the original.
    fn clone(&self) -> (r: Self)
        ensures
            self.wf() ==> r.wf(),
            r@.dom() =~= self@.dom(),
            forall|k: i64| #[trigger] self@.dom().contains(k)
                ==> vstd::pervasive::cloned::<V>(self@[k], r@[k]),
            avl_node::iso(self.shape(), r.shape()),
    {
        let node = avl_node::clone_opt(&self.root.node);
        let r = OrdMap { root: AVLRoot { node }, count: self.count };
        proof {
            assert(r@.dom() =~= self@.dom());
            assert forall|k: i64| #[trigger] self@.dom().contains(k)
                implies vstd::pervasive::cloned::<V>(self@[k], r@[k]) by {
                assert(self.node_map().dom().contains(ord_key(k)));
            }
        }
        r
    }
}

impl<V: PartialEq> PartialEq for OrdMap<V> {
    /// Content equality on well-formed maps: the same keys bound to values
    /// that compare equal under `V`'s own equality.
    fn eq(&self, other: &Self) -> bool
    {
        if self.count != other.count {
            return false;
        }
        let mut pairs: Vec<(NodeKey, &V)> = Vec::new();
        avl_node::collect_refs(&self.root.node, &mut pairs);
        let mut i: usize = 0;
        while i < pairs.len()
            invariant
                i <= pairs@.len(),
            decreases pairs@.len() - i,
        {
            let p = &pairs[i];
            match avl_node::find_unchecked(&other.root.node, p.0) {
                Some(v2) => {
                    if !(*p.1 == *v2) {
                        return false;
                    }
                },
                None => {
                    return false;
                },
            }
            i = i + 1;
        }
        true
    }
}

impl<V: PartialEq> vstd::std_specs::cmp::PartialEqSpecImpl for OrdMap<V> {
    open spec fn obeys_eq_spec() -> bool {
        false
    }

    open spec fn eq_spec(&self, other: &OrdMap<V>) -> bool {
        true
    }
}

impl<V: Eq> Eq for OrdMap<V> {
}

/// A cursor: an explicit position within the map, able to move in both
/// directions and to erase the pair it stands on. It owns the map while it
/// lives; `into_map` hands the map back.
pub struct Cursors<V> {
    map: OrdMap<V>,
    pos: Option<i64>,
}

impl<V> Cursors<V> {
    /// The map the cursor walks.
    pub closed spec fn map_view(self) -> Map<i64, V> {
        self.map@
    }

    /// The key the cursor stands on, if it stands anywhere.
    pub closed spec fn pos_spec(self) -> Option<i64> {
        self.pos
    }

    /// The owned map stays well formed, and the cursor stands on a stored
    /// key or nowhere.
    pub closed spec fn wf(self) -> bool {
        &&& self.map.wf()
        &&& match self.pos {
            Some(k) => self.map@.dom().contains(k),
            None => true,
        }
    }

    /// Moves to the next larger stored key, or off the map.
    pub fn next(&mut self)
        requires
            old(self).wf(),
        ensures
            final(self).wf(),
            final(self).map_view() == old(self).map_view(),
            match old(self).pos_spec() {
                None => final(self).pos_spec() is None,
                Some(k) => view_succ(
                    old(self).map_view(), k, final(self).pos_spec()),
            },
    {
        self.pos = match self.pos {
            Some(k) => self.map.succ_key(k),
            None => None,
        };
    }

    /// Moves to the next smaller stored key, or off the map.
    pub fn prev(&mut self)
        requires
            old(self).wf(),
        ensures
            final(self).wf(),
            final(self).map_view() == old(self).map_view(),
            match old(self).pos_spec() {
                None => final(self).pos_spec() is None,
                Some(k) => view_pred(
                    old(self).map_view(), k, final(self).pos_spec()),
            },
    {
        self.pos = match self.pos {
            Some(k) => self.map.pred_key(k),
            None => None,
        };
    }

    /// The pair the cursor stands on.
    pub fn get(&self) -> (r: Option<(i64, &V)>)
        requires
            self.wf(),
        ensures
            match self.pos_spec() {
                None => r is None,
                Some(k) => match r {
                    Some(p) => p.0 == k && self.map_view().dom().contains(k)
                        && *p.1 == self.map_view()[k],
                    None => false,
                },
            },
    {
        match self.pos {
            None => None,
            Some(k) => {
                let v = self.map.get(&k).unwrap();
                Some((k, v))
            },
        }
    }

    /// The pair the cursor stands on, the value borrowed mutably.
    pub fn get_mut(&mut self) -> (r: Option<(i64, &mut V)>)
        requires
            old(self).wf(),
        ensures
            final(self).wf(),
            final(self).pos_spec() == old(self).pos_spec(),
            match old(self).pos_spec() {
                None => r is None && final(self).map_view() == old(self).map_view(),
                Some(k) => match r {
                    Some(p) => {
                        &&& p.0 == k
                        &&& old(self).map_view().dom().contains(k)
                        &&& *p.1 == old(self).map_view()[k]
                        &&& final(self).map_view()
                            =~= old(self).map_view().insert(k, *final(p.1))
                    },
                    None => false,
                },
            },
    {
        match self.pos {
            None => None,
            Some(k) => {
                match self.map.get_mut(&k) {
                    Some(v) => Some((k, v)),
                    None => None,
                }
            },
        }
    }

    /// Erases the pair under the cursor and steps to the next larger key,
    /// returning the erased pair. The new position is captured before the
    /// pair is detached.
    pub fn erase_then_next(&mut self) -> (r: Option<(i64, V)>)
        requires
            old(self).wf(),
        ensures
            final(self).wf(),
            match old(self).pos_spec() {
                None => {
                    &&& r is None
                    &&& final(self).map_view() == old(self).map_view()
                    &&& final(self).pos_spec() is None
                },
                Some(k) => {
                    &&& r == Some((k, old(self).map_view()[k]))
                    &&& final(self).map_view() == old(self).map_view().remove(k)
                    &&& view_succ(old(self).map_view(), k, final(self).pos_spec())
                },
            },
    {
        match self.pos {
            None => None,
            Some(k) => {
                let succ = self.map.succ_key(k);
                let r = self.map.remove(&k);
                self.pos = succ;
                proof {
                    match succ {
                        None => {},
                        Some(j) => {
                            assert(self.map@.dom().contains(j));
                        },
                    }
                }
                r
            },
        }
    }

    /// Erases the pair under the cursor and steps to the next smaller key,
    /// returning the erased pair.
    pub fn erase_then_prev(&mut self) -> (r: Option<(i64, V)>)
        requires
            old(self).wf(),
        ensures
            final(self).wf(),
            match old(self).pos_spec() {
                None => {
                    &&& r is None
                    &&& final(self).map_view() == old(self).map_view()
                    &&& final(self).pos_spec() is None
                },
                Some(k) => {
                    &&& r == Some((k, old(self).map_view()[k]))
                    &&& final(self).map_view() == old(self).map_view().remove(k)
                    &&& view_pred(old(self).map_view(), k, final(self).pos_spec())
                },
            },
    {
        match self.pos {
            None => None,
            Some(k) => {
                let pred = self.map.pred_key(k);
                let r = self.map.remove(&k);
                self.pos = pred;
                proof {
                    match pred {
                        None => {},
                        Some(j) => {
                            assert(self.map@.dom().contains(j));
                        },
                    }
                }
                r
            },
        }
    }

    /// Hands the map back when the cursor is no longer needed.
    pub fn into_map(self) -> (r: OrdMap<V>)
        requires
            self.wf(),
        ensures
            r.wf(),
            r@ == self.map_view(),
    {
        let Cursors { map, .. } = self;
        map
    }
}

impl<V> OrdMap<V> {
    /// A cursor standing on the given key, or nowhere if the key is not
    /// stored. The cursor owns the map until `into_map` is called.
    pub fn find_cursors(self, q: &i64) -> (r: Cursors<V>)
        requires
            self.wf(),
        ensures
            r.wf(),
            r.map_view() == self@,
            r.pos_spec() == if self@.dom().contains(*q) {
                Some(*q)
            } else {
                None::<i64>
            },
    {
        let pos = if self.contains_key(q) {
            Some(*q)
        } else {
            None
        };
        Cursors { map: self, pos }
    }
}

/// Round-trip law, stated over the map model every operation's contract is
/// written in: after `insert(k, v)` the key is present and `get(k)` sees
/// `v`; after `remove(k)` the key is absent and `get(k)` sees nothing; the
/// pair `remove` detaches is exactly the stored one, as `OrdMap::remove`'s
/// own contract states.
pub proof fn lemma_round_trip<V>(m: Map<i64, V>, k: i64, v: V)
    ensures
        m.insert(k, v).dom().contains(k),
        m.insert(k, v)[k] == v,
        !m.remove(k).dom().contains(k),
        m.remove(k) == m.insert(k, v).remove(k).remove(k),
{
    assert(m.remove(k) =~= m.insert(k, v).remove(k).remove(k));
}

/// Append law, stated over the map model `OrdMap::append`'s contract is
/// written in: the united map holds the union of both key sets, a key of
/// `other` keeps `other`'s value, and a key only in `self` keeps `self`'s.
pub proof fn lemma_append_law<V>(a: Map<i64, V>, b: Map<i64, V>, k: i64)
    requires
        a.dom().finite(),
        b.dom().finite(),
    ensures
        a.union_prefer_right(b).dom() =~= a.dom().union(b.dom()),
        b.dom().contains(k) ==> a.union_prefer_right(b)[k] == b[k],
        a.dom().contains(k) && !b.dom().contains(k)
            ==> a.union_prefer_right(b)[k] == a[k],
        a.union_prefer_right(b).dom().len() <= a.dom().len() + b.dom().len(),
{
    assert(a.union_prefer_right(b).dom() =~= a.dom().union(b.dom()));
    vstd::set_lib::lemma_len_union(a.dom(), b.dom());
}

/// A view into one slot of the map, found by a single search: either the
/// stored pair or the place a pair for the key would go. The handle owns
/// the map while it lives; every method that keeps the map hands it back.
pub enum Entry<V> {
    /// The key is stored.
    Occupied(OccupiedEntry<V>),
    /// The key is absent.
    Vacant(VacantEntry<V>),
}

/// A view into a stored pair.
pub struct OccupiedEntry<V> {
    map: OrdMap<V>,
    key: i64,
}

/// A view into the slot of an absent key.
pub struct VacantEntry<V> {
    map: OrdMap<V>,
    key: i64,
}

impl<V> OccupiedEntry<V> {
    /// The owned map.
    pub closed spec fn map_view(self) -> Map<i64, V> {
        self.map@
    }

    /// The key the entry stands on.
    pub closed spec fn key_spec(self) -> i64 {
        self.key
    }

    /// The map is well formed and the key is stored.
    pub closed spec fn wf(self) -> bool {
        &&& self.map.wf()
        &&& self.map@.dom().contains(self.key)
    }

    /// The key the entry stands on.
    pub fn key(&self) -> (r: i64)
        ensures
            r == self.key_spec(),
    {
        self.key
    }

    /// Borrows the stored value.
    pub fn get(&self) -> (r: &V)
        requires
            self.wf(),
        ensures
            *r == self.map_view()[self.key_spec()],
    {
        self.map.get(&self.key).unwrap()
    }

    /// Borrows the stored value mutably.
    pub fn get_mut(&mut self) -> (r: &mut V)
        requires
            old(self).wf(),
        ensures
            final(self).wf(),
            final(self).key_spec() == old(self).key_spec(),
            *r == old(self).map_view()[old(self).key_spec()],
            final(self).map_view() =~= old(self).map_view().insert(
                old(self).key_spec(), *final(r)),
    {
        self.map.get_mut(&self.key).unwrap()
    }

    /// Replaces the stored value, handing the old one back.
    pub fn insert(&mut self, value: V) -> (r: V)
        requires
            old(self).wf(),
        ensures
            final(self).wf(),
            final(self).key_spec() == old(self).key_spec(),
            r == old(self).map_view()[old(self).key_spec()],
            final(self).map_view() =~= old(self).map_view().insert(
                old(self).key_spec(), value),
    {
        let v = self.map.get_mut(&self.key).unwrap();
        let mut value = value;
        core::mem::swap(&mut value, v);
        value
    }

    /// Replaces the stored value, handing back the old pair with the map.
    pub fn replace_entry(self, value: V) -> (r: ((i64, V), OrdMap<V>))
        requires
            self.wf(),
        ensures
            r.1.wf(),
            r.0.0 == self.key_spec(),
            r.0.1 == self.map_view()[self.key_spec()],
            r.1@ =~= self.map_view().insert(self.key_spec(), value),
    {
        let OccupiedEntry { mut map, key } = self;
        let mut value = value;
        let v = map.get_mut(&key).unwrap();
        core::mem::swap(&mut value, v);
        ((key, value), map)
    }

    /// Detaches the stored pair, handing it back with the map.
    pub fn remove_entry(self) -> (r: ((i64, V), OrdMap<V>))
        requires
            self.wf(),
        ensures
            r.1.wf(),
            r.0.0 == self.key_spec(),
            r.0.1 == self.map_view()[self.key_spec()],
            r.1@ == self.map_view().remove(self.key_spec()),
    {
        let OccupiedEntry { mut map, key } = self;
        let pair = map.remove(&key).unwrap();
        (pair, map)
    }

    /// Detaches the stored value, handing it back with the map.
    pub fn remove(self) -> (r: (V, OrdMap<V>))
        requires
            self.wf(),
        ensures
            r.1.wf(),
            r.0 == self.map_view()[self.key_spec()],
            r.1@ == self.map_view().remove(self.key_spec()),
    {
        let (pair, map) = self.remove_entry();
        (pair.1, map)
    }

    /// Hands the map back unchanged.
    pub fn into_map(self) -> (r: OrdMap<V>)
        requires
            self.wf(),
        ensures
            r.wf(),
            r@ == self.map_view(),
    {
        let OccupiedEntry { map, .. } = self;
        map
    }
}

impl<V> VacantEntry<V> {
    /// The owned map.
    pub closed spec fn map_view(self) -> Map<i64, V> {
        self.map@
    }

    /// The key the entry stands on.
    pub closed spec fn key_spec(self) -> i64 {
        self.key
    }

    /// The map is well formed and the key is absent.
    pub closed spec fn wf(self) -> bool {
        &&& self.map.wf()
        &&& !self.map@.dom().contains(self.key)
    }

    /// The key the entry stands on.
    pub fn key(&self) -> (r: i64)
        ensures
            r == self.key_spec(),
    {
        self.key
    }

    /// Gives the key up, handing the map back unchanged.
    pub fn into_key(self) -> (r: (i64, OrdMap<V>))
        requires
            self.wf(),
        ensures
            r.0 == self.key_spec(),
            r.1.wf(),
            r.1@ == self.map_view(),
    {
        let VacantEntry { map, key } = self;
        (key, map)
    }

    /// Fills the slot the search found vacant, and hands the map back.
    pub fn insert(self, value: V) -> (r: OrdMap<V>)
        requires
            self.wf(),
            self.map_view().dom().len() < usize::MAX,
        ensures
            r.wf(),
            r@ == self.map_view().insert(self.key_spec(), value),
    {
        let VacantEntry { mut map, key } = self;
        let _ = map.insert(key, value);
        map
    }
}

impl<V> Entry<V> {
    /// Fills a vacant slot with what the given function makes; the
    /// function runs only when the slot is vacant.
    pub fn or_insert_with<F: FnOnce() -> V>(self, default: F) -> (r: OrdMap<V>)
        requires
            match self {
                Entry::Occupied(o) => o.wf(),
                Entry::Vacant(v) => {
                    &&& v.wf()
                    &&& v.map_view().dom().len() < usize::MAX
                    &&& call_requires(default, ())
                },
            },
        ensures
            r.wf(),
            match self {
                Entry::Occupied(o) => r@ == o.map_view(),
                Entry::Vacant(v) => exists|d: V| #[trigger] call_ensures(
                    default, (), d) && r@ == v.map_view().insert(v.key_spec(), d),
            },
    {
        match self {
            Entry::Occupied(o) => o.into_map(),
            Entry::Vacant(v) => v.insert(default()),
        }
    }

    /// The key the entry stands on.
    pub fn key(&self) -> (r: i64)
        ensures
            r == match *self {
                Entry::Occupied(o) => o.key_spec(),
                Entry::Vacant(v) => v.key_spec(),
            },
    {
        match self {
            Entry::Occupied(o) => o.key(),
            Entry::Vacant(v) => v.key(),
        }
    }

    /// Fills a vacant slot with the default; either way the key is stored
    /// afterwards, and the map comes back.
    pub fn or_insert(self, default: V) -> (r: OrdMap<V>)
        requires
            match self {
                Entry::Occupied(o) => o.wf(),
                Entry::Vacant(v) => v.wf() && v.map_view().dom().len() < usize::MAX,
            },
        ensures
            r.wf(),
            r@ == match self {
                Entry::Occupied(o) => o.map_view(),
                Entry::Vacant(v) => v.map_view().insert(v.key_spec(), default),
            },
    {
        match self {
            Entry::Occupied(o) => o.into_map(),
            Entry::Vacant(v) => v.insert(default),
        }
    }
}

impl<V> OrdMap<V> {
    /// A double-ended iterator over the pairs whose keys lie in
    /// `min..max` (inclusive below, exclusive above): a contiguous window
    /// of the sorted sequence.
    pub fn range(&self, min: i64, max: i64) -> (r: Iter<V>)
        requires
            self.wf(),
        ensures
            r.wf(),
            exists|lo: int| 0 <= lo
                && lo + r.remaining().len() <= self.seq_view().len()
                && r.remaining() == #[trigger] self.seq_view().subrange(
                    lo, lo + r.remaining().len()),
            forall|p: int| 0 <= p < r.remaining().len() ==> {
                &&& min <= (#[trigger] r.remaining()[p]).0 < max
                &&& self@.dom().contains(r.remaining()[p].0)
                &&& self@[r.remaining()[p].0] == r.remaining()[p].1
            },
            forall|k: i64| #[trigger] self@.dom().contains(k) && min <= k < max
                ==> exists|p: int| 0 <= p < r.remaining().len()
                    && (#[trigger] r.remaining()[p]).0 == k,
    {
        proof {
            self.lemma_view();
        }
        let ghost vs = self.seq_view();
        let keys = self.collect_keys();
        let n = keys.len();
        let mut lo_i: usize = 0;
        while lo_i < n && keys[lo_i] < min
            invariant
                self.wf(),
                vs == self.seq_view(),
                n == keys@.len(),
                n == vs.len(),
                keys@ == vs.map_values(|p: (i64, V)| p.0),
                lo_i <= n,
                forall|j: int| 0 <= j < lo_i ==> (#[trigger] keys@[j]) < min,
            decreases n - lo_i,
        {
            lo_i = lo_i + 1;
        }
        let mut hi_i: usize = lo_i;
        while hi_i < n && keys[hi_i] < max
            invariant
                self.wf(),
                vs == self.seq_view(),
                n == keys@.len(),
                n == vs.len(),
                keys@ == vs.map_values(|p: (i64, V)| p.0),
                lo_i <= hi_i <= n,
                forall|j: int| lo_i <= j < hi_i ==> (#[trigger] keys@[j]) < max,
            decreases n - hi_i,
        {
            hi_i = hi_i + 1;
        }
        let len = hi_i - lo_i;
        let head = if len > 0 {
            Some(keys[lo_i])
        } else {
            None
        };
        let tail = if len > 0 {
            Some(keys[hi_i - 1])
        } else {
            None
        };
        let r = Iter { map: self, head, tail, len, lo: Ghost(lo_i as int) };
        proof {
            assert(r.remaining() == vs.subrange(lo_i as int, lo_i + len));
            assert forall|p: int| 0 <= p < r.remaining().len() implies {
                &&& min <= (#[trigger] r.remaining()[p]).0 < max
                &&& self@.dom().contains(r.remaining()[p].0)
                &&& self@[r.remaining()[p].0] == r.remaining()[p].1
            } by {
                assert(r.remaining()[p] == vs[lo_i + p]);
                assert(keys@[lo_i + p] == vs[lo_i + p].0);
                if lo_i + p > lo_i {
                    assert(vs[lo_i as int].0 < vs[lo_i + p].0);
                }
                assert(keys@[lo_i as int] >= min);
            }
            assert forall|k: i64| #[trigger] self@.dom().contains(k)
                && min <= k < max implies exists|p: int|
                0 <= p < r.remaining().len()
                && (#[trigger] r.remaining()[p]).0 == k by {
                let i = choose|i: int| 0 <= i < vs.len()
                    && (#[trigger] vs[i]) == (k, self@[k]);
                if i < lo_i {
                    assert(keys@[i] < min);
                }
                if i >= hi_i {
                    // past the window the keys are at least `max`
                    if hi_i < n {
                        assert(keys@[hi_i as int] >= max);
                        if i > hi_i {
                            assert(vs[hi_i as int].0 < vs[i].0);
                        }
                    }
                    assert(false);
                }
                assert(r.remaining()[i - lo_i].0 == k);
            }
        }
        r
    }
}

impl<V> OrdMap<V> {
    /// Partitions the map at a key boundary, the inverse of `append`:
    /// `self` keeps the pairs below `key`, the returned map holds the pairs
    /// at or above it. Both trees are rebuilt balanced from the flattened
    /// sorted list, so no pair is re-inserted one by one.
    pub fn split_off(&mut self, key: &i64) -> (r: OrdMap<V>)
        requires
            old(self).wf(),
        ensures
            final(self).wf(),
            r.wf(),
            final(self)@ == old(self)@.restrict(Set::new(|j: i64| j < *key)),
            r@ == old(self)@.restrict(Set::new(|j: i64| j >= *key)),
    {
        proof {
            avl_node::lemma_seq_map(old(self).root.node);
        }
        let mut node = None;
        core::mem::swap(&mut node, &mut self.root.node);
        let ghost em = AVLNode::<V>::opt_as_map(node);
        let ghost es = AVLNode::<V>::opt_seq(node);
        let mut low: Vec<(NodeKey, V)> = Vec::new();
        avl_node::convert_to_list(node, &mut low);
        proof {
            assert(low@ =~= es);
            assert forall|p: int| 0 <= p < es.len() implies
                (#[trigger] es[p]).0.hash == 0 by {
                assert(em.dom().contains(es[p].0));
            }
        }
        // peel the upper pairs off the back; they come out descending
        let mut high_rev: Vec<(NodeKey, V)> = Vec::new();
        loop
            invariant
                low@ == es.take(low@.len() as int),
                low@.len() <= es.len(),
                high_rev@.len() == es.len() - low@.len(),
                forall|p: int| 0 <= p < high_rev@.len()
                    ==> #[trigger] high_rev@[p] == es[es.len() - 1 - p],
                forall|p: int| low@.len() <= p < es.len()
                    ==> (#[trigger] es[p]).0.key >= *key,
                forall|i: int, j: int| 0 <= i < j < es.len()
                    ==> key_lt((#[trigger] es[i]).0, (#[trigger] es[j]).0),
                forall|p: int| 0 <= p < es.len() ==> (#[trigger] es[p]).0.hash == 0,
            ensures
                low@ == es.take(low@.len() as int),
                high_rev@.len() == es.len() - low@.len(),
                forall|p: int| 0 <= p < high_rev@.len()
                    ==> #[trigger] high_rev@[p] == es[es.len() - 1 - p],
                forall|p: int| 0 <= p < low@.len()
                    ==> (#[trigger] es[p]).0.key < *key,
                forall|p: int| low@.len() <= p < es.len()
                    ==> (#[trigger] es[p]).0.key >= *key,
            decreases low@.len(),
        {
            let n = low.len();
            if n == 0 {
                break;
            }
            let stop = low[n - 1].0.key < *key;
            if stop {
                proof {
                    assert forall|p: int| 0 <= p < low@.len() implies
                        (#[trigger] es[p]).0.key < *key by {
                        if p < n - 1 {
                            assert(key_lt(es[p].0, es[n - 1].0));
                        }
                    }
                }
                break;
            }
            let p = low.pop().unwrap();
            high_rev.push(p);
            proof {
                assert(low@ =~= es.take(low@.len() as int));
            }
        }
        // rebuild each half balanced
        let ghost idx = low@.len() as int;
        let mut low_rev: Vec<(NodeKey, V)> = Vec::new();
        loop
            invariant
                low@ == es.take(low@.len() as int),
                low@.len() <= idx,
                idx <= es.len(),
                low_rev@.len() == idx - low@.len(),
                forall|p: int| 0 <= p < low_rev@.len()
                    ==> #[trigger] low_rev@[p] == es[idx - 1 - p],
                forall|i: int, j: int| 0 <= i < j < es.len()
                    ==> key_lt((#[trigger] es[i]).0, (#[trigger] es[j]).0),
            ensures
                low@.len() == 0,
                low_rev@.len() == idx,
                forall|p: int| 0 <= p < low_rev@.len()
                    ==> #[trigger] low_rev@[p] == es[idx - 1 - p],
            decreases low@.len(),
        {
            match low.pop() {
                Some(p) => {
                    low_rev.push(p);
                    proof {
                        assert(low@ =~= es.take(low@.len() as int));
                    }
                },
                None => {
                    break;
                },
            }
        }
        proof {
            assert forall|i: int, j: int| 0 <= i < j < low_rev@.len() implies
                key_lt((#[trigger] low_rev@[j]).0, (#[trigger] low_rev@[i]).0) by {
                assert(low_rev@[i] == es[idx - 1 - i]);
                assert(low_rev@[j] == es[idx - 1 - j]);
            }
            assert forall|i: int, j: int| 0 <= i < j < high_rev@.len() implies
                key_lt((#[trigger] high_rev@[j]).0, (#[trigger] high_rev@[i]).0) by {
                assert(high_rev@[i] == es[es.len() - 1 - i]);
                assert(high_rev@[j] == es[es.len() - 1 - j]);
            }
        }
        let n_low = low_rev.len();
        let ghost low_rev0 = low_rev@;
        let low_root = avl_node::build_from_sorted(&mut low_rev, n_low);
        let n_high = high_rev.len();
        let ghost high_rev0 = high_rev@;
        let high_root = avl_node::build_from_sorted(&mut high_rev, n_high);
        self.root.node = low_root;
        self.count = n_low;
        let r = OrdMap { root: AVLRoot { node: high_root }, count: n_high };
        proof {
            let ls = AVLNode::<V>::opt_seq(self.root.node);
            let hs = AVLNode::<V>::opt_seq(r.root.node);
            assert(ls == low_rev0.subrange(0, idx).reverse());
            assert(hs == high_rev0.subrange(0, es.len() - idx).reverse());
            assert forall|p: int| 0 <= p < ls.len() implies
                #[trigger] ls[p] == es[p] by {
                assert(ls[p] == low_rev0.subrange(0, idx)[idx - 1 - p]);
                assert(low_rev0[idx - 1 - p] == es[p]);
            }
            assert forall|p: int| 0 <= p < hs.len() implies
                #[trigger] hs[p] == es[idx + p] by {
                let hn = es.len() - idx;
                assert(hs[p] == high_rev0.subrange(0, hn as int)[hn - 1 - p]);
                assert(high_rev0[hn - 1 - p] == es[idx + p]);
            }
            avl_node::lemma_seq_map(self.root.node);
            avl_node::lemma_seq_map(r.root.node);
            let lm = self.node_map();
            let hm = r.node_map();
            // each half holds exactly its side of the split
            assert forall|k: NodeKey| true implies
                ((#[trigger] lm.dom().contains(k)
                    <==> em.dom().contains(k) && k.key < *key)
                && (lm.dom().contains(k) ==> lm[k] == em[k])) by {
                if lm.dom().contains(k) {
                    let p = choose|p: int| 0 <= p < ls.len()
                        && (#[trigger] ls[p]) == (k, lm[k]);
                    assert(es[p] == (k, lm[k]));
                    assert(em.dom().contains(es[p].0));
                    assert(es[p].0.key < *key);
                }
                if em.dom().contains(k) && k.key < *key {
                    let p = choose|p: int| 0 <= p < es.len()
                        && (#[trigger] es[p]) == (k, em[k]);
                    assert(es[p].0.key < *key);
                    if p >= idx {
                        assert(es[p].0.key >= *key);
                    }
                    assert(ls[p] == (k, em[k]));
                    assert(lm.dom().contains(ls[p].0));
                }
            }
            assert forall|k: NodeKey| true implies
                ((#[trigger] hm.dom().contains(k)
                    <==> em.dom().contains(k) && k.key >= *key)
                && (hm.dom().contains(k) ==> hm[k] == em[k])) by {
                if hm.dom().contains(k) {
                    let p = choose|p: int| 0 <= p < hs.len()
                        && (#[trigger] hs[p]) == (k, hm[k]);
                    assert(es[idx + p] == (k, hm[k]));
                    assert(em.dom().contains(es[idx + p].0));
                    assert(es[idx + p].0.key >= *key);
                }
                if em.dom().contains(k) && k.key >= *key {
                    let p = choose|p: int| 0 <= p < es.len()
                        && (#[trigger] es[p]) == (k, em[k]);
                    if p < idx {
                        assert(es[p].0.key < *key);
                    }
                    assert(hs[p - idx] == (k, em[k]));
                    assert(hm.dom().contains(hs[p - idx].0));
                }
            }
            assert forall|k| #[trigger] lm.dom().contains(k) implies k.hash == 0 by {
                assert(em.dom().contains(k));
            }
            assert forall|k| #[trigger] hm.dom().contains(k) implies k.hash == 0 by {
                assert(em.dom().contains(k));
            }
            assert(self.wf());
            assert(r.wf());
            assert forall|j: i64| true implies
                (#[trigger] self@.dom().contains(j)
                    == old(self)@.restrict(Set::new(|j2: i64| j2 < *key))
                        .dom().contains(j))
                && (self@.dom().contains(j) ==> self@[j]
                    == old(self)@.restrict(Set::new(|j2: i64| j2 < *key))[j]) by {}
            assert(self@ =~= old(self)@.restrict(Set::new(|j: i64| j < *key)));
            assert forall|j: i64| true implies
                (#[trigger] r@.dom().contains(j)
                    == old(self)@.restrict(Set::new(|j2: i64| j2 >= *key))
                        .dom().contains(j))
                && (r@.dom().contains(j) ==> r@[j]
                    == old(self)@.restrict(Set::new(|j2: i64| j2 >= *key))[j]) by {}
            assert(r@ =~= old(self)@.restrict(Set::new(|j: i64| j >= *key)));
        }
        r
    }
}

impl<V> OrdMap<V> {
    /// Inserts every pair the iterator yields, in order; pairs under
    /// already-stored keys replace the old ones.
    pub fn extend(&mut self, other: &mut IntoIter<V>)
        requires
            old(self).wf(),
            old(self)@.dom().len() + old(other).pairs@.len() < usize::MAX,
        ensures
            final(self).wf(),
            final(other).pairs@.len() == 0,
            final(self)@ == crate::fold_insert(old(self)@, old(other).pairs@),
    {
        proof {
            old(self).lemma_view();
        }
        loop
            invariant
                self.wf(),
                self@.dom().len() + other.pairs@.len() < usize::MAX,
                crate::fold_insert(self@, other.pairs@)
                    == crate::fold_insert(old(self)@, old(other).pairs@),
            ensures
                self.wf(),
                other.pairs@.len() == 0,
                self@ == crate::fold_insert(old(self)@, old(other).pairs@),
            decreases other.pairs@.len(),
        {
            proof {
                self.lemma_view();
            }
            let ghost pre_map = self@;
            let ghost pre_pairs = other.pairs@;
            match other.next() {
                Some(p) => {
                    let _ = self.insert(p.0, p.1);
                    proof {
                        assert(crate::fold_insert(pre_map, pre_pairs)
                            == crate::fold_insert(
                                pre_map.insert(p.0, p.1), pre_pairs.drop_first()));
                    }
                },
                None => {
                    break;
                },
            }
        }
    }
}

impl<V> OrdMap<V> {
    /// Searches once for the key and hands back a handle on the result:
    /// the stored pair, or the vacant slot the pair would go to.
    pub fn entry(self, key: i64) -> (r: Entry<V>)
        requires
            self.wf(),
        ensures
            match r {
                Entry::Occupied(o) => {
                    &&& o.wf()
                    &&& o.map_view() == self@
                    &&& o.key_spec() == key
                    &&& self@.dom().contains(key)
                },
                Entry::Vacant(v) => {
                    &&& v.wf()
                    &&& v.map_view() == self@
                    &&& v.key_spec() == key
                    &&& !self@.dom().contains(key)
                },
            },
    {
        if self.contains_key(&key) {
            Entry::Occupied(OccupiedEntry { map: self, key })
        } else {
            Entry::Vacant(VacantEntry { map: self, key })
        }
    }
}

} // verus!
