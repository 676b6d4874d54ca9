//! The hash table: an array of buckets sized as a power of two, each bucket
//! headed by an AVL tree keyed first by hash value and then by the real
//! key, so lookups stay logarithmic even when every key lands in one
//! bucket. The whole-table walkers visit the buckets in index order,
//! scanning the array itself rather than keeping a separate list of the
//! non-empty buckets.

use vstd::prelude::*;
use crate::{NodeKey, key_lt};
use crate::avl_node::{AVLNode, AVLRoot, OptNode};
use crate::avl_node;
use vstd::arithmetic::power2::pow2;

verus! {

broadcast use crate::avl_node::lemma_value_put, crate::avl_node::lemma_sum_lens_congruent;

/// The integer type hash values are carried in.
pub type HashUint = u64;

/// The initial number of buckets.
pub const AVL_HASH_INIT_SIZE: usize = 8;

/// Masking with a value keeps at most that value.
pub(crate) proof fn lemma_mask_bound(h: u64, m: u64)
    ensures
        h & m <= m,
{
    assert(h & m <= m) by (bit_vector);
}

/// Grow target of the bucket array: one and a half times the element count,
/// saturated.
pub open spec fn spec_calc_limit(capacity: nat) -> nat {
    if capacity * 6 > usize::MAX {
        (usize::MAX as nat) / 4
    } else {
        capacity * 6 / 4
    }
}

/// The number of buckets the table wants for `capacity` elements, one and
/// a half times the count, saturated at the top of `usize`.
pub fn calc_limit(capacity: usize) -> (r: usize)
    ensures
        r == spec_calc_limit(capacity as nat),
{
    if capacity <= usize::MAX / 6 {
        capacity * 6 / 4
    } else {
        usize::MAX / 4
    }
}

/// The bucket count reached by doubling `cur` until it covers `need`.
pub open spec fn spec_grown_size(cur: nat, need: nat) -> nat
    decreases vstd::math::max(need - cur, 0),
{
    if cur >= need {
        cur
    } else if cur == 0 {
        0
    } else {
        spec_grown_size(cur * 2, need)
    }
}

/// A hash table from `NodeKey`s (hash value plus real key) to values.
pub struct HashTable<V> {
    index: Vec<AVLRoot<V>>,
    index_mask: usize,
    count: usize,
}

impl<V> HashTable<V> {
    /// The bucket trees.
    pub closed spec fn buckets(self) -> Seq<OptNode<V>> {
        self.index@.map_values(|r: AVLRoot<V>| r.node)
    }

    /// The bucket a node key is routed to.
    pub closed spec fn bucket_of(self, k: NodeKey) -> int {
        (k.hash & (self.index_mask as u64)) as int
    }

    /// Well-formedness: the bucket count is a power of two and matches the
    /// mask, every bucket is a valid AVL tree, every node sits in the
    /// bucket its hash routes it to, and the count is the total number of
    /// nodes.
    pub closed spec fn wf(self) -> bool {
        &&& self.index@.len() == self.index_mask + 1
        &&& (exists|e: nat| self.index@.len() == pow2(e))
        &&& self.index_mask + 1 <= usize::MAX
        &&& (forall|i: int| 0 <= i < self.buckets().len()
            ==> AVLNode::<V>::opt_wf(#[trigger] self.buckets()[i]))
        &&& (forall|i: int, k: NodeKey| 0 <= i < self.buckets().len()
            && #[trigger] AVLNode::<V>::opt_as_map(self.buckets()[i]).dom().contains(k)
            ==> self.bucket_of(k) == i)
        &&& self.count == avl_node::sum_lens(self.buckets())
    }

    /// The stored pairs, as a map over node keys.
    pub closed spec fn nk_map(self) -> Map<NodeKey, V> {
        Map::new(
            |k: NodeKey| AVLNode::<V>::opt_as_map(
                self.buckets()[self.bucket_of(k)]).dom().contains(k),
            |k: NodeKey| AVLNode::<V>::opt_as_map(self.buckets()[self.bucket_of(k)])[k],
        )
    }

    /// Creates a table with the default initial bucket count.
    pub fn new() -> (r: Self)
        ensures
            r.wf(),
            r.nk_map() == Map::<NodeKey, V>::empty(),
            r.spec_index_size() == AVL_HASH_INIT_SIZE,
    {
        proof {
            vstd::arithmetic::power2::lemma2_to64();
            assert(AVL_HASH_INIT_SIZE == pow2(3));
        }
        Self::with_index_size(AVL_HASH_INIT_SIZE)
    }

    /// Creates a table with the given power-of-two bucket count.
    pub(crate) fn with_index_size(n: usize) -> (r: Self)
        requires
            n >= 1,
            exists|e: nat| n == pow2(e),
        ensures
            r.wf(),
            r.nk_map() == Map::<NodeKey, V>::empty(),
            r.spec_index_size() == n,
            r.spec_size() == 0,
    {
        let mut index: Vec<AVLRoot<V>> = Vec::new();
        let mut i: usize = 0;
        while i < n
            invariant
                i <= n,
                index@.len() == i,
                forall|j: int| 0 <= j < i ==> (#[trigger] index@[j]).node is None,
            decreases n - i,
        {
            index.push(AVLRoot { node: None });
            i = i + 1;
        }
        let r = HashTable { index, index_mask: n - 1, count: 0 };
        proof {
            avl_node::lemma_sum_zero(r.buckets());
            assert forall|k: NodeKey| !(#[trigger] r.nk_map().dom().contains(k)) by {
                lemma_mask_bound(k.hash, r.index_mask as u64);
                assert(r.buckets()[r.bucket_of(k)] is None);
                assert(AVLNode::<V>::opt_as_map(None::<Box<AVLNode<V>>>)
                    =~= Map::<NodeKey, V>::empty());
            }
            assert(r.nk_map() =~= Map::<NodeKey, V>::empty());
        }
        r
    }

    /// The number of buckets.
    pub fn index_size(&self) -> (r: usize)
        requires
            self.wf(),
        ensures
            r == self.spec_index_size(),
    {
        self.index.len()
    }

    /// The number of buckets, as the table's capacity.
    pub fn capacity(&self) -> (r: usize)
        requires
            self.wf(),
        ensures
            r == self.spec_index_size(),
    {
        self.index.len()
    }

    /// The number of buckets.
    pub closed spec fn spec_index_size(self) -> nat {
        self.index@.len()
    }

    /// The number of stored pairs.
    pub fn size(&self) -> (r: usize)
        requires
            self.wf(),
        ensures
            r == self.spec_size(),
    {
        self.count
    }

    /// The number of stored pairs.
    pub closed spec fn spec_size(self) -> nat {
        avl_node::sum_lens(self.buckets())
    }

    /// Looks up the value stored under a hash value and key.
    pub fn hash_find(&self, hash_val: HashUint, key: i64) -> (r: Option<&V>)
        requires
            self.wf(),
        ensures
            match r {
                Some(v) => self.nk_map().dom().contains(NodeKey { hash: hash_val, key })
                    && *v == self.nk_map()[NodeKey { hash: hash_val, key }],
                None => !self.nk_map().dom().contains(NodeKey { hash: hash_val, key }),
            },
    {
        let nk = NodeKey { hash: hash_val, key };
        proof {
            lemma_mask_bound(hash_val, self.index_mask as u64);
            assert(self.buckets()[self.bucket_of(nk)] == self.index@[self.bucket_of(nk)].node);
            assert(AVLNode::<V>::opt_wf(self.buckets()[self.bucket_of(nk)]));
        }
        let b = (hash_val & (self.index_mask as u64)) as usize;
        avl_node::get_opt(&self.index[b].node, nk)
    }

    /// Inserts a pair under a hash value and key, handing back the value
    /// previously stored under the same pair of hash and key, if any.
    pub fn hash_add(&mut self, hash_val: HashUint, key: i64, value: V) -> (r: Option<V>)
        requires
            old(self).wf(),
            old(self).spec_size() < usize::MAX,
        ensures
            final(self).wf(),
            final(self).nk_map() == old(self).nk_map().insert(
                NodeKey { hash: hash_val, key }, value),
            final(self).spec_index_size() == old(self).spec_index_size(),
            r == if old(self).nk_map().dom().contains(NodeKey { hash: hash_val, key }) {
                Some(old(self).nk_map()[NodeKey { hash: hash_val, key }])
            } else {
                None::<V>
            },
            final(self).spec_size() == old(self).spec_size()
                + if old(self).nk_map().dom().contains(NodeKey { hash: hash_val, key }) {
                    0int
                } else {
                    1int
                },
    {
        let nk = NodeKey { hash: hash_val, key };
        proof {
            lemma_mask_bound(hash_val, self.index_mask as u64);
            avl_node::lemma_sum_bound(self.buckets(), self.bucket_of(nk));
            assert(self.buckets()[self.bucket_of(nk)]
                == self.index@[self.bucket_of(nk)].node);
            assert(AVLNode::<V>::opt_wf(self.buckets()[self.bucket_of(nk)]));
        }
        let b = (hash_val & (self.index_mask as u64)) as usize;
        let mut node = None;
        core::mem::swap(&mut node, &mut self.index[b].node);
        let ghost bs0 = old(self).buckets();
        let (new_node, prev) = avl_node::insert_opt(node, nk, value);
        self.index[b].node = new_node;
        let r = match prev {
            None => {
                self.count = self.count + 1;
                None
            },
            Some(v) => Some(v),
        };
        proof {
            let bs = self.buckets();
            assert(bs =~= bs0.update(b as int, bs[b as int]));
            avl_node::lemma_sum_update(bs0, b as int, bs[b as int]);
            assert forall|i: int, k: NodeKey| 0 <= i < bs.len()
                && #[trigger] AVLNode::<V>::opt_as_map(bs[i]).dom().contains(k)
                implies self.bucket_of(k) == i by {
                if i == b as int {
                    if k != nk {
                        assert(AVLNode::<V>::opt_as_map(bs0[i]).dom().contains(k));
                    }
                } else {
                    assert(AVLNode::<V>::opt_as_map(bs0[i]).dom().contains(k));
                }
            }
            assert(self.wf());
            assert forall|k: NodeKey| true implies
                (#[trigger] self.nk_map().dom().contains(k)
                    == old(self).nk_map().insert(nk, value).dom().contains(k))
                && (self.nk_map().dom().contains(k)
                    ==> self.nk_map()[k] == old(self).nk_map().insert(nk, value)[k]) by {
                lemma_mask_bound(k.hash, self.index_mask as u64);
                if self.bucket_of(k) != b as int {
                    assert(bs[self.bucket_of(k)] == bs0[self.bucket_of(k)]);
                }
            }
            assert(self.nk_map() =~= old(self).nk_map().insert(nk, value));
        }
        r
    }

    /// Removes the pair stored under a hash value and key, if any, handing
    /// its value back.
    pub fn hash_erase(&mut self, hash_val: HashUint, key: i64) -> (r: Option<V>)
        requires
            old(self).wf(),
        ensures
            final(self).wf(),
            final(self).nk_map() == old(self).nk_map().remove(
                NodeKey { hash: hash_val, key }),
            final(self).spec_index_size() == old(self).spec_index_size(),
            r == if old(self).nk_map().dom().contains(NodeKey { hash: hash_val, key }) {
                Some(old(self).nk_map()[NodeKey { hash: hash_val, key }])
            } else {
                None::<V>
            },
            final(self).spec_size() == old(self).spec_size()
                - if old(self).nk_map().dom().contains(NodeKey { hash: hash_val, key }) {
                    1int
                } else {
                    0int
                },
    {
        let nk = NodeKey { hash: hash_val, key };
        proof {
            lemma_mask_bound(hash_val, self.index_mask as u64);
            avl_node::lemma_sum_bound(self.buckets(), self.bucket_of(nk));
            assert(self.buckets()[self.bucket_of(nk)]
                == self.index@[self.bucket_of(nk)].node);
            assert(AVLNode::<V>::opt_wf(self.buckets()[self.bucket_of(nk)]));
        }
        let b = (hash_val & (self.index_mask as u64)) as usize;
        let mut node = None;
        core::mem::swap(&mut node, &mut self.index[b].node);
        let ghost bs0 = old(self).buckets();
        let (new_node, popped) = avl_node::remove_opt(node, nk);
        self.index[b].node = new_node;
        let r = match popped {
            None => None,
            Some((_, v)) => {
                self.count = self.count - 1;
                Some(v)
            },
        };
        proof {
            let bs = self.buckets();
            assert(bs =~= bs0.update(b as int, bs[b as int]));
            avl_node::lemma_sum_update(bs0, b as int, bs[b as int]);
            assert forall|i: int, k: NodeKey| 0 <= i < bs.len()
                && #[trigger] AVLNode::<V>::opt_as_map(bs[i]).dom().contains(k)
                implies self.bucket_of(k) == i by {
                if i == b as int {
                    assert(AVLNode::<V>::opt_as_map(bs0[i]).dom().contains(k));
                } else {
                    assert(AVLNode::<V>::opt_as_map(bs0[i]).dom().contains(k));
                }
            }
            assert(self.wf());
            assert forall|k: NodeKey| true implies
                (#[trigger] self.nk_map().dom().contains(k)
                    == old(self).nk_map().remove(nk).dom().contains(k))
                && (self.nk_map().dom().contains(k)
                    ==> self.nk_map()[k] == old(self).nk_map().remove(nk)[k]) by {
                lemma_mask_bound(k.hash, self.index_mask as u64);
                if self.bucket_of(k) != b as int {
                    assert(bs[self.bucket_of(k)] == bs0[self.bucket_of(k)]);
                }
            }
            assert(self.nk_map() =~= old(self).nk_map().remove(nk));
        }
        r
    }
}

impl<V> HashTable<V> {
    /// The whole-table iteration order: bucket index first, then the node
    /// order within a bucket.
    pub open spec fn hord(self, a: NodeKey, b: NodeKey) -> bool {
        self.bucket_of(a) < self.bucket_of(b)
            || (self.bucket_of(a) == self.bucket_of(b) && key_lt(a, b))
    }

    /// Empties every bucket, keeping the bucket array.
    pub fn clear(&mut self)
        requires
            old(self).wf(),
        ensures
            final(self).wf(),
            final(self).nk_map() == Map::<NodeKey, V>::empty(),
            final(self).spec_index_size() == old(self).spec_index_size(),
            final(self).spec_size() == 0,
    {
        let n = self.index.len();
        let mut i: usize = 0;
        while i < n
            invariant
                i <= n,
                self.index@.len() == n,
                self.index_mask == old(self).index_mask,
                forall|j: int| 0 <= j < i ==> (#[trigger] self.index@[j]).node is None,
            decreases n - i,
        {
            self.index[i] = AVLRoot { node: None };
            i = i + 1;
        }
        self.count = 0;
        proof {
            avl_node::lemma_sum_zero(self.buckets());
            assert forall|k: NodeKey| !(#[trigger] self.nk_map().dom().contains(k)) by {
                lemma_mask_bound(k.hash, self.index_mask as u64);
                assert(self.buckets()[self.bucket_of(k)] is None);
                assert(AVLNode::<V>::opt_as_map(None::<Box<AVLNode<V>>>)
                    =~= Map::<NodeKey, V>::empty());
            }
            assert(self.nk_map() =~= Map::<NodeKey, V>::empty());
            assert(self.wf());
        }
    }

    /// Rebuilds the table with a new power-of-two bucket count, re-routing
    /// every stored node; nothing else changes.
    pub fn hash_swap(&mut self, new_index_size: usize) -> (r: bool)
        requires
            old(self).wf(),
            new_index_size >= 1,
            exists|e: nat| new_index_size == pow2(e),
        ensures
            r == true,
            final(self).wf(),
            final(self).nk_map() == old(self).nk_map(),
            final(self).spec_index_size() == new_index_size,
            final(self).spec_size() == old(self).spec_size(),
    {
        let ghost m0 = old(self).nk_map();
        let n = self.index.len();
        let mut pairs: Vec<(NodeKey, V)> = Vec::new();
        let mut i: usize = 0;
        while i < n
            invariant
                i <= n,
                self.index@.len() == n,
                old(self).index@.len() == n,
                old(self).wf(),
                m0 == old(self).nk_map(),
                self.index_mask == old(self).index_mask,
                self.count == old(self).count,
                forall|j: int| i <= j < n
                    ==> #[trigger] self.index@[j] == old(self).index@[j],
                pairs@.len() == avl_node::sum_lens(old(self).buckets().take(i as int)),
                forall|p: int, q: int| 0 <= p < q < pairs@.len()
                    ==> (#[trigger] pairs@[p]).0 != (#[trigger] pairs@[q]).0,
                forall|p: int| 0 <= p < pairs@.len()
                    ==> m0.dom().contains((#[trigger] pairs@[p]).0)
                        && m0[pairs@[p].0] == pairs@[p].1
                        && old(self).bucket_of(pairs@[p].0) < i,
                forall|k: NodeKey| #[trigger] m0.dom().contains(k)
                    && old(self).bucket_of(k) < i
                    ==> avl_node::has_pair(pairs@, k, m0[k]),
            decreases n - i,
        {
            let ghost pairs0 = pairs@;
            let mut node = None;
            core::mem::swap(&mut node, &mut self.index[i].node);
            proof {
                assert(old(self).buckets()[i as int] == node);
                assert(AVLNode::<V>::opt_wf(old(self).buckets()[i as int]));
                avl_node::lemma_seq_map(node);
            }
            let ghost es = AVLNode::<V>::opt_seq(node);
            avl_node::convert_to_list(node, &mut pairs);
            proof {
                let bs0 = old(self).buckets();
                assert(bs0.take(i + 1).drop_last() =~= bs0.take(i as int));
                assert(bs0.take(i + 1).last() == bs0[i as int]);
                assert(avl_node::sum_lens(bs0.take(i + 1))
                    == avl_node::sum_lens(bs0.take(i as int)) + es.len());
                let em = AVLNode::<V>::opt_as_map(old(self).buckets()[i as int]);
                // every pair of this bucket is routed to bucket i and is in
                // the global map
                assert forall|p: int| 0 <= p < pairs@.len() implies
                    m0.dom().contains((#[trigger] pairs@[p]).0)
                        && m0[pairs@[p].0] == pairs@[p].1
                        && old(self).bucket_of(pairs@[p].0) < i + 1 by {
                    if p < pairs0.len() {
                        assert(pairs@[p] == pairs0[p]);
                    } else {
                        let q = p - pairs0.len();
                        assert(pairs@[p] == es[q]);
                        assert(em.dom().contains(es[q].0));
                        assert(old(self).bucket_of(es[q].0) == i as int);
                        assert(m0.dom().contains(es[q].0));
                        assert(m0[es[q].0] == em[es[q].0]);
                    }
                }
                assert forall|p: int, q: int| 0 <= p < q < pairs@.len() implies
                    (#[trigger] pairs@[p]).0 != (#[trigger] pairs@[q]).0 by {
                    if p < pairs0.len() && q >= pairs0.len() {
                        assert(old(self).bucket_of(pairs@[p].0) < i as int);
                        assert(old(self).bucket_of(pairs@[q].0) == i as int);
                    } else if p >= pairs0.len() {
                        assert(key_lt(es[p - pairs0.len()].0, es[q - pairs0.len()].0));
                    }
                }
                assert forall|k: NodeKey| #[trigger] m0.dom().contains(k)
                    && old(self).bucket_of(k) < i + 1
                    implies avl_node::has_pair(pairs@, k, m0[k]) by {
                    if old(self).bucket_of(k) < i as int {
                        let p = choose|p: int| 0 <= p < pairs0.len()
                            && (#[trigger] pairs0[p]).0 == k && pairs0[p].1 == m0[k];
                        assert(pairs@[p].0 == k && pairs@[p].1 == m0[k]);
                    } else {
                        assert(em.dom().contains(k) && em[k] == m0[k]);
                        let q = choose|q: int| 0 <= q < es.len()
                            && (#[trigger] es[q]) == (k, em[k]);
                        assert(pairs@[pairs0.len() + q].0 == k
                            && pairs@[pairs0.len() + q].1 == m0[k]);
                    }
                }
            }
            i = i + 1;
        }
        proof {
            assert(old(self).buckets().take(n as int) =~= old(self).buckets());
            assert(pairs@.len() == old(self).spec_size());
            assert forall|k: NodeKey| #[trigger] m0.dom().contains(k)
                implies avl_node::has_pair(pairs@, k, m0[k]) by {
                lemma_mask_bound(k.hash, old(self).index_mask as u64);
            }
        }
        // a fresh bucket array, then one re-insert per node
        let mut fresh: HashTable<V> = HashTable::with_index_size(new_index_size);
        core::mem::swap(self, &mut fresh);
        let ghost total = pairs@.len() as int;
        let mut j: usize = 0;
        let mut rest = pairs;
        let ghost pv = rest@;
        // consume from the back; order among distinct keys does not matter
        while rest.len() > 0
            invariant
                self.wf(),
                rest@ == pv.take(rest@.len() as int),
                rest@.len() <= pv.len(),
                pv.len() <= usize::MAX,
                self.spec_index_size() == new_index_size,
                forall|p: int, q: int| 0 <= p < q < pv.len()
                    ==> (#[trigger] pv[p]).0 != (#[trigger] pv[q]).0,
                self.spec_size() == pv.len() - rest@.len(),
                forall|k: NodeKey| #[trigger] self.nk_map().dom().contains(k)
                    <==> exists|p: int| rest@.len() <= p < pv.len()
                        && (#[trigger] pv[p]).0 == k,
                forall|p: int| rest@.len() <= p < pv.len()
                    ==> self.nk_map().dom().contains((#[trigger] pv[p]).0)
                        && self.nk_map()[pv[p].0] == pv[p].1,
            decreases rest@.len(),
        {
            let ghost before = self.nk_map();
            let ghost rl = rest@.len() as int;
            let p = rest.pop().unwrap();
            proof {
                assert(rest@ =~= pv.take(rest@.len() as int));
                if before.dom().contains(pv[rl - 1].0) {
                    let q = choose|q: int| rl <= q < pv.len()
                        && (#[trigger] pv[q]).0 == pv[rl - 1].0;
                    assert(false);
                }
            }
            let _ = self.hash_add(p.0.hash, p.0.key, p.1);
            proof {
                assert forall|k: NodeKey| #[trigger] self.nk_map().dom().contains(k)
                    implies exists|q: int| rest@.len() <= q < pv.len()
                        && (#[trigger] pv[q]).0 == k by {
                    if k == pv[rl - 1].0 {
                        assert(pv[rl - 1].0 == k);
                    } else {
                        assert(before.dom().contains(k));
                        let q = choose|q: int| rl <= q < pv.len()
                            && (#[trigger] pv[q]).0 == k;
                        assert(rest@.len() <= q < pv.len() && pv[q].0 == k);
                    }
                }
            }
        }
        proof {
            assert(pv =~= pairs@);
            assert forall|k: NodeKey| true implies
                (#[trigger] self.nk_map().dom().contains(k) == m0.dom().contains(k))
                && (self.nk_map().dom().contains(k)
                    ==> self.nk_map()[k] == m0[k]) by {
                if self.nk_map().dom().contains(k) {
                    let p = choose|p: int| 0 <= p < pv.len() && (#[trigger] pv[p]).0 == k;
                    assert(m0.dom().contains(pv[p].0));
                    assert(self.nk_map()[pv[p].0] == pv[p].1);
                    assert(m0[pv[p].0] == pv[p].1);
                }
                if m0.dom().contains(k) {
                    assert(avl_node::has_pair(pv, k, m0[k]));
                    let p = choose|p: int| 0 <= p < pv.len()
                        && (#[trigger] pv[p]).0 == k && pv[p].1 == m0[k];
                }
            }
            assert(self.nk_map() =~= m0);
        }
        true
    }
}

impl<V> HashTable<V> {
    /// Grows the bucket array, if needed, so that it holds at least one and
    /// a half buckets per expected element, by repeated doubling.
    pub fn rehash(&mut self, len: usize)
        requires
            old(self).wf(),
        ensures
            final(self).wf(),
            final(self).nk_map() == old(self).nk_map(),
            final(self).spec_size() == old(self).spec_size(),
            old(self).spec_index_size() >= spec_calc_limit(len as nat)
                ==> *final(self) == *old(self),
            old(self).spec_index_size() < spec_calc_limit(len as nat)
                ==> final(self).spec_index_size() == spec_grown_size(
                    old(self).spec_index_size(), spec_calc_limit(len as nat)),
            final(self).spec_index_size() >= old(self).spec_index_size(),
            final(self).spec_index_size() >= spec_calc_limit(len as nat),
    {
        let limit = calc_limit(len);
        let old_index_size = self.index.len();
        if old_index_size >= limit {
            return;
        }
        let mut need = old_index_size;
        let ghost limit0 = limit as nat;
        while need < limit
            invariant
                need >= 1,
                exists|e: nat| need == pow2(e),
                need <= 2 * limit,
                limit <= usize::MAX / 4,
                limit == limit0,
                spec_grown_size(need as nat, limit0)
                    == spec_grown_size(old(self).spec_index_size(), limit0),
            decreases 2 * limit - need,
        {
            proof {
                let e = choose|e: nat| need == pow2(e);
                assert(pow2(e + 1) == 2 * pow2(e)) by {
                    vstd::arithmetic::power2::lemma_pow2_unfold(e + 1);
                }
                assert(2 * need == pow2(e + 1));
            }
            need = need * 2;
        }
        let _ = self.hash_swap(need);
    }

    /// Borrows the value stored under a hash value and key mutably; the
    /// table afterwards holds whatever the caller wrote through the borrow.
    pub fn get_mut(&mut self, hash_val: HashUint, key: i64) -> (r: Option<&mut V>)
        requires
            old(self).wf(),
        ensures
            match r {
                Some(v) => {
                    &&& old(self).nk_map().dom().contains(NodeKey { hash: hash_val, key })
                    &&& *v == old(self).nk_map()[NodeKey { hash: hash_val, key }]
                    &&& Self::is_put(*old(self), *final(self),
                        NodeKey { hash: hash_val, key }, *final(v))
                },
                None => {
                    &&& !old(self).nk_map().dom().contains(NodeKey { hash: hash_val, key })
                    &&& Self::is_kept(*old(self), *final(self),
                        old(self).bucket_of(NodeKey { hash: hash_val, key }))
                },
            },
    {
        let nk = NodeKey { hash: hash_val, key };
        proof {
            lemma_mask_bound(hash_val, self.index_mask as u64);
            assert(self.buckets()[self.bucket_of(nk)]
                == self.index@[self.bucket_of(nk)].node);
            assert(AVLNode::<V>::opt_wf(self.buckets()[self.bucket_of(nk)]));
        }
        let b = (hash_val & (self.index_mask as u64)) as usize;
        avl_node::get_mut_opt(&mut self.index[b].node, nk)
    }

    /// The second table is the first with the value under `k` replaced by
    /// `v` in `k`'s bucket.
    pub closed spec fn is_put(t0: Self, t1: Self, k: NodeKey, v: V) -> bool {
        &&& t1.index_mask == t0.index_mask
        &&& t1.count == t0.count
        &&& t0.bucket_of(k) < t0.index@.len()
        &&& t1.index@ == t0.index@.update(t0.bucket_of(k), AVLRoot {
            node: AVLNode::<V>::value_put(
                t0.index@[t0.bucket_of(k)].node, k, v),
        })
    }

    /// The second table is the first with one bucket written back
    /// unchanged.
    pub closed spec fn is_kept(t0: Self, t1: Self, b: int) -> bool {
        &&& t1.index_mask == t0.index_mask
        &&& t1.count == t0.count
        &&& 0 <= b < t0.index@.len()
        &&& t1.index@ == t0.index@.update(b, t0.index@[b])
    }
}

/// A value replacement in one bucket keeps the table well formed and
/// updates its map at just that key.
pub broadcast proof fn lemma_table_put<V>(t0: HashTable<V>, t1: HashTable<V>, k: NodeKey, v: V)
    ensures
        (t0.wf() && #[trigger] HashTable::<V>::is_put(t0, t1, k, v)
            && t0.nk_map().dom().contains(k)) ==> {
            &&& t1.wf()
            &&& t1.nk_map() == t0.nk_map().insert(k, v)
            &&& t1.spec_size() == t0.spec_size()
            &&& t1.spec_index_size() == t0.spec_index_size()
        },
{
    if t0.wf() && HashTable::<V>::is_put(t0, t1, k, v) && t0.nk_map().dom().contains(k) {
        let b = t0.bucket_of(k);
        let o = t0.index@[b].node;
        assert(t0.buckets()[b] == o);
        assert(AVLNode::<V>::opt_wf(o));
        avl_node::lemma_value_put(o, k, v);
        let bs0 = t0.buckets();
        let bs1 = t1.buckets();
        assert(bs1 =~= bs0.update(b, AVLNode::<V>::value_put(o, k, v)));
        avl_node::lemma_sum_update(bs0, b, AVLNode::<V>::value_put(o, k, v));
        assert forall|i: int| 0 <= i < bs1.len() implies
            AVLNode::<V>::opt_wf(#[trigger] bs1[i]) by {
            if i != b {
                assert(bs1[i] == bs0[i]);
            }
        }
        assert forall|i: int, k2: NodeKey| 0 <= i < bs1.len()
            && #[trigger] AVLNode::<V>::opt_as_map(bs1[i]).dom().contains(k2)
            implies t1.bucket_of(k2) == i by {
            if i == b {
                if k2 != k {
                    assert(AVLNode::<V>::opt_as_map(bs0[i]).dom().contains(k2));
                }
            } else {
                assert(bs1[i] == bs0[i]);
                assert(AVLNode::<V>::opt_as_map(bs0[i]).dom().contains(k2));
            }
        }
        assert(t1.wf());
        assert forall|k2: NodeKey| true implies
            (#[trigger] t1.nk_map().dom().contains(k2)
                == t0.nk_map().insert(k, v).dom().contains(k2))
            && (t1.nk_map().dom().contains(k2)
                ==> t1.nk_map()[k2] == t0.nk_map().insert(k, v)[k2]) by {
            lemma_mask_bound(k2.hash, t1.index_mask as u64);
            if t1.bucket_of(k2) != b {
                assert(bs1[t1.bucket_of(k2)] == bs0[t1.bucket_of(k2)]);
            }
        }
        assert(t1.nk_map() =~= t0.nk_map().insert(k, v));
    }
}

/// Writing a bucket back unchanged leaves the table as it was.
pub broadcast proof fn lemma_table_kept<V>(t0: HashTable<V>, t1: HashTable<V>, b: int)
    ensures
        (t0.wf() && #[trigger] HashTable::<V>::is_kept(t0, t1, b)) ==> {
            &&& t1.wf()
            &&& t1.nk_map() == t0.nk_map()
            &&& t1.spec_size() == t0.spec_size()
            &&& t1.spec_index_size() == t0.spec_index_size()
        },
{
    if t0.wf() && HashTable::<V>::is_kept(t0, t1, b) {
        assert(t1.index@ =~= t0.index@);
        assert(t1.buckets() =~= t0.buckets());
        assert(t1.wf());
        assert forall|k2: NodeKey| true implies
            (#[trigger] t1.nk_map().dom().contains(k2)
                == t0.nk_map().dom().contains(k2))
            && (t1.nk_map().dom().contains(k2)
                ==> t1.nk_map()[k2] == t0.nk_map()[k2]) by {
            lemma_mask_bound(k2.hash, t1.index_mask as u64);
        }
        assert(t1.nk_map() =~= t0.nk_map());
    }
}

impl<V> HashTable<V> {
    /// The first stored pair in whole-table iteration order: lowest
    /// non-empty bucket, then smallest node key within it.
    pub fn node_first(&self) -> (r: Option<(NodeKey, &V)>)
        requires
            self.wf(),
        ensures
            match r {
                None => self.nk_map().dom() =~= Set::empty(),
                Some(p) => {
                    &&& self.nk_map().dom().contains(p.0)
                    &&& *p.1 == self.nk_map()[p.0]
                    &&& forall|k| #[trigger] self.nk_map().dom().contains(k)
                        ==> k == p.0 || self.hord(p.0, k)
                },
            },
    {
        let n = self.index.len();
        let mut i: usize = 0;
        while i < n
            invariant
                self.wf(),
                i <= n,
                n == self.index@.len(),
                forall|j: int| 0 <= j < i ==> (#[trigger] self.buckets()[j]) is None,
            decreases n - i,
        {
            proof {
                assert(self.buckets()[i as int] == self.index@[i as int].node);
                assert(AVLNode::<V>::opt_wf(self.buckets()[i as int]));
            }
            match avl_node::first_node(&self.index[i].node) {
                Some(p) => {
                    proof {
                        let em = AVLNode::<V>::opt_as_map(self.buckets()[i as int]);
                        assert(em.dom().contains(p.0));
                        assert(self.bucket_of(p.0) == i as int);
                        assert forall|k| #[trigger] self.nk_map().dom().contains(k)
                            implies k == p.0 || self.hord(p.0, k) by {
                            lemma_mask_bound(k.hash, self.index_mask as u64);
                            if self.bucket_of(k) < i as int {
                                assert(self.buckets()[self.bucket_of(k)] is None);
                                assert(AVLNode::<V>::opt_as_map(
                                    None::<Box<AVLNode<V>>>) =~= Map::<NodeKey, V>::empty());
                            } else if self.bucket_of(k) == i as int {
                                assert(em.dom().contains(k));
                            }
                        }
                    }
                    return Some(p);
                },
                None => {
                    proof {
                        assert(AVLNode::<V>::opt_as_map(self.buckets()[i as int]).dom()
                            =~= Set::empty());
                        avl_node::lemma_seq_map(self.buckets()[i as int]);
                        if self.buckets()[i as int] is Some {
                            let x = self.buckets()[i as int].unwrap();
                            assert(x.in_seq() == AVLNode::<V>::opt_seq(x.left)
                                + seq![(x.key, x.value)]
                                + AVLNode::<V>::opt_seq(x.right));
                            assert(false);
                        }
                    }
                },
            }
            i = i + 1;
        }
        proof {
            assert forall|k: NodeKey| !(#[trigger] self.nk_map().dom().contains(k)) by {
                lemma_mask_bound(k.hash, self.index_mask as u64);
                assert(self.buckets()[self.bucket_of(k)] is None);
                assert(AVLNode::<V>::opt_as_map(None::<Box<AVLNode<V>>>)
                    =~= Map::<NodeKey, V>::empty());
            }
            assert(self.nk_map().dom() =~= Set::empty());
        }
        None
    }

    /// The last stored pair in whole-table iteration order.
    pub fn node_last(&self) -> (r: Option<(NodeKey, &V)>)
        requires
            self.wf(),
        ensures
            match r {
                None => self.nk_map().dom() =~= Set::empty(),
                Some(p) => {
                    &&& self.nk_map().dom().contains(p.0)
                    &&& *p.1 == self.nk_map()[p.0]
                    &&& forall|k| #[trigger] self.nk_map().dom().contains(k)
                        ==> k == p.0 || self.hord(k, p.0)
                },
            },
    {
        let n = self.index.len();
        let mut i: usize = n;
        while i > 0
            invariant
                self.wf(),
                i <= n,
                n == self.index@.len(),
                forall|j: int| i <= j < n ==> (#[trigger] self.buckets()[j]) is None,
            decreases i,
        {
            i = i - 1;
            proof {
                assert(self.buckets()[i as int] == self.index@[i as int].node);
                assert(AVLNode::<V>::opt_wf(self.buckets()[i as int]));
            }
            match avl_node::last_node(&self.index[i].node) {
                Some(p) => {
                    proof {
                        let em = AVLNode::<V>::opt_as_map(self.buckets()[i as int]);
                        assert(em.dom().contains(p.0));
                        assert(self.bucket_of(p.0) == i as int);
                        assert forall|k| #[trigger] self.nk_map().dom().contains(k)
                            implies k == p.0 || self.hord(k, p.0) by {
                            lemma_mask_bound(k.hash, self.index_mask as u64);
                            if self.bucket_of(k) > i as int {
                                assert(self.buckets()[self.bucket_of(k)] is None);
                                assert(AVLNode::<V>::opt_as_map(
                                    None::<Box<AVLNode<V>>>) =~= Map::<NodeKey, V>::empty());
                            } else if self.bucket_of(k) == i as int {
                                assert(em.dom().contains(k));
                            }
                        }
                    }
                    return Some(p);
                },
                None => {
                    proof {
                        assert(AVLNode::<V>::opt_as_map(self.buckets()[i as int]).dom()
                            =~= Set::empty());
                        avl_node::lemma_seq_map(self.buckets()[i as int]);
                        if self.buckets()[i as int] is Some {
                            let x = self.buckets()[i as int].unwrap();
                            assert(x.in_seq() == AVLNode::<V>::opt_seq(x.left)
                                + seq![(x.key, x.value)]
                                + AVLNode::<V>::opt_seq(x.right));
                            assert(false);
                        }
                    }
                },
            }
        }
        proof {
            assert forall|k: NodeKey| !(#[trigger] self.nk_map().dom().contains(k)) by {
                lemma_mask_bound(k.hash, self.index_mask as u64);
                assert(self.buckets()[self.bucket_of(k)] is None);
                assert(AVLNode::<V>::opt_as_map(None::<Box<AVLNode<V>>>)
                    =~= Map::<NodeKey, V>::empty());
            }
            assert(self.nk_map().dom() =~= Set::empty());
        }
        None
    }

    /// The stored pair that follows `cur` in whole-table iteration order:
    /// the next node of `cur`'s bucket, or the first node of the next
    /// non-empty bucket.
    pub fn node_next(&self, cur: NodeKey) -> (r: Option<(NodeKey, &V)>)
        requires
            self.wf(),
        ensures
            match r {
                None => forall|k| #[trigger] self.nk_map().dom().contains(k)
                    ==> !self.hord(cur, k),
                Some(p) => {
                    &&& self.nk_map().dom().contains(p.0)
                    &&& *p.1 == self.nk_map()[p.0]
                    &&& self.hord(cur, p.0)
                    &&& forall|k| #[trigger] self.nk_map().dom().contains(k)
                        && self.hord(cur, k) ==> k == p.0 || self.hord(p.0, k)
                },
            },
    {
        proof {
            lemma_mask_bound(cur.hash, self.index_mask as u64);
            assert(self.buckets()[self.bucket_of(cur)]
                == self.index@[self.bucket_of(cur)].node);
            assert(AVLNode::<V>::opt_wf(self.buckets()[self.bucket_of(cur)]));
        }
        let b = (cur.hash & (self.index_mask as u64)) as usize;
        match avl_node::succ_node(&self.index[b].node, cur) {
            Some(p) => {
                proof {
                    let em = AVLNode::<V>::opt_as_map(self.buckets()[b as int]);
                    assert(em.dom().contains(p.0));
                    assert(self.bucket_of(p.0) == b as int);
                    assert forall|k| #[trigger] self.nk_map().dom().contains(k)
                        && self.hord(cur, k) implies k == p.0 || self.hord(p.0, k) by {
                        lemma_mask_bound(k.hash, self.index_mask as u64);
                        if self.bucket_of(k) == b as int {
                            assert(em.dom().contains(k));
                            assert(key_lt(cur, k));
                        }
                    }
                }
                Some(p)
            },
            None => {
                let n = self.index.len();
                let mut i: usize = b + 1;
                while i < n
                    invariant
                        self.wf(),
                        b < i,
                        i <= n,
                        n == self.index@.len(),
                        b == self.bucket_of(cur),
                        forall|j: int| b < j < i
                            ==> (#[trigger] self.buckets()[j]) is None,
                        forall|k| #[trigger] AVLNode::<V>::opt_as_map(
                            self.buckets()[b as int]).dom().contains(k)
                            ==> !key_lt(cur, k),
                    decreases n - i,
                {
                    proof {
                        assert(self.buckets()[i as int] == self.index@[i as int].node);
                        assert(AVLNode::<V>::opt_wf(self.buckets()[i as int]));
                    }
                    match avl_node::first_node(&self.index[i].node) {
                        Some(p) => {
                            proof {
                                let em = AVLNode::<V>::opt_as_map(
                                    self.buckets()[i as int]);
                                assert(em.dom().contains(p.0));
                                assert(self.bucket_of(p.0) == i as int);
                                assert forall|k| #[trigger] self.nk_map().dom().contains(k)
                                    && self.hord(cur, k)
                                    implies k == p.0 || self.hord(p.0, k) by {
                                    lemma_mask_bound(k.hash, self.index_mask as u64);
                                    if self.bucket_of(k) == b as int {
                                        assert(AVLNode::<V>::opt_as_map(
                                            self.buckets()[b as int]).dom().contains(k));
                                    } else if (b as int) < self.bucket_of(k)
                                        && self.bucket_of(k) < i as int {
                                        assert(self.buckets()[self.bucket_of(k)] is None);
                                        assert(AVLNode::<V>::opt_as_map(
                                            None::<Box<AVLNode<V>>>)
                                            =~= Map::<NodeKey, V>::empty());
                                    } else if self.bucket_of(k) == i as int {
                                        assert(em.dom().contains(k));
                                    }
                                }
                            }
                            return Some(p);
                        },
                        None => {
                            proof {
                                assert(AVLNode::<V>::opt_as_map(
                                    self.buckets()[i as int]).dom() =~= Set::empty());
                                avl_node::lemma_seq_map(self.buckets()[i as int]);
                                if self.buckets()[i as int] is Some {
                                    let x = self.buckets()[i as int].unwrap();
                                    assert(x.in_seq() == AVLNode::<V>::opt_seq(x.left)
                                        + seq![(x.key, x.value)]
                                        + AVLNode::<V>::opt_seq(x.right));
                                    assert(false);
                                }
                            }
                        },
                    }
                    i = i + 1;
                }
                proof {
                    assert forall|k| #[trigger] self.nk_map().dom().contains(k)
                        implies !self.hord(cur, k) by {
                        lemma_mask_bound(k.hash, self.index_mask as u64);
                        if self.bucket_of(k) == b as int {
                            assert(AVLNode::<V>::opt_as_map(
                                self.buckets()[b as int]).dom().contains(k));
                        } else if (b as int) < self.bucket_of(k) {
                            assert(self.buckets()[self.bucket_of(k)] is None);
                            assert(AVLNode::<V>::opt_as_map(None::<Box<AVLNode<V>>>)
                                =~= Map::<NodeKey, V>::empty());
                        }
                    }
                }
                None
            },
        }
    }

    /// The stored pair that precedes `cur` in whole-table iteration order.
    pub fn node_prev(&self, cur: NodeKey) -> (r: Option<(NodeKey, &V)>)
        requires
            self.wf(),
        ensures
            match r {
                None => forall|k| #[trigger] self.nk_map().dom().contains(k)
                    ==> !self.hord(k, cur),
                Some(p) => {
                    &&& self.nk_map().dom().contains(p.0)
                    &&& *p.1 == self.nk_map()[p.0]
                    &&& self.hord(p.0, cur)
                    &&& forall|k| #[trigger] self.nk_map().dom().contains(k)
                        && self.hord(k, cur) ==> k == p.0 || self.hord(k, p.0)
                },
            },
    {
        proof {
            lemma_mask_bound(cur.hash, self.index_mask as u64);
            assert(self.buckets()[self.bucket_of(cur)]
                == self.index@[self.bucket_of(cur)].node);
            assert(AVLNode::<V>::opt_wf(self.buckets()[self.bucket_of(cur)]));
        }
        let b = (cur.hash & (self.index_mask as u64)) as usize;
        match avl_node::pred_node(&self.index[b].node, cur) {
            Some(p) => {
                proof {
                    let em = AVLNode::<V>::opt_as_map(self.buckets()[b as int]);
                    assert(em.dom().contains(p.0));
                    assert(self.bucket_of(p.0) == b as int);
                    assert forall|k| #[trigger] self.nk_map().dom().contains(k)
                        && self.hord(k, cur) implies k == p.0 || self.hord(k, p.0) by {
                        lemma_mask_bound(k.hash, self.index_mask as u64);
                        if self.bucket_of(k) == b as int {
                            assert(em.dom().contains(k));
                            assert(key_lt(k, cur));
                        }
                    }
                }
                Some(p)
            },
            None => {
                let mut i: usize = b;
                while i > 0
                    invariant
                        self.wf(),
                        i <= b,
                        b < self.index@.len(),
                        b == self.bucket_of(cur),
                        forall|j: int| i <= j < b
                            ==> (#[trigger] self.buckets()[j]) is None,
                        forall|k| #[trigger] AVLNode::<V>::opt_as_map(
                            self.buckets()[b as int]).dom().contains(k)
                            ==> !key_lt(k, cur),
                    decreases i,
                {
                    i = i - 1;
                    proof {
                        assert(self.buckets()[i as int] == self.index@[i as int].node);
                        assert(AVLNode::<V>::opt_wf(self.buckets()[i as int]));
                    }
                    match avl_node::last_node(&self.index[i].node) {
                        Some(p) => {
                            proof {
                                let em = AVLNode::<V>::opt_as_map(
                                    self.buckets()[i as int]);
                                assert(em.dom().contains(p.0));
                                assert(self.bucket_of(p.0) == i as int);
                                assert forall|k| #[trigger] self.nk_map().dom().contains(k)
                                    && self.hord(k, cur)
                                    implies k == p.0 || self.hord(k, p.0) by {
                                    lemma_mask_bound(k.hash, self.index_mask as u64);
                                    if self.bucket_of(k) == b as int {
                                        assert(AVLNode::<V>::opt_as_map(
                                            self.buckets()[b as int]).dom().contains(k));
                                    } else if (i as int) < self.bucket_of(k)
                                        && self.bucket_of(k) < b as int {
                                        assert(self.buckets()[self.bucket_of(k)] is None);
                                        assert(AVLNode::<V>::opt_as_map(
                                            None::<Box<AVLNode<V>>>)
                                            =~= Map::<NodeKey, V>::empty());
                                    } else if self.bucket_of(k) == i as int {
                                        assert(em.dom().contains(k));
                                    }
                                }
                            }
                            return Some(p);
                        },
                        None => {
                            proof {
                                assert(AVLNode::<V>::opt_as_map(
                                    self.buckets()[i as int]).dom() =~= Set::empty());
                                avl_node::lemma_seq_map(self.buckets()[i as int]);
                                if self.buckets()[i as int] is Some {
                                    let x = self.buckets()[i as int].unwrap();
                                    assert(x.in_seq() == AVLNode::<V>::opt_seq(x.left)
                                        + seq![(x.key, x.value)]
                                        + AVLNode::<V>::opt_seq(x.right));
                                    assert(false);
                                }
                            }
                        },
                    }
                }
                proof {
                    assert forall|k| #[trigger] self.nk_map().dom().contains(k)
                        implies !self.hord(k, cur) by {
                        lemma_mask_bound(k.hash, self.index_mask as u64);
                        if self.bucket_of(k) == b as int {
                            assert(AVLNode::<V>::opt_as_map(
                                self.buckets()[b as int]).dom().contains(k));
                        } else if self.bucket_of(k) < b as int {
                            assert(self.buckets()[self.bucket_of(k)] is None);
                            assert(AVLNode::<V>::opt_as_map(None::<Box<AVLNode<V>>>)
                                =~= Map::<NodeKey, V>::empty());
                        }
                    }
                }
                None
            },
        }
    }

    /// The size of the most loaded bucket.
    pub fn get_max_node_of_single_index(&self) -> (r: usize)
        requires
            self.wf(),
        ensures
            r == avl_node::max_bucket_len(self.buckets()),
            forall|j: int| 0 <= j < self.buckets().len()
                ==> AVLNode::<V>::opt_seq(#[trigger] self.buckets()[j]).len() <= r,
            r <= self.spec_size(),
    {
        let n = self.index.len();
        let mut best: usize = 0;
        let mut i: usize = 0;
        proof {
            assert(avl_node::max_bucket_len(self.buckets().take(0)) == 0);
        }
        while i < n
            invariant
                self.wf(),
                i <= n,
                n == self.index@.len(),
                best == avl_node::max_bucket_len(self.buckets().take(i as int)),
                forall|j: int| 0 <= j < i
                    ==> AVLNode::<V>::opt_seq(#[trigger] self.buckets()[j]).len() <= best,
                best <= self.spec_size(),
            decreases n - i,
        {
            proof {
                assert(self.buckets()[i as int] == self.index@[i as int].node);
                avl_node::lemma_sum_bound(self.buckets(), i as int);
                assert(self.buckets().take(i + 1).drop_last()
                    =~= self.buckets().take(i as int));
                assert(self.buckets().take(i + 1).last() == self.buckets()[i as int]);
            }
            let c = avl_node::get_node_num(&self.index[i].node);
            if c > best {
                best = c;
            }
            i = i + 1;
        }
        proof {
            assert(self.buckets().take(n as int) =~= self.buckets());
        }
        best
    }

    /// Detaches and returns the tree of the first non-empty bucket, leaving
    /// that bucket empty; nothing when the table is empty.
    pub fn pop_first_index(&mut self) -> (r: OptNode<V>)
        requires
            old(self).wf(),
        ensures
            final(self).wf(),
            final(self).spec_index_size() == old(self).spec_index_size(),
            r is None ==> old(self).nk_map().dom() =~= Set::empty()
                && *final(self) == *old(self),
            r is Some ==> {
                &&& AVLNode::<V>::opt_wf(r)
                &&& forall|k| #[trigger] AVLNode::<V>::opt_as_map(r).dom().contains(k)
                    ==> old(self).nk_map().dom().contains(k)
                        && old(self).nk_map()[k] == AVLNode::<V>::opt_as_map(r)[k]
                &&& forall|k| #[trigger] final(self).nk_map().dom().contains(k)
                    <==> old(self).nk_map().dom().contains(k)
                        && !AVLNode::<V>::opt_as_map(r).dom().contains(k)
                &&& forall|k| #[trigger] final(self).nk_map().dom().contains(k)
                    ==> final(self).nk_map()[k] == old(self).nk_map()[k]
            },
    {
        let n = self.index.len();
        let mut i: usize = 0;
        while i < n
            invariant
                self.wf(),
                *self == *old(self),
                i <= n,
                n == self.index@.len(),
                forall|j: int| 0 <= j < i ==> (#[trigger] self.buckets()[j]) is None,
            decreases n - i,
        {
            if self.index[i].node.is_some() {
                let ghost bs0 = self.buckets();
                let mut node = None;
                core::mem::swap(&mut node, &mut self.index[i].node);
                proof {
                    assert(bs0[i as int] == node);
                    assert(AVLNode::<V>::opt_wf(node));
                    avl_node::lemma_seq_map(node);
                    avl_node::lemma_sum_update(bs0, i as int, None);
                }
                let num = avl_node::get_node_num(&node);
                self.count = self.count - num;
                proof {
                    let bs = self.buckets();
                    assert(bs =~= bs0.update(i as int, None));
                    assert forall|bi: int, k: NodeKey| 0 <= bi < bs.len()
                        && #[trigger] AVLNode::<V>::opt_as_map(bs[bi]).dom().contains(k)
                        implies self.bucket_of(k) == bi by {
                        if bi != i as int {
                            assert(AVLNode::<V>::opt_as_map(bs0[bi]).dom().contains(k));
                        } else {
                            assert(AVLNode::<V>::opt_as_map(None::<Box<AVLNode<V>>>)
                                =~= Map::<NodeKey, V>::empty());
                        }
                    }
                    assert(self.wf());
                    assert forall|k: NodeKey| true implies
                        ((#[trigger] self.nk_map().dom().contains(k)
                            <==> old(self).nk_map().dom().contains(k)
                                && !AVLNode::<V>::opt_as_map(node).dom().contains(k))
                        && (self.nk_map().dom().contains(k)
                            ==> self.nk_map()[k] == old(self).nk_map()[k])) by {
                        lemma_mask_bound(k.hash, self.index_mask as u64);
                        if self.bucket_of(k) != i as int {
                            assert(bs[self.bucket_of(k)] == bs0[self.bucket_of(k)]);
                            if AVLNode::<V>::opt_as_map(node).dom().contains(k) {
                                assert(self.bucket_of(k) == i as int);
                            }
                        } else {
                            assert(AVLNode::<V>::opt_as_map(None::<Box<AVLNode<V>>>)
                                =~= Map::<NodeKey, V>::empty());
                        }
                    }
                    assert forall|k| #[trigger] AVLNode::<V>::opt_as_map(node)
                        .dom().contains(k)
                        implies old(self).nk_map().dom().contains(k)
                            && old(self).nk_map()[k]
                                == AVLNode::<V>::opt_as_map(node)[k] by {
                        assert(self.bucket_of(k) == i as int);
                    }
                }
                return node;
            }
            proof {
                assert(self.buckets()[i as int] == self.index@[i as int].node);
            }
            i = i + 1;
        }
        proof {
            assert forall|k: NodeKey| !(#[trigger] self.nk_map().dom().contains(k)) by {
                lemma_mask_bound(k.hash, self.index_mask as u64);
                assert(self.buckets()[self.bucket_of(k)] is None);
                assert(AVLNode::<V>::opt_as_map(None::<Box<AVLNode<V>>>)
                    =~= Map::<NodeKey, V>::empty());
            }
            assert(self.nk_map().dom() =~= Set::empty());
        }
        None
    }
}

impl<V> HashTable<V> {
    /// Takes every stored pair out of the table, leaving it empty; used to
    /// hand the content to owning iterators.
    pub fn take_pairs(&mut self) -> (r: Vec<(NodeKey, V)>)
        requires
            old(self).wf(),
        ensures
            final(self).wf(),
            final(self).nk_map() == Map::<NodeKey, V>::empty(),
            final(self).spec_index_size() == old(self).spec_index_size(),
            final(self).spec_size() == 0,
            r@.len() == old(self).spec_size(),
            forall|p: int, q: int| 0 <= p < q < r@.len()
                ==> (#[trigger] r@[p]).0 != (#[trigger] r@[q]).0,
            forall|p: int| 0 <= p < r@.len()
                ==> old(self).nk_map().dom().contains((#[trigger] r@[p]).0)
                    && old(self).nk_map()[r@[p].0] == r@[p].1,
            forall|k: NodeKey| #[trigger] old(self).nk_map().dom().contains(k)
                ==> avl_node::has_pair(r@, k, old(self).nk_map()[k]),
    {
        let ghost m0 = old(self).nk_map();
        let n = self.index.len();
        let mut pairs: Vec<(NodeKey, V)> = Vec::new();
        let mut i: usize = 0;
        while i < n
            invariant
                i <= n,
                self.index@.len() == n,
                old(self).index@.len() == n,
                old(self).wf(),
                m0 == old(self).nk_map(),
                self.index_mask == old(self).index_mask,
                self.count == old(self).count,
                forall|j: int| i <= j < n
                    ==> #[trigger] self.index@[j] == old(self).index@[j],
                forall|j: int| 0 <= j < i ==> (#[trigger] self.index@[j]).node is None,
                pairs@.len() == avl_node::sum_lens(old(self).buckets().take(i as int)),
                forall|p: int, q: int| 0 <= p < q < pairs@.len()
                    ==> (#[trigger] pairs@[p]).0 != (#[trigger] pairs@[q]).0,
                forall|p: int| 0 <= p < pairs@.len()
                    ==> m0.dom().contains((#[trigger] pairs@[p]).0)
                        && m0[pairs@[p].0] == pairs@[p].1
                        && old(self).bucket_of(pairs@[p].0) < i,
                forall|k: NodeKey| #[trigger] m0.dom().contains(k)
                    && old(self).bucket_of(k) < i
                    ==> avl_node::has_pair(pairs@, k, m0[k]),
            decreases n - i,
        {
            let ghost pairs0 = pairs@;
            let mut node = None;
            core::mem::swap(&mut node, &mut self.index[i].node);
            proof {
                assert(old(self).buckets()[i as int] == node);
                assert(AVLNode::<V>::opt_wf(old(self).buckets()[i as int]));
                avl_node::lemma_seq_map(node);
            }
            let ghost es = AVLNode::<V>::opt_seq(node);
            avl_node::convert_to_list(node, &mut pairs);
            proof {
                let bs0 = old(self).buckets();
                assert(bs0.take(i + 1).drop_last() =~= bs0.take(i as int));
                assert(bs0.take(i + 1).last() == bs0[i as int]);
                assert(avl_node::sum_lens(bs0.take(i + 1))
                    == avl_node::sum_lens(bs0.take(i as int)) + es.len());
                let em = AVLNode::<V>::opt_as_map(old(self).buckets()[i as int]);
                assert forall|p: int| 0 <= p < pairs@.len() implies
                    m0.dom().contains((#[trigger] pairs@[p]).0)
                        && m0[pairs@[p].0] == pairs@[p].1
                        && old(self).bucket_of(pairs@[p].0) < i + 1 by {
                    if p < pairs0.len() {
                        assert(pairs@[p] == pairs0[p]);
                    } else {
                        let q = p - pairs0.len();
                        assert(pairs@[p] == es[q]);
                        assert(em.dom().contains(es[q].0));
                        assert(old(self).bucket_of(es[q].0) == i as int);
                        assert(m0.dom().contains(es[q].0));
                        assert(m0[es[q].0] == em[es[q].0]);
                    }
                }
                assert forall|p: int, q: int| 0 <= p < q < pairs@.len() implies
                    (#[trigger] pairs@[p]).0 != (#[trigger] pairs@[q]).0 by {
                    if p < pairs0.len() && q >= pairs0.len() {
                        assert(old(self).bucket_of(pairs@[p].0) < i as int);
                        assert(old(self).bucket_of(pairs@[q].0) == i as int);
                    } else if p >= pairs0.len() {
                        assert(key_lt(es[p - pairs0.len()].0, es[q - pairs0.len()].0));
                    }
                }
                assert forall|k: NodeKey| #[trigger] m0.dom().contains(k)
                    && old(self).bucket_of(k) < i + 1
                    implies avl_node::has_pair(pairs@, k, m0[k]) by {
                    if old(self).bucket_of(k) < i as int {
                        let p = choose|p: int| 0 <= p < pairs0.len()
                            && (#[trigger] pairs0[p]).0 == k && pairs0[p].1 == m0[k];
                        assert(pairs@[p].0 == k && pairs@[p].1 == m0[k]);
                    } else {
                        assert(em.dom().contains(k) && em[k] == m0[k]);
                        let q = choose|q: int| 0 <= q < es.len()
                            && (#[trigger] es[q]) == (k, em[k]);
                        assert(pairs@[pairs0.len() + q].0 == k
                            && pairs@[pairs0.len() + q].1 == m0[k]);
                    }
                }
            }
            i = i + 1;
        }
        self.count = 0;
        proof {
            assert(old(self).buckets().take(n as int) =~= old(self).buckets());
            avl_node::lemma_sum_zero(self.buckets());
            assert forall|k: NodeKey| !(#[trigger] self.nk_map().dom().contains(k)) by {
                lemma_mask_bound(k.hash, self.index_mask as u64);
                assert(self.buckets()[self.bucket_of(k)]
                    == self.index@[self.bucket_of(k)].node);
                assert(self.buckets()[self.bucket_of(k)] is None);
                assert(AVLNode::<V>::opt_as_map(None::<Box<AVLNode<V>>>)
                    =~= Map::<NodeKey, V>::empty());
            }
            assert(self.nk_map() =~= Map::<NodeKey, V>::empty());
            assert forall|k: NodeKey| #[trigger] m0.dom().contains(k)
                implies avl_node::has_pair(pairs@, k, m0[k]) by {
                lemma_mask_bound(k.hash, old(self).index_mask as u64);
            }
            assert(self.wf());
        }
        pairs
    }

    /// Searches for a node key with no assumption about the table; on a
    /// well-formed table this is the ordinary lookup.
    pub fn find_unchecked(&self, nk: NodeKey) -> (r: Option<&V>)
    {
        let b = (nk.hash & (self.index_mask as u64)) as usize;
        if b < self.index.len() {
            avl_node::find_unchecked(&self.index[b].node, nk)
        } else {
            None
        }
    }

    /// All stored pairs, values by reference, with no assumption about the
    /// table.
    pub fn collect_all_refs(&self) -> (r: Vec<(NodeKey, &V)>)
    {
        let n = self.index.len();
        let mut out: Vec<(NodeKey, &V)> = Vec::new();
        let mut i: usize = 0;
        while i < n
            invariant
                i <= n,
                n == self.index@.len(),
            decreases n - i,
        {
            avl_node::collect_refs(&self.index[i].node, &mut out);
            i = i + 1;
        }
        out
    }

    /// Deep-copies the table, keeping shape and keys exactly; each value is
    /// whatever `V::clone` returns.
    pub fn clone_table(&self) -> (r: Self) where V: Clone
        ensures
            self.wf() ==> r.wf(),
            self.wf() ==> r.nk_map().dom() =~= self.nk_map().dom(),
            self.wf() ==> forall|k: NodeKey| #[trigger] self.nk_map().dom().contains(k)
                ==> vstd::pervasive::cloned::<V>(self.nk_map()[k], r.nk_map()[k]),
            r.spec_index_size() == self.spec_index_size(),
            self.wf() ==> r.spec_size() == self.spec_size(),
    {
        let n = self.index.len();
        let mut index: Vec<AVLRoot<V>> = Vec::new();
        let mut i: usize = 0;
        while i < n
            invariant
                i <= n,
                n == self.index@.len(),
                index@.len() == i,
                forall|j: int| 0 <= j < i ==> {
                    &&& (AVLNode::<V>::opt_wf(self.buckets()[j])
                        ==> AVLNode::<V>::opt_wf((#[trigger] index@[j]).node))
                    &&& AVLNode::<V>::opt_as_map(index@[j].node).dom()
                        =~= AVLNode::<V>::opt_as_map(self.buckets()[j]).dom()
                    &&& (forall|k: NodeKey| #[trigger] AVLNode::<V>::opt_as_map(
                        self.buckets()[j]).dom().contains(k)
                        ==> vstd::pervasive::cloned::<V>(
                            AVLNode::<V>::opt_as_map(self.buckets()[j])[k],
                            AVLNode::<V>::opt_as_map(index@[j].node)[k]))
                    &&& AVLNode::<V>::opt_seq(index@[j].node).len()
                        == AVLNode::<V>::opt_seq(self.buckets()[j]).len()
                },
            decreases n - i,
        {
            proof {
                assert(self.buckets()[i as int] == self.index@[i as int].node);
            }
            let node = avl_node::clone_opt(&self.index[i].node);
            index.push(AVLRoot { node });
            i = i + 1;
        }
        let r = HashTable { index, index_mask: self.index_mask, count: self.count };
        proof {
            if self.wf() {
                assert forall|k: NodeKey| true implies
                    (#[trigger] r.nk_map().dom().contains(k)
                        == self.nk_map().dom().contains(k)) by {
                    lemma_mask_bound(k.hash, r.index_mask as u64);
                }
                assert(r.nk_map().dom() =~= self.nk_map().dom());
                assert forall|k: NodeKey| #[trigger] self.nk_map().dom().contains(k)
                    implies vstd::pervasive::cloned::<V>(
                        self.nk_map()[k], r.nk_map()[k]) by {
                    lemma_mask_bound(k.hash, r.index_mask as u64);
                    assert(AVLNode::<V>::opt_as_map(
                        self.buckets()[self.bucket_of(k)]).dom().contains(k));
                }
                assert forall|j: int| 0 <= j < r.buckets().len()
                    implies AVLNode::<V>::opt_seq(#[trigger] r.buckets()[j]).len()
                        == AVLNode::<V>::opt_seq(self.buckets()[j]).len() by {}
                avl_node::lemma_sum_lens_congruent(r.buckets(), self.buckets());
                assert(avl_node::sum_lens(r.buckets())
                    == avl_node::sum_lens(self.buckets()));
                assert forall|i2: int| 0 <= i2 < r.buckets().len()
                    implies AVLNode::<V>::opt_wf(#[trigger] r.buckets()[i2]) by {
                    assert(AVLNode::<V>::opt_wf(self.buckets()[i2]));
                }
                assert forall|i2: int, k: NodeKey| 0 <= i2 < r.buckets().len()
                    && #[trigger] AVLNode::<V>::opt_as_map(
                        r.buckets()[i2]).dom().contains(k)
                    implies r.bucket_of(k) == i2 by {
                    assert(AVLNode::<V>::opt_as_map(
                        self.buckets()[i2]).dom().contains(k));
                }
                assert(r.wf());
            }
        }
        r
    }
}

impl<V> HashTable<V> {
    /// The routed-key set of a row of buckets: the keys a router sends into
    /// range that their bucket indeed stores.
    pub open spec fn routed_dom(bs: Seq<OptNode<V>>, route: spec_fn(NodeKey) -> int)
        -> Set<NodeKey> {
        Set::new(|k: NodeKey| 0 <= route(k) < bs.len()
            && AVLNode::<V>::opt_as_map(bs[route(k)]).dom().contains(k))
    }

    /// When every stored key is routed to its own bucket, the routed-key
    /// set is finite and as large as the row's total node count.
    proof fn lemma_routed_dom(bs: Seq<OptNode<V>>, route: spec_fn(NodeKey) -> int)
        requires
            forall|i: int| 0 <= i < bs.len()
                ==> AVLNode::<V>::bst_ordered(#[trigger] bs[i]),
            forall|i: int, k: NodeKey| 0 <= i < bs.len()
                && #[trigger] AVLNode::<V>::opt_as_map(bs[i]).dom().contains(k)
                ==> route(k) == i,
        ensures
            Self::routed_dom(bs, route).finite(),
            Self::routed_dom(bs, route).len() == avl_node::sum_lens(bs),
        decreases bs.len(),
    {
        if bs.len() == 0 {
            assert(Self::routed_dom(bs, route) =~= Set::empty());
        } else {
            let head = bs.drop_last();
            let last = bs.last();
            assert forall|i: int| 0 <= i < head.len()
                implies AVLNode::<V>::bst_ordered(#[trigger] head[i]) by {
                assert(head[i] == bs[i]);
            }
            assert forall|i: int, k: NodeKey| 0 <= i < head.len()
                && #[trigger] AVLNode::<V>::opt_as_map(head[i]).dom().contains(k)
                implies route(k) == i by {
                assert(head[i] == bs[i]);
            }
            Self::lemma_routed_dom(head, route);
            avl_node::lemma_seq_map(last);
            let a = Self::routed_dom(head, route);
            let b = AVLNode::<V>::opt_as_map(last).dom();
            assert forall|k: NodeKey| b.contains(k) implies !a.contains(k) by {
                assert(route(k) == bs.len() - 1);
            }
            assert(a.disjoint(b));
            assert(Self::routed_dom(bs, route) =~= a.union(b)) by {
                assert forall|k: NodeKey| Self::routed_dom(bs, route).contains(k)
                    implies a.union(b).contains(k) by {
                    if route(k) == bs.len() - 1 {
                        assert(b.contains(k));
                    } else {
                        assert(head[route(k)] == bs[route(k)]);
                        assert(a.contains(k));
                    }
                }
                assert forall|k: NodeKey| a.union(b).contains(k)
                    implies Self::routed_dom(bs, route).contains(k) by {
                    if a.contains(k) {
                        assert(head[route(k)] == bs[route(k)]);
                    } else {
                        assert(route(k) == bs.len() - 1);
                    }
                }
            }
            vstd::set_lib::lemma_set_disjoint_lens(a, b);
        }
    }

    /// The table's key set is finite and as large as its node count.
    pub proof fn lemma_nk_dom(self)
        requires
            self.wf(),
        ensures
            self.nk_map().dom().finite(),
            self.nk_map().dom().len() == self.spec_size(),
    {
        let route = |k: NodeKey| self.bucket_of(k);
        Self::lemma_routed_dom(self.buckets(), route);
        assert forall|k: NodeKey| true implies
            self.nk_map().dom().contains(k)
                == Self::routed_dom(self.buckets(), route).contains(k) by {
            lemma_mask_bound(k.hash, self.index_mask as u64);
        }
        assert(self.nk_map().dom() =~= Self::routed_dom(self.buckets(), route));
    }
}

impl<V> HashTable<V> {
    /// Every stored pair, values by reference, bucket by bucket; the table
    /// is left untouched.
    pub fn collect_pairs(&self) -> (r: Vec<(NodeKey, &V)>)
        requires
            self.wf(),
        ensures
            r@.len() == self.spec_size(),
            forall|p: int, q: int| 0 <= p < q < r@.len()
                ==> (#[trigger] r@[p]).0 != (#[trigger] r@[q]).0,
            forall|p: int| 0 <= p < r@.len()
                ==> self.nk_map().dom().contains((#[trigger] r@[p]).0)
                    && *r@[p].1 == self.nk_map()[r@[p].0],
            forall|k: NodeKey| #[trigger] self.nk_map().dom().contains(k)
                ==> exists|p: int| 0 <= p < r@.len() && (#[trigger] r@[p]).0 == k,
    {
        let ghost m0 = self.nk_map();
        let n = self.index.len();
        let mut pairs: Vec<(NodeKey, &V)> = Vec::new();
        let mut i: usize = 0;
        while i < n
            invariant
                self.wf(),
                i <= n,
                n == self.index@.len(),
                m0 == self.nk_map(),
                pairs@.len() == avl_node::sum_lens(self.buckets().take(i as int)),
                forall|p: int, q: int| 0 <= p < q < pairs@.len()
                    ==> (#[trigger] pairs@[p]).0 != (#[trigger] pairs@[q]).0,
                forall|p: int| 0 <= p < pairs@.len()
                    ==> m0.dom().contains((#[trigger] pairs@[p]).0)
                        && *pairs@[p].1 == m0[pairs@[p].0]
                        && self.bucket_of(pairs@[p].0) < i,
                forall|k: NodeKey| #[trigger] m0.dom().contains(k)
                    && self.bucket_of(k) < i
                    ==> exists|p: int| 0 <= p < pairs@.len()
                        && (#[trigger] pairs@[p]).0 == k,
            decreases n - i,
        {
            let ghost pairs0 = pairs@;
            proof {
                assert(self.buckets()[i as int] == self.index@[i as int].node);
                assert(AVLNode::<V>::opt_wf(self.buckets()[i as int]));
                avl_node::lemma_seq_map(self.buckets()[i as int]);
            }
            let ghost es = AVLNode::<V>::opt_seq(self.buckets()[i as int]);
            avl_node::collect_refs(&self.index[i].node, &mut pairs);
            proof {
                let bs0 = self.buckets();
                assert(bs0.take(i + 1).drop_last() =~= bs0.take(i as int));
                assert(bs0.take(i + 1).last() == bs0[i as int]);
                assert(avl_node::sum_lens(bs0.take(i + 1))
                    == avl_node::sum_lens(bs0.take(i as int)) + es.len());
                let em = AVLNode::<V>::opt_as_map(self.buckets()[i as int]);
                assert forall|p: int| 0 <= p < pairs@.len() implies
                    m0.dom().contains((#[trigger] pairs@[p]).0)
                        && *pairs@[p].1 == m0[pairs@[p].0]
                        && self.bucket_of(pairs@[p].0) < i + 1 by {
                    if p < pairs0.len() {
                        assert(pairs@[p] == pairs0[p]);
                    } else {
                        let q = p - pairs0.len();
                        assert(pairs@[p].0 == es[q].0 && *pairs@[p].1 == es[q].1);
                        assert(em.dom().contains(es[q].0));
                        assert(self.bucket_of(es[q].0) == i as int);
                        assert(m0.dom().contains(es[q].0));
                        assert(m0[es[q].0] == em[es[q].0]);
                    }
                }
                assert forall|p: int, q: int| 0 <= p < q < pairs@.len() implies
                    (#[trigger] pairs@[p]).0 != (#[trigger] pairs@[q]).0 by {
                    if p < pairs0.len() && q >= pairs0.len() {
                        assert(self.bucket_of(pairs@[p].0) < i as int);
                        assert(pairs@[q].0 == es[q - pairs0.len()].0);
                        assert(em.dom().contains(es[q - pairs0.len()].0));
                        assert(self.bucket_of(pairs@[q].0) == i as int);
                    } else if p >= pairs0.len() {
                        assert(key_lt(es[p - pairs0.len()].0, es[q - pairs0.len()].0));
                    }
                }
                assert forall|k: NodeKey| #[trigger] m0.dom().contains(k)
                    && self.bucket_of(k) < i + 1
                    implies exists|p: int| 0 <= p < pairs@.len()
                        && (#[trigger] pairs@[p]).0 == k by {
                    if self.bucket_of(k) < i as int {
                        let p = choose|p: int| 0 <= p < pairs0.len()
                            && (#[trigger] pairs0[p]).0 == k;
                        assert(pairs@[p].0 == k);
                    } else {
                        assert(em.dom().contains(k) && em[k] == m0[k]);
                        let q = choose|q: int| 0 <= q < es.len()
                            && (#[trigger] es[q]) == (k, em[k]);
                        assert(pairs@[pairs0.len() + q].0 == k);
                    }
                }
            }
            i = i + 1;
        }
        proof {
            assert(self.buckets().take(n as int) =~= self.buckets());
            assert forall|k: NodeKey| #[trigger] m0.dom().contains(k)
                implies exists|p: int| 0 <= p < pairs@.len()
                    && (#[trigger] pairs@[p]).0 == k by {
                lemma_mask_bound(k.hash, self.index_mask as u64);
            }
        }
        pairs
    }
}

} // verus!
