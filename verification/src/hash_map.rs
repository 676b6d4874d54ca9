//! The hash map: every key lookup is routed through the hash table to a
//! bucket, and collisions inside a bucket are resolved by the same AVL
//! engine the ordered map uses, so worst-case lookups stay logarithmic even
//! under hash flooding.

use vstd::prelude::*;
use crate::NodeKey;
use crate::avl_node;
use crate::hash_table::{HashTable, HashUint, AVL_HASH_INIT_SIZE, spec_calc_limit, spec_grown_size};
use crate::hash_table;
use std::collections::VecDeque;

verus! {

broadcast use crate::hash_table::lemma_table_put, crate::hash_table::lemma_table_kept;

/// What the FNV-1a hash of a key's little-endian bytes is; determined by
/// the key alone.
pub uninterp spec fn fnv_of(k: i64) -> u64;

/// Relies on fnv's `FnvHasher`: hashing the same bytes always yields the
/// same 64-bit FNV-1a value, a function of the key alone.
#[verifier::external_body]
fn fnv_hash(k: &i64) -> (r: u64)
    ensures
        r == fnv_of(*k),
{
    let mut h = fnv::FnvHasher::default();
    std::hash::Hasher::write(&mut h, &k.to_le_bytes());
    std::hash::Hasher::finish(&h)
}

/// A hash-function object handed to the map at construction: a
/// deterministic function from keys to 64-bit hash values.
pub trait KeyHasher {
    /// The hash value this hasher assigns to a key.
    spec fn hash_spec(&self, k: i64) -> u64;

    /// Computes the hash value.
    fn hash(&self, k: &i64) -> (r: u64)
        ensures
            r == self.hash_spec(*k),
    ;
}

/// The default hasher: 64-bit FNV-1a over the key's bytes.
#[derive(Clone, Copy)]
pub struct FnvBuildHasher;

impl KeyHasher for FnvBuildHasher {
    open spec fn hash_spec(&self, k: i64) -> u64 {
        fnv_of(k)
    }

    fn hash(&self, k: &i64) -> (r: u64)
    {
        fnv_hash(k)
    }
}

/// The hasher type maps are built with when none is named.
pub type RandomState = FnvBuildHasher;

/// A degenerate hasher mapping every key to the same value; it forces all
/// keys into one bucket, the worst case the per-bucket trees defend
/// against.
#[derive(Clone, Copy)]
pub struct ConstantHasher;

impl KeyHasher for ConstantHasher {
    open spec fn hash_spec(&self, k: i64) -> u64 {
        0
    }

    fn hash(&self, k: &i64) -> (r: u64)
    {
        0
    }
}

/// Computes the hash value a hasher assigns to a key.
pub fn make_hash<S: KeyHasher>(hash_state: &S, t: &i64) -> (r: HashUint)
    ensures
        r == hash_state.hash_spec(*t),
{
    hash_state.hash(t)
}

/// A hash map from `i64` keys to values, with a pluggable hash function,
/// using an AVL tree per bucket to resolve collisions.
pub struct HashMap<V, S = FnvBuildHasher> {
    hash_table: HashTable<V>,
    hash_builder: S,
}

impl<V, S: KeyHasher> HashMap<V, S> {
    /// The node key a map key is stored under: its hash value, then the
    /// key itself.
    pub closed spec fn hkey(self, k: i64) -> NodeKey {
        NodeKey { hash: self.hash_builder.hash_spec(k), key: k }
    }

    /// The number of stored pairs.
    pub closed spec fn spec_size(self) -> nat {
        self.hash_table.spec_size()
    }

    /// The number of buckets.
    pub closed spec fn spec_capacity(self) -> nat {
        self.hash_table.spec_index_size()
    }

    /// Well-formedness: the table is well formed and every stored node
    /// carries the hash value the map's own hasher assigns to its key.
    pub closed spec fn wf(self) -> bool {
        &&& self.hash_table.wf()
        &&& forall|k: NodeKey| #[trigger] self.hash_table.nk_map().dom().contains(k)
            ==> k.hash == self.hash_builder.hash_spec(k.key)
    }
}

impl<V, S: KeyHasher> View for HashMap<V, S> {
    type V = Map<i64, V>;

    /// The map abstraction the contracts speak of.
    closed spec fn view(&self) -> Map<i64, V> {
        Map::new(
            |k: i64| self.hash_table.nk_map().dom().contains(self.hkey(k)),
            |k: i64| self.hash_table.nk_map()[self.hkey(k)],
        )
    }
}

impl<V, S: KeyHasher> HashMap<V, S> {
    /// The view's key set is finite and no larger than the node count.
    pub proof fn lemma_hview(self)
        requires
            self.wf(),
        ensures
            self@.dom().finite(),
            self@.dom().len() == self.spec_size(),
    {
        self.hash_table.lemma_nk_dom();
        let em = self.hash_table.nk_map();
        let g = |k2: NodeKey| k2.key;
        assert forall|j: i64| self@.dom().contains(j) implies
            em.dom().map(g).contains(j) by {
            assert(em.dom().contains(self.hkey(j)));
            assert(g(self.hkey(j)) == j);
        }
        assert forall|j: i64| em.dom().map(g).contains(j) implies
            self@.dom().contains(j) by {
            let a = choose|a: NodeKey| em.dom().contains(a) && g(a) == j;
            assert(a.hash == self.hash_builder.hash_spec(a.key));
            assert(a == self.hkey(j));
        }
        assert(em.dom().map(g) =~= self@.dom());
        assert(vstd::relations::injective_on(g, em.dom())) by {
            assert forall|x: NodeKey, y: NodeKey|
                em.dom().contains(x) && em.dom().contains(y)
                && #[trigger] g(x) == #[trigger] g(y)
                implies x == y by {
                assert(x.hash == self.hash_builder.hash_spec(x.key));
                assert(y.hash == self.hash_builder.hash_spec(y.key));
            }
        }
        vstd::set_lib::lemma_map_size(em.dom(), self@.dom(), g);
    }

    /// Creates an empty map with the given hasher.
    pub fn with_hasher(hash_builder: S) -> (r: Self)
        ensures
            r.wf(),
            r@ == Map::<i64, V>::empty(),
            r.hasher_spec() == hash_builder,
            r.spec_capacity() == AVL_HASH_INIT_SIZE,
    {
        let r = HashMap { hash_table: HashTable::new(), hash_builder };
        proof {
            assert(r@ =~= Map::<i64, V>::empty());
        }
        r
    }

    /// The hasher the map was built with.
    pub closed spec fn hasher_spec(self) -> S {
        self.hash_builder
    }

    /// Creates an empty map with the given hasher and room for `capacity`
    /// elements before the first grow.
    pub fn with_capacity_and_hasher(capacity: usize, hash_builder: S) -> (r: Self)
        ensures
            r.wf(),
            r@ == Map::<i64, V>::empty(),
            r.hasher_spec() == hash_builder,
            r.spec_capacity() >= spec_calc_limit(capacity as nat),
            r.spec_capacity() >= AVL_HASH_INIT_SIZE,
    {
        let mut r = Self::with_hasher(hash_builder);
        r.hash_table.rehash(capacity);
        proof {
            assert(r@ =~= Map::<i64, V>::empty());
        }
        r
    }

    /// The number of stored pairs.
    pub fn len(&self) -> (r: usize)
        requires
            self.wf(),
        ensures
            r == self@.dom().len(),
    {
        proof {
            self.lemma_hview();
        }
        self.hash_table.size()
    }

    /// True if the map holds nothing.
    pub fn is_empty(&self) -> (r: bool)
        requires
            self.wf(),
        ensures
            r == (self@.dom() =~= Set::empty()),
    {
        proof {
            self.lemma_hview();
            if self@.dom().len() == 0 {
                vstd::set_lib::lemma_set_empty_equivalency_len(self@.dom());
            } else {
                let j = self@.dom().choose();
                assert(self@.dom().contains(j));
            }
        }
        self.len() == 0
    }

    /// The number of buckets the table currently holds.
    pub fn capacity(&self) -> (r: usize)
        requires
            self.wf(),
        ensures
            r == self.spec_capacity(),
    {
        self.hash_table.capacity()
    }

    /// Inserts a pair, handing back the previously stored pair under the
    /// same key, if there was one. The table grows when the count would
    /// pass its load ceiling.
    pub fn insert(&mut self, key: i64, value: V) -> (r: Option<(i64, V)>)
        requires
            old(self).wf(),
            old(self)@.dom().len() < usize::MAX,
        ensures
            final(self).wf(),
            final(self)@ == old(self)@.insert(key, value),
            r == if old(self)@.dom().contains(key) {
                Some((key, old(self)@[key]))
            } else {
                None::<(i64, V)>
            },
    {
        proof {
            old(self).lemma_hview();
        }
        let h = self.hash_builder.hash(&key);
        let count = self.hash_table.size();
        self.hash_table.rehash(count + 1);
        let prev = self.hash_table.hash_add(h, key, value);
        let ghost nk = NodeKey { hash: h, key };
        let r = match prev {
            None => None,
            Some(v) => Some((key, v)),
        };
        proof {
            let em0 = old(self).hash_table.nk_map();
            assert(self.hash_table.nk_map() == em0.insert(nk, value));
            assert forall|k: NodeKey| #[trigger] self.hash_table.nk_map().dom().contains(k)
                implies k.hash == self.hash_builder.hash_spec(k.key) by {
                if k != nk {
                    assert(em0.dom().contains(k));
                }
            }
            assert(self.wf());
            assert forall|j: i64| true implies
                (#[trigger] self@.dom().contains(j)
                    == old(self)@.insert(key, value).dom().contains(j))
                && (self@.dom().contains(j) ==>
                    self@[j] == old(self)@.insert(key, value)[j]) by {
                if j != key {
                    assert(self.hkey(j).key == j);
                    assert(self.hkey(j) != nk);
                }
            }
            assert(self@ =~= old(self)@.insert(key, value));
            assert(old(self)@.dom().contains(key) <==> em0.dom().contains(nk));
        }
        r
    }

    /// Removes a key, handing back the stored pair if the key was present.
    pub fn remove(&mut self, key: &i64) -> (r: Option<(i64, V)>)
        requires
            old(self).wf(),
        ensures
            final(self).wf(),
            final(self)@ == old(self)@.remove(*key),
            r == if old(self)@.dom().contains(*key) {
                Some((*key, old(self)@[*key]))
            } else {
                None::<(i64, V)>
            },
    {
        let h = self.hash_builder.hash(key);
        let prev = self.hash_table.hash_erase(h, *key);
        let ghost nk = NodeKey { hash: h, key: *key };
        let r = match prev {
            None => None,
            Some(v) => Some((*key, v)),
        };
        proof {
            let em0 = old(self).hash_table.nk_map();
            assert(self.hash_table.nk_map() == em0.remove(nk));
            assert forall|k: NodeKey| #[trigger] self.hash_table.nk_map().dom().contains(k)
                implies k.hash == self.hash_builder.hash_spec(k.key) by {
                assert(em0.dom().contains(k));
            }
            assert(self.wf());
            assert forall|j: i64| true implies
                (#[trigger] self@.dom().contains(j)
                    == old(self)@.remove(*key).dom().contains(j))
                && (self@.dom().contains(j) ==>
                    self@[j] == old(self)@.remove(*key)[j]) by {
                if j != *key {
                    assert(self.hkey(j).key == j);
                    assert(self.hkey(j) != nk);
                }
            }
            assert(self@ =~= old(self)@.remove(*key));
            assert(old(self)@.dom().contains(*key) <==> em0.dom().contains(nk));
        }
        r
    }

    /// Borrows the value stored under a key.
    pub fn get(&self, key: &i64) -> (r: Option<&V>)
        requires
            self.wf(),
        ensures
            match r {
                Some(v) => self@.dom().contains(*key) && *v == self@[*key],
                None => !self@.dom().contains(*key),
            },
    {
        let h = self.hash_builder.hash(key);
        self.hash_table.hash_find(h, *key)
    }

    /// True if the key is stored.
    pub fn contains_key(&self, key: &i64) -> (r: bool)
        requires
            self.wf(),
        ensures
            r == self@.dom().contains(*key),
    {
        self.get(key).is_some()
    }

    /// Borrows the value stored under a key mutably; afterwards the map
    /// holds whatever the caller wrote through the borrow.
    pub fn get_mut(&mut self, key: &i64) -> (r: Option<&mut V>)
        requires
            old(self).wf(),
        ensures
            final(self).wf(),
            match r {
                Some(v) => {
                    &&& old(self)@.dom().contains(*key)
                    &&& *v == old(self)@[*key]
                    &&& final(self)@ =~= old(self)@.insert(*key, *final(v))
                },
                None => {
                    &&& !old(self)@.dom().contains(*key)
                    &&& final(self)@ =~= old(self)@
                },
            },
    {
        let h = self.hash_builder.hash(key);
        self.hash_table.get_mut(h, *key)
    }

    /// Removes every pair, keeping the bucket array.
    pub fn clear(&mut self)
        requires
            old(self).wf(),
        ensures
            final(self).wf(),
            final(self)@ == Map::<i64, V>::empty(),
    {
        self.hash_table.clear();
        proof {
            assert(self@ =~= Map::<i64, V>::empty());
        }
    }

    /// Grows the table so `additional` more pairs fit under the load
    /// ceiling without another grow.
    pub fn reserve(&mut self, additional: usize)
        requires
            old(self).wf(),
        ensures
            final(self).wf(),
            final(self)@ == old(self)@,
            final(self).spec_capacity() >= spec_calc_limit(vstd::math::min(
                old(self)@.dom().len() + additional, usize::MAX as int) as nat),
            final(self).spec_capacity() >= old(self).spec_capacity(),
    {
        proof {
            old(self).lemma_hview();
        }
        let count = self.hash_table.size();
        let target = if additional > usize::MAX - count {
            usize::MAX
        } else {
            count + additional
        };
        self.hash_table.rehash(target);
        proof {
            assert(self@ =~= old(self)@);
        }
    }

    /// `reserve`, under the name callers with fallible-allocation tastes use.
    pub fn try_reserve(&mut self, additional: usize)
        requires
            old(self).wf(),
        ensures
            final(self).wf(),
            final(self)@ == old(self)@,
            final(self).spec_capacity() >= spec_calc_limit(vstd::math::min(
                old(self)@.dom().len() + additional, usize::MAX as int) as nat),
    {
        self.reserve(additional);
    }

    /// Rebuilds the table just large enough for the current count,
    /// relocating every record.
    pub fn shrink_to_fit(&mut self)
        requires
            old(self).wf(),
        ensures
            final(self).wf(),
            final(self)@ == old(self)@,
            final(self).spec_capacity() == spec_grown_size(
                AVL_HASH_INIT_SIZE as nat,
                spec_calc_limit(old(self)@.dom().len())),
    {
        proof {
            old(self).lemma_hview();
        }
        let count = self.hash_table.size();
        let limit = hash_table::calc_limit(count);
        let mut need: usize = AVL_HASH_INIT_SIZE;
        let ghost limit0 = limit as nat;
        proof {
            vstd::arithmetic::power2::lemma2_to64();
            assert(AVL_HASH_INIT_SIZE == vstd::arithmetic::power2::pow2(3));
        }
        while need < limit
            invariant
                need >= 1,
                exists|e: nat| need == vstd::arithmetic::power2::pow2(e),
                need <= 2 * limit || need == AVL_HASH_INIT_SIZE,
                limit <= usize::MAX / 4,
                limit == limit0,
                spec_grown_size(need as nat, limit0)
                    == spec_grown_size(AVL_HASH_INIT_SIZE as nat, limit0),
            decreases 2 * limit - need,
        {
            proof {
                let e = choose|e: nat| need == vstd::arithmetic::power2::pow2(e);
                assert(vstd::arithmetic::power2::pow2(e + 1)
                    == 2 * vstd::arithmetic::power2::pow2(e)) by {
                    vstd::arithmetic::power2::lemma_pow2_unfold(e + 1);
                }
                assert(2 * need == vstd::arithmetic::power2::pow2(e + 1));
            }
            need = need * 2;
        }
        let _ = self.hash_table.hash_swap(need);
        proof {
            assert(self@ =~= old(self)@);
        }
    }

    /// The size of the most loaded bucket: the bound holds of every bucket
    /// and is attained by one of them.
    pub fn get_max_node_of_single_index(&self) -> (r: usize)
        requires
            self.wf(),
        ensures
            r == self.spec_max_bucket(),
            r <= self.spec_size(),
    {
        self.hash_table.get_max_node_of_single_index()
    }

    /// The size of the largest bucket.
    pub closed spec fn spec_max_bucket(self) -> nat {
        avl_node::max_bucket_len(self.hash_table.buckets())
    }
}

impl<V> HashMap<V, FnvBuildHasher> {
    /// Creates an empty map with the default FNV hasher.
    pub fn new() -> (r: Self)
        ensures
            r.wf(),
            r@ == Map::<i64, V>::empty(),
    {
        Self::with_hasher(FnvBuildHasher)
    }

    /// Creates an empty map with the default hasher and room for
    /// `capacity` elements.
    pub fn with_capacity(capacity: usize) -> (r: Self)
        ensures
            r.wf(),
            r@ == Map::<i64, V>::empty(),
            r.spec_capacity() >= spec_calc_limit(capacity as nat),
            r.spec_capacity() >= AVL_HASH_INIT_SIZE,
    {
        Self::with_capacity_and_hasher(capacity, FnvBuildHasher)
    }
}

impl<V, S: KeyHasher> HashMap<V, S> {
    /// One key comes before another in the map's whole-table iteration
    /// order: lower bucket first, then hash, then key.
    pub closed spec fn iter_before(self, a: i64, b: i64) -> bool {
        self.hash_table.hord(self.hkey(a), self.hkey(b))
    }

    /// The first key in iteration order.
    pub fn first(&self) -> (r: Option<i64>)
        requires
            self.wf(),
        ensures
            match r {
                None => self@.dom() =~= Set::empty(),
                Some(k) => self@.dom().contains(k)
                    && forall|j: i64| #[trigger] self@.dom().contains(j)
                        ==> j == k || self.iter_before(k, j),
            },
    {
        match self.hash_table.node_first() {
            None => {
                proof {
                    assert forall|j: i64| !(#[trigger] self@.dom().contains(j)) by {}
                    assert(self@.dom() =~= Set::empty());
                }
                None
            },
            Some(p) => {
                proof {
                    assert(p.0.hash == self.hash_builder.hash_spec(p.0.key));
                    assert(p.0 == self.hkey(p.0.key));
                    assert forall|j: i64| #[trigger] self@.dom().contains(j)
                        implies j == p.0.key || self.iter_before(p.0.key, j) by {
                        assert(self.hash_table.nk_map().dom().contains(self.hkey(j)));
                    }
                }
                Some(p.0.key)
            },
        }
    }

    /// The last key in iteration order.
    pub fn last(&self) -> (r: Option<i64>)
        requires
            self.wf(),
        ensures
            match r {
                None => self@.dom() =~= Set::empty(),
                Some(k) => self@.dom().contains(k)
                    && forall|j: i64| #[trigger] self@.dom().contains(j)
                        ==> j == k || self.iter_before(j, k),
            },
    {
        match self.hash_table.node_last() {
            None => {
                proof {
                    assert forall|j: i64| !(#[trigger] self@.dom().contains(j)) by {}
                    assert(self@.dom() =~= Set::empty());
                }
                None
            },
            Some(p) => {
                proof {
                    assert(p.0.hash == self.hash_builder.hash_spec(p.0.key));
                    assert(p.0 == self.hkey(p.0.key));
                    assert forall|j: i64| #[trigger] self@.dom().contains(j)
                        implies j == p.0.key || self.iter_before(j, p.0.key) by {
                        assert(self.hash_table.nk_map().dom().contains(self.hkey(j)));
                    }
                }
                Some(p.0.key)
            },
        }
    }

    /// The key following `cur` in iteration order.
    pub fn next(&self, cur: &i64) -> (r: Option<i64>)
        requires
            self.wf(),
        ensures
            match r {
                None => forall|j: i64| #[trigger] self@.dom().contains(j)
                    ==> !self.iter_before(*cur, j),
                Some(k) => self@.dom().contains(k) && self.iter_before(*cur, k)
                    && forall|j: i64| #[trigger] self@.dom().contains(j)
                        && self.iter_before(*cur, j)
                        ==> j == k || self.iter_before(k, j),
            },
    {
        let h = self.hash_builder.hash(cur);
        let nk = NodeKey { hash: h, key: *cur };
        match self.hash_table.node_next(nk) {
            None => {
                proof {
                    assert forall|j: i64| #[trigger] self@.dom().contains(j)
                        implies !self.iter_before(*cur, j) by {
                        assert(self.hash_table.nk_map().dom().contains(self.hkey(j)));
                    }
                }
                None
            },
            Some(p) => {
                proof {
                    assert(p.0.hash == self.hash_builder.hash_spec(p.0.key));
                    assert(p.0 == self.hkey(p.0.key));
                    assert forall|j: i64| #[trigger] self@.dom().contains(j)
                        && self.iter_before(*cur, j)
                        implies j == p.0.key || self.iter_before(p.0.key, j) by {
                        assert(self.hash_table.nk_map().dom().contains(self.hkey(j)));
                    }
                }
                Some(p.0.key)
            },
        }
    }

    /// The key preceding `cur` in iteration order.
    pub fn prev(&self, cur: &i64) -> (r: Option<i64>)
        requires
            self.wf(),
        ensures
            match r {
                None => forall|j: i64| #[trigger] self@.dom().contains(j)
                    ==> !self.iter_before(j, *cur),
                Some(k) => self@.dom().contains(k) && self.iter_before(k, *cur)
                    && forall|j: i64| #[trigger] self@.dom().contains(j)
                        && self.iter_before(j, *cur)
                        ==> j == k || self.iter_before(j, k),
            },
    {
        let h = self.hash_builder.hash(cur);
        let nk = NodeKey { hash: h, key: *cur };
        match self.hash_table.node_prev(nk) {
            None => {
                proof {
                    assert forall|j: i64| #[trigger] self@.dom().contains(j)
                        implies !self.iter_before(j, *cur) by {
                        assert(self.hash_table.nk_map().dom().contains(self.hkey(j)));
                    }
                }
                None
            },
            Some(p) => {
                proof {
                    assert(p.0.hash == self.hash_builder.hash_spec(p.0.key));
                    assert(p.0 == self.hkey(p.0.key));
                    assert forall|j: i64| #[trigger] self@.dom().contains(j)
                        && self.iter_before(j, *cur)
                        implies j == p.0.key || self.iter_before(j, p.0.key) by {
                        assert(self.hash_table.nk_map().dom().contains(self.hkey(j)));
                    }
                }
                Some(p.0.key)
            },
        }
    }

    /// An iterator over all pairs, in whole-table iteration order.
    pub fn iter(&self) -> (r: Iter<V>)
        requires
            self.wf(),
        ensures
            r.pos == 0,
            r.items@.len() == self@.dom().len(),
            forall|p: int, q: int| 0 <= p < q < r.items@.len()
                ==> (#[trigger] r.items@[p]).0 != (#[trigger] r.items@[q]).0,
            forall|p: int| 0 <= p < r.items@.len()
                ==> self@.dom().contains((#[trigger] r.items@[p]).0)
                    && *r.items@[p].1 == self@[r.items@[p].0],
            forall|k: i64| #[trigger] self@.dom().contains(k)
                ==> exists|p: int| 0 <= p < r.items@.len()
                    && (#[trigger] r.items@[p]).0 == k,
    {
        proof {
            self.lemma_hview();
        }
        let raw = self.hash_table.collect_pairs();
        let ghost rawv = raw@;
        let n = raw.len();
        let mut items: Vec<(i64, &V)> = Vec::new();
        let mut i: usize = 0;
        while i < n
            invariant
                self.wf(),
                i <= n,
                n == rawv.len(),
                raw@ == rawv,
                items@.len() == i,
                forall|p: int| 0 <= p < rawv.len()
                    ==> self.hash_table.nk_map().dom().contains(
                        (#[trigger] rawv[p]).0)
                        && *rawv[p].1 == self.hash_table.nk_map()[rawv[p].0],
                forall|p: int| 0 <= p < i
                    ==> (#[trigger] items@[p]).0 == rawv[p].0.key
                        && items@[p].1 == rawv[p].1,
            decreases n - i,
        {
            let p = &raw[i];
            items.push((p.0.key, p.1));
            i = i + 1;
        }
        let r = Iter { items, pos: 0 };
        proof {
            let em = self.hash_table.nk_map();
            assert forall|p: int| 0 <= p < r.items@.len() implies
                self@.dom().contains((#[trigger] r.items@[p]).0)
                    && *r.items@[p].1 == self@[r.items@[p].0] by {
                assert(em.dom().contains(rawv[p].0));
                assert(rawv[p].0.hash == self.hash_builder.hash_spec(rawv[p].0.key));
                assert(rawv[p].0 == self.hkey(rawv[p].0.key));
            }
            assert forall|p: int, q: int| 0 <= p < q < r.items@.len() implies
                (#[trigger] r.items@[p]).0 != (#[trigger] r.items@[q]).0 by {
                assert(em.dom().contains(rawv[p].0));
                assert(em.dom().contains(rawv[q].0));
                assert(rawv[p].0.hash == self.hash_builder.hash_spec(rawv[p].0.key));
                assert(rawv[q].0.hash == self.hash_builder.hash_spec(rawv[q].0.key));
                assert(rawv[p].0 != rawv[q].0);
            }
            assert forall|k: i64| #[trigger] self@.dom().contains(k)
                implies exists|p: int| 0 <= p < r.items@.len()
                    && (#[trigger] r.items@[p]).0 == k by {
                assert(em.dom().contains(self.hkey(k)));
                let p = choose|p: int| 0 <= p < rawv.len()
                    && (#[trigger] rawv[p]).0 == self.hkey(k);
                assert(r.items@[p].0 == k);
            }
        }
        r
    }

    /// An iterator over the keys, in iteration order.
    pub fn keys(&self) -> (r: Keys<V>)
        requires
            self.wf(),
        ensures
            r.inner.pos == 0,
            r.inner.items@.len() == self@.dom().len(),
            forall|p: int, q: int| 0 <= p < q < r.inner.items@.len()
                ==> (#[trigger] r.inner.items@[p]).0 != (#[trigger] r.inner.items@[q]).0,
            forall|p: int| 0 <= p < r.inner.items@.len()
                ==> self@.dom().contains((#[trigger] r.inner.items@[p]).0)
                    && *r.inner.items@[p].1 == self@[r.inner.items@[p].0],
            forall|k: i64| #[trigger] self@.dom().contains(k)
                ==> exists|p: int| 0 <= p < r.inner.items@.len()
                    && (#[trigger] r.inner.items@[p]).0 == k,
    {
        let it = self.iter();
        let r = Keys { inner: it };
        proof {
            assert forall|k: i64| #[trigger] self@.dom().contains(k)
                implies exists|p: int| 0 <= p < r.inner.items@.len()
                    && (#[trigger] r.inner.items@[p]).0 == k by {
                let p = choose|p: int| 0 <= p < it.items@.len()
                    && (#[trigger] it.items@[p]).0 == k;
                assert(r.inner.items@[p].0 == k);
            }
        }
        r
    }

    /// An iterator over the values, in iteration order.
    pub fn values(&self) -> (r: Values<V>)
        requires
            self.wf(),
        ensures
            r.inner.pos == 0,
            r.inner.items@.len() == self@.dom().len(),
            forall|p: int| 0 <= p < r.inner.items@.len()
                ==> self@.dom().contains((#[trigger] r.inner.items@[p]).0)
                    && *r.inner.items@[p].1 == self@[r.inner.items@[p].0],
    {
        Values { inner: self.iter() }
    }

    /// A mutable iterator over the pairs: it captures the keys, and each
    /// step borrows the value for that key from the map it is handed.
    pub fn iter_mut(&mut self) -> (r: IterMut)
        requires
            old(self).wf(),
        ensures
            *final(self) == *old(self),
            final(self).wf(),
            r.pos == 0,
            r.keys@.len() == old(self)@.dom().len(),
            forall|p: int| 0 <= p < r.keys@.len()
                ==> old(self)@.dom().contains(#[trigger] r.keys@[p]),
            forall|p: int, q: int| 0 <= p < q < r.keys@.len()
                ==> r.keys@[p] != r.keys@[q],
            forall|k: i64| #[trigger] old(self)@.dom().contains(k)
                ==> exists|p: int| 0 <= p < r.keys@.len()
                    && (#[trigger] r.keys@[p]) == k,
    {
        let it = self.iter();
        let n = it.items.len();
        let mut keys: Vec<i64> = Vec::new();
        let mut i: usize = 0;
        while i < n
            invariant
                i <= n,
                n == it.items@.len(),
                keys@.len() == i,
                forall|p: int| 0 <= p < i
                    ==> (#[trigger] keys@[p]) == it.items@[p].0,
            decreases n - i,
        {
            let k = it.items[i].0;
            keys.push(k);
            i = i + 1;
        }
        proof {
            assert forall|k: i64| #[trigger] old(self)@.dom().contains(k)
                implies exists|p: int| 0 <= p < keys@.len()
                    && (#[trigger] keys@[p]) == k by {
                let p = choose|p: int| 0 <= p < it.items@.len()
                    && (#[trigger] it.items@[p]).0 == k;
                assert(keys@[p] == k);
            }
        }
        IterMut { keys, pos: 0 }
    }

    /// A mutable iterator over the values.
    pub fn values_mut(&mut self) -> (r: ValuesMut)
        requires
            old(self).wf(),
        ensures
            *final(self) == *old(self),
            final(self).wf(),
            r.inner.pos == 0,
            r.inner.keys@.len() == old(self)@.dom().len(),
            forall|p: int| 0 <= p < r.inner.keys@.len()
                ==> old(self)@.dom().contains(#[trigger] r.inner.keys@[p]),
    {
        ValuesMut { inner: self.iter_mut() }
    }

    /// Takes every pair out of the map into an owning iterator; the map is
    /// left empty.
    pub fn drain(&mut self) -> (r: Drain<V>)
        requires
            old(self).wf(),
        ensures
            final(self).wf(),
            final(self)@ == Map::<i64, V>::empty(),
            r.pairs@.len() == old(self)@.dom().len(),
            forall|p: int| 0 <= p < r.pairs@.len()
                ==> old(self)@.dom().contains((#[trigger] r.pairs@[p]).0)
                    && r.pairs@[p].1 == old(self)@[r.pairs@[p].0],
            forall|k: i64| #[trigger] old(self)@.dom().contains(k)
                ==> exists|p: int| 0 <= p < r.pairs@.len()
                    && (#[trigger] r.pairs@[p]).0 == k,
    {
        proof {
            old(self).lemma_hview();
        }
        let raw = self.hash_table.take_pairs();
        let ghost rawv = raw@;
        let ghost em0 = old(self).hash_table.nk_map();
        let mut raw = raw;
        let mut pairs: VecDeque<(i64, V)> = VecDeque::new();
        proof {
            assert(self@ =~= Map::<i64, V>::empty());
        }
        while raw.len() > 0
            invariant
                raw@ == rawv.take(raw@.len() as int),
                raw@.len() <= rawv.len(),
                pairs@.len() == rawv.len() - raw@.len(),
                forall|p: int| 0 <= p < pairs@.len()
                    ==> (#[trigger] pairs@[p]).0
                            == rawv[rawv.len() - pairs@.len() + p].0.key
                        && pairs@[p].1 == rawv[rawv.len() - pairs@.len() + p].1,
            decreases raw@.len(),
        {
            let p = raw.pop().unwrap();
            pairs.push_front((p.0.key, p.1));
            proof {
                assert(raw@ =~= rawv.take(raw@.len() as int));
            }
        }
        let r = Drain { pairs };
        proof {
            assert forall|p: int| 0 <= p < r.pairs@.len() implies
                old(self)@.dom().contains((#[trigger] r.pairs@[p]).0)
                    && r.pairs@[p].1 == old(self)@[r.pairs@[p].0] by {
                assert(em0.dom().contains(rawv[p].0));
                assert(rawv[p].0.hash
                    == old(self).hash_builder.hash_spec(rawv[p].0.key));
                assert(rawv[p].0 == old(self).hkey(rawv[p].0.key));
            }
            assert forall|k: i64| #[trigger] old(self)@.dom().contains(k)
                implies exists|p: int| 0 <= p < r.pairs@.len()
                    && (#[trigger] r.pairs@[p]).0 == k by {
                assert(em0.dom().contains(old(self).hkey(k)));
                assert(avl_node::has_pair(rawv, old(self).hkey(k),
                    em0[old(self).hkey(k)]));
                let q = choose|q: int| 0 <= q < rawv.len()
                    && (#[trigger] rawv[q]).0 == old(self).hkey(k)
                    && rawv[q].1 == em0[old(self).hkey(k)];
                assert(r.pairs@[q].0 == k);
            }
        }
        r
    }

    /// Consumes the map into an owning iterator over its pairs.
    pub fn into_iter(self) -> (r: IntoIter<V>)
        requires
            self.wf(),
        ensures
            r.pairs@.len() == self@.dom().len(),
            forall|p: int| 0 <= p < r.pairs@.len()
                ==> self@.dom().contains((#[trigger] r.pairs@[p]).0)
                    && r.pairs@[p].1 == self@[r.pairs@[p].0],
            forall|k: i64| #[trigger] self@.dom().contains(k)
                ==> exists|p: int| 0 <= p < r.pairs@.len()
                    && (#[trigger] r.pairs@[p]).0 == k,
    {
        let mut m = self;
        proof {
            assert(m@ =~= self@);
        }
        let d = m.drain();
        let r = IntoIter { pairs: d.pairs };
        proof {
            assert forall|k: i64| #[trigger] self@.dom().contains(k)
                implies exists|p: int| 0 <= p < r.pairs@.len()
                    && (#[trigger] r.pairs@[p]).0 == k by {
                let p = choose|p: int| 0 <= p < d.pairs@.len()
                    && (#[trigger] d.pairs@[p]).0 == k;
                assert(r.pairs@[p].0 == k);
            }
        }
        r
    }
}

impl<V: Clone, S: KeyHasher + Copy> Clone for HashMap<V, S> {
    /// Deep-copies the map: the table shape and all keys are kept exactly,
    /// and each value is whatever `V::clone` returns for the original.
    fn clone(&self) -> (r: Self)
        ensures
            self.wf() ==> r.wf(),
            self.wf() ==> r@.dom() =~= self@.dom(),
            self.wf() ==> forall|k: i64| #[trigger] self@.dom().contains(k)
                ==> vstd::pervasive::cloned::<V>(self@[k], r@[k]),
    {
        let r = HashMap {
            hash_table: self.hash_table.clone_table(),
            hash_builder: self.hash_builder,
        };
        proof {
            if self.wf() {
                assert forall|k: NodeKey| #[trigger] r.hash_table.nk_map().dom()
                    .contains(k)
                    implies k.hash == r.hash_builder.hash_spec(k.key) by {
                    assert(self.hash_table.nk_map().dom().contains(k));
                }
                assert(r@.dom() =~= self@.dom());
                assert forall|k: i64| #[trigger] self@.dom().contains(k)
                    implies vstd::pervasive::cloned::<V>(self@[k], r@[k]) by {
                    assert(self.hash_table.nk_map().dom().contains(self.hkey(k)));
                }
            }
        }
        r
    }
}

impl<V: PartialEq, S: KeyHasher> PartialEq for HashMap<V, S> {
    /// Content equality on well-formed maps: the same keys bound to values
    /// that compare equal under `V`'s own equality.
    fn eq(&self, other: &Self) -> bool
    {
        let mine = self.hash_table.collect_all_refs();
        let theirs = other.hash_table.collect_all_refs();
        if mine.len() != theirs.len() {
            return false;
        }
        let mut i: usize = 0;
        while i < mine.len()
            invariant
                i <= mine@.len(),
            decreases mine@.len() - i,
        {
            let p = &mine[i];
            match other.hash_table.find_unchecked(p.0) {
                Some(v2) => {
                    if !(*p.1 == *v2) {
                        return false;
                    }
                },
                None => {
                    return false;
                },
            }
            i = i + 1;
        }
        true
    }
}

impl<V: PartialEq, S: KeyHasher> vstd::std_specs::cmp::PartialEqSpecImpl
    for HashMap<V, S> {
    open spec fn obeys_eq_spec() -> bool {
        false
    }

    open spec fn eq_spec(&self, other: &HashMap<V, S>) -> bool {
        true
    }
}

impl<V: Eq, S: KeyHasher> Eq for HashMap<V, S> {
}

/// An iterator over the pairs of a `HashMap`, values by reference, in
/// whole-table iteration order.
pub struct Iter<'a, V> {
    pub items: Vec<(i64, &'a V)>,
    pub pos: usize,
}

impl<'a, V> Iter<'a, V> {
    /// Yields the next pair.
    pub fn next(&mut self) -> (r: Option<(i64, &'a V)>)
        requires
            old(self).pos <= old(self).items@.len(),
        ensures
            final(self).items == old(self).items,
            old(self).pos == old(self).items@.len() ==> r is None
                && *final(self) == *old(self),
            old(self).pos < old(self).items@.len() ==> {
                &&& final(self).pos == old(self).pos + 1
                &&& r == Some(old(self).items@[old(self).pos as int])
            },
    {
        if self.pos == self.items.len() {
            return None;
        }
        let p = self.items[self.pos];
        self.pos = self.pos + 1;
        Some(p)
    }

    /// Exact bounds on the number of pairs still to come.
    pub fn size_hint(&self) -> (r: (usize, Option<usize>))
        requires
            self.pos <= self.items@.len(),
        ensures
            r.0 == self.items@.len() - self.pos,
            r.1 == Some((self.items@.len() - self.pos) as usize),
    {
        (self.items.len() - self.pos, Some(self.items.len() - self.pos))
    }
}

/// An iterator over the keys of a `HashMap`.
pub struct Keys<'a, V> {
    pub inner: Iter<'a, V>,
}

impl<'a, V> Keys<'a, V> {
    /// Yields the next key.
    pub fn next(&mut self) -> (r: Option<i64>)
        requires
            old(self).inner.pos <= old(self).inner.items@.len(),
        ensures
            final(self).inner.items == old(self).inner.items,
            old(self).inner.pos == old(self).inner.items@.len() ==> r is None
                && *final(self) == *old(self),
            old(self).inner.pos < old(self).inner.items@.len() ==> {
                &&& final(self).inner.pos == old(self).inner.pos + 1
                &&& r == Some(old(self).inner.items@[old(self).inner.pos as int].0)
            },
    {
        match self.inner.next() {
            Some(p) => Some(p.0),
            None => None,
        }
    }

    /// Exact bounds on the number of keys still to come.
    pub fn size_hint(&self) -> (r: (usize, Option<usize>))
        requires
            self.inner.pos <= self.inner.items@.len(),
        ensures
            r.0 == self.inner.items@.len() - self.inner.pos,
    {
        self.inner.size_hint()
    }
}

/// An iterator over the values of a `HashMap`.
pub struct Values<'a, V> {
    pub inner: Iter<'a, V>,
}

impl<'a, V> Values<'a, V> {
    /// Yields the next value.
    pub fn next(&mut self) -> (r: Option<&'a V>)
        requires
            old(self).inner.pos <= old(self).inner.items@.len(),
        ensures
            final(self).inner.items == old(self).inner.items,
            old(self).inner.pos == old(self).inner.items@.len() ==> r is None
                && *final(self) == *old(self),
            old(self).inner.pos < old(self).inner.items@.len() ==> {
                &&& final(self).inner.pos == old(self).inner.pos + 1
                &&& r == Some(old(self).inner.items@[old(self).inner.pos as int].1)
            },
    {
        match self.inner.next() {
            Some(p) => Some(p.1),
            None => None,
        }
    }

    /// Exact bounds on the number of values still to come.
    pub fn size_hint(&self) -> (r: (usize, Option<usize>))
        requires
            self.inner.pos <= self.inner.items@.len(),
        ensures
            r.0 == self.inner.items@.len() - self.inner.pos,
    {
        self.inner.size_hint()
    }
}

/// A mutable iterator over the pairs of a `HashMap`: it walks a captured
/// key list and borrows each value from the map it is handed.
pub struct IterMut {
    pub keys: Vec<i64>,
    pub pos: usize,
}

impl IterMut {
    /// Borrows the value under the next captured key mutably, together
    /// with the key.
    pub fn next_mut<'m, V, S: KeyHasher>(&mut self, map: &'m mut HashMap<V, S>)
        -> (r: Option<(i64, &'m mut V)>)
        requires
            old(map).wf(),
            old(self).pos <= old(self).keys@.len(),
        ensures
            final(map).wf(),
            final(self).keys == old(self).keys,
            old(self).pos == old(self).keys@.len() ==> r is None
                && *final(self) == *old(self) && *final(map) == *old(map),
            old(self).pos < old(self).keys@.len() ==> {
                &&& final(self).pos == old(self).pos + 1
                &&& match r {
                    Some(p) => {
                        &&& p.0 == old(self).keys@[old(self).pos as int]
                        &&& old(map)@.dom().contains(p.0)
                        &&& *p.1 == old(map)@[p.0]
                        &&& final(map)@ =~= old(map)@.insert(p.0, *final(p.1))
                    },
                    None => {
                        &&& !old(map)@.dom().contains(
                            old(self).keys@[old(self).pos as int])
                        &&& final(map)@ =~= old(map)@
                    },
                }
            },
    {
        if self.pos == self.keys.len() {
            return None;
        }
        let k = self.keys[self.pos];
        self.pos = self.pos + 1;
        match map.get_mut(&k) {
            Some(v) => Some((k, v)),
            None => None,
        }
    }

    /// Exact bounds on the number of pairs still to come.
    pub fn size_hint(&self) -> (r: (usize, Option<usize>))
        requires
            self.pos <= self.keys@.len(),
        ensures
            r.0 == self.keys@.len() - self.pos,
            r.1 == Some((self.keys@.len() - self.pos) as usize),
    {
        (self.keys.len() - self.pos, Some(self.keys.len() - self.pos))
    }
}

/// A mutable iterator over the values of a `HashMap`.
pub struct ValuesMut {
    pub inner: IterMut,
}

impl ValuesMut {
    /// Borrows the next value mutably from the map it is handed.
    pub fn next_mut<'m, V, S: KeyHasher>(&mut self, map: &'m mut HashMap<V, S>)
        -> (r: Option<&'m mut V>)
        requires
            old(map).wf(),
            old(self).inner.pos <= old(self).inner.keys@.len(),
        ensures
            final(map).wf(),
            final(self).inner.keys == old(self).inner.keys,
            old(self).inner.pos == old(self).inner.keys@.len() ==> r is None
                && *final(self) == *old(self) && *final(map) == *old(map),
            old(self).inner.pos < old(self).inner.keys@.len() ==> {
                &&& final(self).inner.pos == old(self).inner.pos + 1
                &&& match r {
                    Some(v) => {
                        &&& old(map)@.dom().contains(
                            old(self).inner.keys@[old(self).inner.pos as int])
                        &&& *v == old(map)@[
                            old(self).inner.keys@[old(self).inner.pos as int]]
                        &&& final(map)@ =~= old(map)@.insert(
                            old(self).inner.keys@[old(self).inner.pos as int],
                            *final(v))
                    },
                    None => {
                        &&& !old(map)@.dom().contains(
                            old(self).inner.keys@[old(self).inner.pos as int])
                        &&& final(map)@ =~= old(map)@
                    },
                }
            },
    {
        match self.inner.next_mut(map) {
            Some(p) => Some(p.1),
            None => None,
        }
    }

    /// Exact bounds on the number of values still to come.
    pub fn size_hint(&self) -> (r: (usize, Option<usize>))
        requires
            self.inner.pos <= self.inner.keys@.len(),
        ensures
            r.0 == self.inner.keys@.len() - self.inner.pos,
    {
        self.inner.size_hint()
    }
}

/// An owning iterator that drains a `HashMap`'s pairs.
pub struct Drain<V> {
    pub pairs: VecDeque<(i64, V)>,
}

impl<V> Drain<V> {
    /// Takes the next pair out.
    pub fn next(&mut self) -> (r: Option<(i64, V)>)
        ensures
            old(self).pairs@.len() == 0 ==> r is None
                && final(self).pairs@ == old(self).pairs@,
            old(self).pairs@.len() > 0 ==> {
                &&& r == Some(old(self).pairs@[0])
                &&& final(self).pairs@ == old(self).pairs@.drop_first()
            },
    {
        let r = self.pairs.pop_front();
        proof {
            if old(self).pairs@.len() > 0 {
                assert(final(self).pairs@ =~= old(self).pairs@.drop_first());
            }
        }
        r
    }

    /// Exact bounds on the number of pairs still to come.
    pub fn size_hint(&self) -> (r: (usize, Option<usize>))
        ensures
            r.0 == self.pairs@.len(),
    {
        (self.pairs.len(), Some(self.pairs.len()))
    }
}

/// An owning iterator over the pairs of a consumed `HashMap`.
pub struct IntoIter<V> {
    pub pairs: VecDeque<(i64, V)>,
}

impl<V> IntoIter<V> {
    /// Takes the next pair out.
    pub fn next(&mut self) -> (r: Option<(i64, V)>)
        ensures
            old(self).pairs@.len() == 0 ==> r is None
                && final(self).pairs@ == old(self).pairs@,
            old(self).pairs@.len() > 0 ==> {
                &&& r == Some(old(self).pairs@[0])
                &&& final(self).pairs@ == old(self).pairs@.drop_first()
            },
    {
        let r = self.pairs.pop_front();
        proof {
            if old(self).pairs@.len() > 0 {
                assert(final(self).pairs@ =~= old(self).pairs@.drop_first());
            }
        }
        r
    }

    /// Exact bounds on the number of pairs still to come.
    pub fn size_hint(&self) -> (r: (usize, Option<usize>))
        ensures
            r.0 == self.pairs@.len(),
    {
        (self.pairs.len(), Some(self.pairs.len()))
    }
}

impl<V, S: KeyHasher> HashMap<V, S> {
    /// Inserts every pair the iterator yields, in order; pairs under
    /// already-stored keys replace the old ones.
    pub fn extend(&mut self, other: &mut IntoIter<V>)
        requires
            old(self).wf(),
            old(self)@.dom().len() + old(other).pairs@.len() < usize::MAX,
        ensures
            final(self).wf(),
            final(other).pairs@.len() == 0,
            final(self)@ == crate::fold_insert(old(self)@, old(other).pairs@),
    {
        proof {
            old(self).lemma_hview();
        }
        loop
            invariant
                self.wf(),
                self@.dom().len() + other.pairs@.len() < usize::MAX,
                crate::fold_insert(self@, other.pairs@)
                    == crate::fold_insert(old(self)@, old(other).pairs@),
            ensures
                self.wf(),
                other.pairs@.len() == 0,
                self@ == crate::fold_insert(old(self)@, old(other).pairs@),
            decreases other.pairs@.len(),
        {
            proof {
                self.lemma_hview();
            }
            let ghost pre_map = self@;
            let ghost pre_pairs = other.pairs@;
            match other.next() {
                Some(p) => {
                    let _ = self.insert(p.0, p.1);
                    proof {
                        assert(crate::fold_insert(pre_map, pre_pairs)
                            == crate::fold_insert(
                                pre_map.insert(p.0, p.1), pre_pairs.drop_first()));
                    }
                },
                None => {
                    break;
                },
            }
        }
    }
}

/// A view into one slot of the hash map, found by a single hash and
/// search: either the stored pair or the place a pair for the key would
/// go. The handle owns the map while it lives.
pub enum Entry<V, S> {
    /// The key is stored.
    Occupied(OccupiedEntry<V, S>),
    /// The key is absent.
    Vacant(VacantEntry<V, S>),
}

/// A view into a stored pair of a hash map.
pub struct OccupiedEntry<V, S> {
    map: HashMap<V, S>,
    key: i64,
}

/// A view into the slot of an absent hash-map key.
pub struct VacantEntry<V, S> {
    map: HashMap<V, S>,
    key: i64,
}

impl<V, S: KeyHasher> OccupiedEntry<V, S> {
    /// The owned map.
    pub closed spec fn map_view(self) -> Map<i64, V> {
        self.map@
    }

    /// The key the entry stands on.
    pub closed spec fn key_spec(self) -> i64 {
        self.key
    }

    /// The map is well formed and the key is stored.
    pub closed spec fn wf(self) -> bool {
        &&& self.map.wf()
        &&& self.map@.dom().contains(self.key)
    }

    /// The key the entry stands on.
    pub fn key(&self) -> (r: i64)
        ensures
            r == self.key_spec(),
    {
        self.key
    }

    /// Borrows the stored value.
    pub fn get(&self) -> (r: &V)
        requires
            self.wf(),
        ensures
            *r == self.map_view()[self.key_spec()],
    {
        self.map.get(&self.key).unwrap()
    }

    /// Borrows the stored value mutably.
    pub fn get_mut(&mut self) -> (r: &mut V)
        requires
            old(self).wf(),
        ensures
            final(self).wf(),
            final(self).key_spec() == old(self).key_spec(),
            *r == old(self).map_view()[old(self).key_spec()],
            final(self).map_view() =~= old(self).map_view().insert(
                old(self).key_spec(), *final(r)),
    {
        self.map.get_mut(&self.key).unwrap()
    }

    /// Replaces the stored value, handing the old one back.
    pub fn insert(&mut self, value: V) -> (r: V)
        requires
            old(self).wf(),
        ensures
            final(self).wf(),
            final(self).key_spec() == old(self).key_spec(),
            r == old(self).map_view()[old(self).key_spec()],
            final(self).map_view() =~= old(self).map_view().insert(
                old(self).key_spec(), value),
    {
        let v = self.map.get_mut(&self.key).unwrap();
        let mut value = value;
        core::mem::swap(&mut value, v);
        value
    }

    /// Replaces the stored value, handing back the old pair with the map.
    pub fn replace_entry(self, value: V) -> (r: ((i64, V), HashMap<V, S>))
        requires
            self.wf(),
        ensures
            r.1.wf(),
            r.0.0 == self.key_spec(),
            r.0.1 == self.map_view()[self.key_spec()],
            r.1@ =~= self.map_view().insert(self.key_spec(), value),
    {
        let OccupiedEntry { mut map, key } = self;
        let mut value = value;
        let v = map.get_mut(&key).unwrap();
        core::mem::swap(&mut value, v);
        ((key, value), map)
    }

    /// Detaches the stored pair, handing it back with the map.
    pub fn remove_entry(self) -> (r: ((i64, V), HashMap<V, S>))
        requires
            self.wf(),
        ensures
            r.1.wf(),
            r.0.0 == self.key_spec(),
            r.0.1 == self.map_view()[self.key_spec()],
            r.1@ == self.map_view().remove(self.key_spec()),
    {
        let OccupiedEntry { mut map, key } = self;
        let pair = map.remove(&key).unwrap();
        (pair, map)
    }

    /// Detaches the stored value, handing it back with the map.
    pub fn remove(self) -> (r: (V, HashMap<V, S>))
        requires
            self.wf(),
        ensures
            r.1.wf(),
            r.0 == self.map_view()[self.key_spec()],
            r.1@ == self.map_view().remove(self.key_spec()),
    {
        let (pair, map) = self.remove_entry();
        (pair.1, map)
    }

    /// Hands the map back unchanged.
    pub fn into_map(self) -> (r: HashMap<V, S>)
        requires
            self.wf(),
        ensures
            r.wf(),
            r@ == self.map_view(),
    {
        let OccupiedEntry { map, .. } = self;
        map
    }
}

impl<V, S: KeyHasher> VacantEntry<V, S> {
    /// The owned map.
    pub closed spec fn map_view(self) -> Map<i64, V> {
        self.map@
    }

    /// The key the entry stands on.
    pub closed spec fn key_spec(self) -> i64 {
        self.key
    }

    /// The map is well formed and the key is absent.
    pub closed spec fn wf(self) -> bool {
        &&& self.map.wf()
        &&& !self.map@.dom().contains(self.key)
    }

    /// The key the entry stands on.
    pub fn key(&self) -> (r: i64)
        ensures
            r == self.key_spec(),
    {
        self.key
    }

    /// Gives the key up, handing the map back unchanged.
    pub fn into_key(self) -> (r: (i64, HashMap<V, S>))
        requires
            self.wf(),
        ensures
            r.0 == self.key_spec(),
            r.1.wf(),
            r.1@ == self.map_view(),
    {
        let VacantEntry { map, key } = self;
        (key, map)
    }

    /// Fills the slot the search found vacant, and hands the map back.
    pub fn insert(self, value: V) -> (r: HashMap<V, S>)
        requires
            self.wf(),
            self.map_view().dom().len() < usize::MAX,
        ensures
            r.wf(),
            r@ == self.map_view().insert(self.key_spec(), value),
    {
        let VacantEntry { mut map, key } = self;
        let _ = map.insert(key, value);
        map
    }
}

impl<V, S: KeyHasher> Entry<V, S> {
    /// Fills a vacant slot with what the given function makes; the
    /// function runs only when the slot is vacant.
    pub fn or_insert_with<F: FnOnce() -> V>(self, default: F) -> (r: HashMap<V, S>)
        requires
            match self {
                Entry::Occupied(o) => o.wf(),
                Entry::Vacant(v) => {
                    &&& v.wf()
                    &&& v.map_view().dom().len() < usize::MAX
                    &&& call_requires(default, ())
                },
            },
        ensures
            r.wf(),
            match self {
                Entry::Occupied(o) => r@ == o.map_view(),
                Entry::Vacant(v) => exists|d: V| #[trigger] call_ensures(
                    default, (), d) && r@ == v.map_view().insert(v.key_spec(), d),
            },
    {
        match self {
            Entry::Occupied(o) => o.into_map(),
            Entry::Vacant(v) => v.insert(default()),
        }
    }

    /// The key the entry stands on.
    pub fn key(&self) -> (r: i64)
        ensures
            r == match *self {
                Entry::Occupied(o) => o.key_spec(),
                Entry::Vacant(v) => v.key_spec(),
            },
    {
        match self {
            Entry::Occupied(o) => o.key(),
            Entry::Vacant(v) => v.key(),
        }
    }

    /// Fills a vacant slot with the default; either way the key is stored
    /// afterwards, and the map comes back.
    pub fn or_insert(self, default: V) -> (r: HashMap<V, S>)
        requires
            match self {
                Entry::Occupied(o) => o.wf(),
                Entry::Vacant(v) => v.wf() && v.map_view().dom().len() < usize::MAX,
            },
        ensures
            r.wf(),
            r@ == match self {
                Entry::Occupied(o) => o.map_view(),
                Entry::Vacant(v) => v.map_view().insert(v.key_spec(), default),
            },
    {
        match self {
            Entry::Occupied(o) => o.into_map(),
            Entry::Vacant(v) => v.insert(default),
        }
    }
}

impl<V, S: KeyHasher> HashMap<V, S> {
    /// Hashes and searches once for the key and hands back a handle on the
    /// result: the stored pair, or the vacant slot the pair would go to.
    pub fn entry(self, key: i64) -> (r: Entry<V, S>)
        requires
            self.wf(),
        ensures
            match r {
                Entry::Occupied(o) => {
                    &&& o.wf()
                    &&& o.map_view() == self@
                    &&& o.key_spec() == key
                    &&& self@.dom().contains(key)
                },
                Entry::Vacant(v) => {
                    &&& v.wf()
                    &&& v.map_view() == self@
                    &&& v.key_spec() == key
                    &&& !self@.dom().contains(key)
                },
            },
    {
        if self.contains_key(&key) {
            Entry::Occupied(OccupiedEntry { map: self, key })
        } else {
            Entry::Vacant(VacantEntry { map: self, key })
        }
    }
}

} // verus!
