//! An in-process associative storage engine: an ordered map and a hash map,
//! both backed by the same AVL-balanced binary search tree, with hash
//! collisions resolved by a balanced tree per bucket.

use vstd::prelude::*;

pub mod avl_node;
pub mod ord_map;
pub mod avl;
pub mod hash_table;
pub mod hash_map;
pub mod list;
pub mod fastbin;

verus! {

/// Key stored at every tree node: the cached hash value first, then the real
/// key, compared lexicographically so that equal hashes fall back to the key.
/// The ordered map stores every node with a zero hash, so its nodes are
/// ordered by the key alone; the hash table keeps the real hash here.
#[derive(Clone, Copy, PartialEq, Eq, Structural, Debug)]
pub struct NodeKey {
    pub hash: u64,
    pub key: i64,
}

/// The map after inserting the pairs of a sequence left to right: a later
/// pair under the same key wins.
pub open spec fn fold_insert<V>(m: Map<i64, V>, s: Seq<(i64, V)>) -> Map<i64, V>
    decreases s.len(),
{
    if s.len() == 0 {
        m
    } else {
        fold_insert(m.insert(s[0].0, s[0].1), s.drop_first())
    }
}

/// Strict total order on node keys: by hash value first, then by the key.
pub open spec fn key_lt(a: NodeKey, b: NodeKey) -> bool {
    a.hash < b.hash || (a.hash == b.hash && a.key < b.key)
}

/// Three-way comparison of node keys, consistent with `key_lt`.
pub fn key_cmp(a: &NodeKey, b: &NodeKey) -> (r: core::cmp::Ordering)
    ensures
        r == core::cmp::Ordering::Less <==> key_lt(*a, *b),
        r == core::cmp::Ordering::Equal <==> *a == *b,
        r == core::cmp::Ordering::Greater <==> key_lt(*b, *a),
{
    if a.hash < b.hash {
        core::cmp::Ordering::Less
    } else if a.hash > b.hash {
        core::cmp::Ordering::Greater
    } else if a.key < b.key {
        core::cmp::Ordering::Less
    } else if a.key > b.key {
        core::cmp::Ordering::Greater
    } else {
        core::cmp::Ordering::Equal
    }
}

} // verus!
