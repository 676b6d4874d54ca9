//! A generic doubly-linked list for membership tracking: a circular list
//! threaded through an arena of link nodes addressed by index, suited to
//! walking a set of members, such as a table's non-empty buckets, without
//! scanning the rest.

use vstd::prelude::*;

verus! {

/// The index that stands for "no node".
pub const LIST_NIL: usize = usize::MAX;

/// One link node: the indices of its neighbours in the arena.
#[derive(Clone, Copy, PartialEq, Eq, Structural, Debug)]
pub struct ListHead {
    pub next: usize,
    pub prev: usize,
}

impl Default for ListHead {
    /// A detached link, pointing nowhere.
    fn default() -> (r: Self)
        ensures
            r.next == LIST_NIL,
            r.prev == LIST_NIL,
    {
        ListHead { next: LIST_NIL, prev: LIST_NIL }
    }
}

/// Makes node `i` a one-element circle: both neighbours are itself.
pub fn list_init(v: &mut Vec<ListHead>, i: usize)
    requires
        i < old(v)@.len(),
    ensures
        final(v)@ == old(v)@.update(i as int, ListHead { next: i, prev: i }),
{
    v[i] = ListHead { next: i, prev: i };
    proof {
        assert(final(v)@ =~= old(v)@.update(i as int, ListHead { next: i, prev: i }));
    }
}

/// Splices `node` in right after `i`.
pub fn list_add(v: &mut Vec<ListHead>, i: usize, node: usize)
    requires
        i < old(v)@.len(),
        node < old(v)@.len(),
        old(v)@[i as int].next < old(v)@.len(),
        i != node,
        old(v)@[i as int].next != node,
    ensures
        final(v)@.len() == old(v)@.len(),
        final(v)@[node as int].prev == i,
        final(v)@[node as int].next == old(v)@[i as int].next,
        final(v)@[i as int].next == node,
        final(v)@[old(v)@[i as int].next as int].prev == node,
        i != old(v)@[i as int].next
            ==> final(v)@[i as int].prev == old(v)@[i as int].prev,
        forall|j: int| 0 <= j < old(v)@.len() && j != i && j != node
            && j != old(v)@[i as int].next
            ==> #[trigger] final(v)@[j] == old(v)@[j],
        i != old(v)@[i as int].next
            ==> final(v)@[old(v)@[i as int].next as int].next
                == old(v)@[old(v)@[i as int].next as int].next,
{
    let nxt = v[i].next;
    let pn = v[node].next;
    v[node] = ListHead { prev: i, next: nxt };
    let old_prev = v[nxt].prev;
    v[nxt] = ListHead { prev: node, next: v[nxt].next };
    v[i] = ListHead { prev: v[i].prev, next: node };
}

/// Splices `node` in right before `i`.
pub fn list_add_tail(v: &mut Vec<ListHead>, i: usize, node: usize)
    requires
        i < old(v)@.len(),
        node < old(v)@.len(),
        old(v)@[i as int].prev < old(v)@.len(),
        i != node,
        old(v)@[i as int].prev != node,
    ensures
        final(v)@.len() == old(v)@.len(),
        final(v)@[node as int].next == i,
        final(v)@[node as int].prev == old(v)@[i as int].prev,
        final(v)@[i as int].prev == node,
        final(v)@[old(v)@[i as int].prev as int].next == node,
        i != old(v)@[i as int].prev
            ==> final(v)@[i as int].next == old(v)@[i as int].next,
        forall|j: int| 0 <= j < old(v)@.len() && j != i && j != node
            && j != old(v)@[i as int].prev
            ==> #[trigger] final(v)@[j] == old(v)@[j],
{
    let prv = v[i].prev;
    v[node] = ListHead { prev: prv, next: i };
    v[prv] = ListHead { prev: v[prv].prev, next: node };
    v[i] = ListHead { prev: node, next: v[i].next };
}

/// Unlinks node `i` from its circle, leaving it detached.
pub fn list_del(v: &mut Vec<ListHead>, i: usize)
    requires
        i < old(v)@.len(),
        old(v)@[i as int].next < old(v)@.len(),
        old(v)@[i as int].prev < old(v)@.len(),
        old(v)@[i as int].next != i,
        old(v)@[i as int].prev != i,
    ensures
        final(v)@.len() == old(v)@.len(),
        final(v)@[i as int].next == LIST_NIL,
        final(v)@[i as int].prev == LIST_NIL,
        final(v)@[old(v)@[i as int].next as int].prev == old(v)@[i as int].prev,
        final(v)@[old(v)@[i as int].prev as int].next == old(v)@[i as int].next,
        old(v)@[i as int].next != old(v)@[i as int].prev ==> {
            &&& final(v)@[old(v)@[i as int].next as int].next
                == old(v)@[old(v)@[i as int].next as int].next
            &&& final(v)@[old(v)@[i as int].prev as int].prev
                == old(v)@[old(v)@[i as int].prev as int].prev
        },
        forall|j: int| 0 <= j < old(v)@.len() && j != i
            && j != old(v)@[i as int].next && j != old(v)@[i as int].prev
            ==> #[trigger] final(v)@[j] == old(v)@[j],
{
    let nxt = v[i].next;
    let prv = v[i].prev;
    v[nxt] = ListHead { prev: prv, next: v[nxt].next };
    v[prv] = ListHead { prev: v[prv].prev, next: nxt };
    v[i] = ListHead { prev: LIST_NIL, next: LIST_NIL };
}

/// Unlinks node `i` and re-initialises it as a one-element circle.
pub fn list_del_init(v: &mut Vec<ListHead>, i: usize)
    requires
        i < old(v)@.len(),
        old(v)@[i as int].next < old(v)@.len(),
        old(v)@[i as int].prev < old(v)@.len(),
        old(v)@[i as int].next != i,
        old(v)@[i as int].prev != i,
    ensures
        final(v)@.len() == old(v)@.len(),
        final(v)@[i as int].next == i,
        final(v)@[i as int].prev == i,
        final(v)@[old(v)@[i as int].next as int].prev == old(v)@[i as int].prev,
        final(v)@[old(v)@[i as int].prev as int].next == old(v)@[i as int].next,
        forall|j: int| 0 <= j < old(v)@.len() && j != i
            && j != old(v)@[i as int].next && j != old(v)@[i as int].prev
            ==> #[trigger] final(v)@[j] == old(v)@[j],
{
    list_del(v, i);
    list_init(v, i);
}

/// A node is alone when it is its own successor.
pub fn list_is_empty(v: &Vec<ListHead>, i: usize) -> (r: bool)
    requires
        i < v@.len(),
    ensures
        r == (v@[i as int].next == i),
{
    v[i].next == i
}

/// Puts `new_node` into the circle in place of `old_node`.
pub fn list_replace(v: &mut Vec<ListHead>, old_node: usize, new_node: usize)
    requires
        old_node < old(v)@.len(),
        new_node < old(v)@.len(),
        old(v)@[old_node as int].next < old(v)@.len(),
        old(v)@[old_node as int].prev < old(v)@.len(),
        old(v)@[old_node as int].next != new_node,
        old(v)@[old_node as int].prev != new_node,
        old(v)@[old_node as int].next != old_node,
        old(v)@[old_node as int].prev != old_node,
        old_node != new_node,
    ensures
        final(v)@.len() == old(v)@.len(),
        final(v)@[new_node as int].next == old(v)@[old_node as int].next,
        final(v)@[new_node as int].prev == old(v)@[old_node as int].prev,
        final(v)@[old(v)@[old_node as int].next as int].prev == new_node,
        final(v)@[old(v)@[old_node as int].prev as int].next == new_node,
{
    let nxt = v[old_node].next;
    let prv = v[old_node].prev;
    v[new_node] = ListHead { prev: prv, next: nxt };
    v[nxt] = ListHead { prev: new_node, next: v[nxt].next };
    v[prv] = ListHead { prev: v[prv].prev, next: new_node };
}

} // verus!
