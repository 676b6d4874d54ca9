use hash_ord::fastbin::Fastbin;
use hash_ord::list::{ListHead, LIST_NIL, list_init, list_add, list_add_tail, list_del,
    list_del_init, list_is_empty};
use hash_ord::hash_table::calc_limit;
use hash_ord::NodeKey;
use hash_ord::key_cmp;
use std::mem;

#[test]
fn test_fastbin_init() {
    struct Node {
        a: u8,
        b: u64,
        c: u8,
        e: u64,
        d: u8,
    }
    let _ = Node { a: 0, b: 0, c: 0, e: 0, d: 0 };
    let fb = Fastbin::new(mem::size_of::<Node>());
    assert_eq!(fb.align(), mem::align_of::<usize>());
    assert_eq!(fb.obj_size(), 24);
    assert_eq!(fb.page_size(), 1024);
    assert_eq!(fb.maximum(), 1usize << 16);
}

#[test]
fn fastbin_alloc_recycles_lifo() {
    struct Node {
        a: u8,
    }
    let _ = Node { a: 0 };
    let mut fb = Fastbin::new(mem::size_of::<Node>());
    for _ in 0..3 {
        fb.allocate();
    }
    let a = fb.allocate();
    for _ in 0..3 {
        fb.allocate();
    }
    let b = fb.allocate();
    for _ in 0..3 {
        fb.allocate();
    }
    let c = fb.allocate();
    fb.del(a);
    fb.del(b);
    fb.del(c);
    // the free list hands slots back most-recently-freed first
    assert_eq!(fb.allocate(), c);
    assert_eq!(fb.allocate(), b);
    assert_eq!(fb.allocate(), a);
    // fresh slots never repeat
    let d = fb.allocate();
    assert!(d != a && d != b && d != c);
}

#[test]
fn fastbin_pages_grow() {
    struct Node {
        a: u8,
    }
    let _ = Node { a: 0 };
    let mut fb = Fastbin::new(mem::size_of::<Node>());
    assert_eq!(fb.pages(), 0);
    fb.allocate();
    assert_eq!(fb.pages(), 1);
    for _ in 0..60 {
        fb.allocate();
    }
    assert_eq!(fb.pages(), 1);
    for _ in 0..150 {
        fb.allocate();
    }
    assert!(fb.pages() > 1);
    let mut moved = fb.move_to();
    assert_eq!(fb.pages(), 0);
    assert!(moved.pages() > 1);
    moved.destroy();
    assert_eq!(moved.pages(), 0);
    assert_eq!(moved.obj_size(), 8);
}

#[test]
fn test_list_operation() {
    let mut arena: Vec<ListHead> = vec![ListHead::default(); 4];

    list_init(&mut arena, 0);
    list_init(&mut arena, 1);
    list_init(&mut arena, 2);
    list_init(&mut arena, 3);

    list_add(&mut arena, 0, 1);
    list_add_tail(&mut arena, 0, 2);
    list_add(&mut arena, 0, 3);

    assert_eq!(arena[2].next, 0);
    assert_eq!(arena[0].next, 3);
    assert_eq!(arena[3].next, 1);
    assert_eq!(arena[1].next, 2);

    assert_eq!(arena[2].prev, 1);
    assert_eq!(arena[1].prev, 3);
    assert_eq!(arena[3].prev, 0);
    assert_eq!(arena[0].prev, 2);

    list_del(&mut arena, 3);

    assert_eq!(arena[0].next, 1);
    assert_eq!(arena[1].prev, 0);

    list_del_init(&mut arena, 0);
    assert_eq!(arena[0].next, 0);
    assert_eq!(arena[0].prev, 0);
    assert!(list_is_empty(&arena, 0));

    list_add(&mut arena, 1, 0);

    assert_eq!(arena[2].prev, 0);
}

#[test]
fn list_default_and_init() {
    let h = ListHead::default();
    assert_eq!(h.next, LIST_NIL);
    assert_eq!(h.prev, LIST_NIL);
    let mut arena = vec![ListHead::default(); 2];
    list_init(&mut arena, 1);
    assert_eq!(arena[1].next, 1);
    assert_eq!(arena[1].prev, 1);
    assert!(list_is_empty(&arena, 1));
    assert_eq!(arena[0].next, LIST_NIL);
}

#[test]
fn table_limit_formula() {
    // the load ceiling: one and a half buckets per element
    assert_eq!(calc_limit(0), 0);
    assert_eq!(calc_limit(4), 6);
    assert_eq!(calc_limit(100), 150);
    assert_eq!(calc_limit(usize::MAX), usize::MAX / 4);
}

#[test]
fn node_key_order() {
    // hash value decides first; the real key only breaks hash ties
    let a = NodeKey { hash: 1, key: 100 };
    let b = NodeKey { hash: 2, key: -5 };
    let c = NodeKey { hash: 2, key: 3 };
    assert_eq!(key_cmp(&a, &b), std::cmp::Ordering::Less);
    assert_eq!(key_cmp(&b, &c), std::cmp::Ordering::Less);
    assert_eq!(key_cmp(&c, &b), std::cmp::Ordering::Greater);
    assert_eq!(key_cmp(&c, &c), std::cmp::Ordering::Equal);
}
