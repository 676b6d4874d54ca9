use hash_ord::avl::AVLTree;
use std::cell::RefCell;

type DefaultType = AVLTree<Option<i64>>;

fn default_make_avl_element(n: usize) -> Vec<i64> {
    let mut v = vec![0i64; n];
    for idx in 0..v.len() {
        v[idx] = idx as i64;
        let pos = rand::random::<usize>() % (idx + 1);
        assert!(pos <= idx);
        v.swap(idx, pos);
    }
    v
}

fn default_build_avl(n: usize) -> DefaultType {
    let v = default_make_avl_element(n);
    let mut t = DefaultType::new();
    assert_eq!(t.size(), 0);
    for d in &v {
        t.insert(*d, Some(-*d));
    }
    t
}

#[test]
fn avl_test_avl_find() {
    let t = default_build_avl(1000);
    for num in 0..t.size() {
        let x = num as i64;
        assert_eq!(*t.get_ref(&x).unwrap(), Some(-x));
    }
}

#[test]
fn avl_test_avl_clear() {
    let test_num = 200usize;
    let mut t = default_build_avl(test_num);
    t.clear();
    assert!(t.empty());
    assert_eq!(t.max_height(), 0);
}

#[test]
fn test_avl_clone() {
    let test_num = 500usize;
    let ta = default_build_avl(test_num);
    let tb = ta.clone();
    assert!(ta.isomorphic(&tb));
}

#[test]
fn avl_test_avl_extend_iter() {
    let mut a = AVLTree::new();
    a.insert(2, 2);
    let mut b = AVLTree::new();
    b.insert(1, 1);
    b.insert(3, 3);
    let mut it = b.into_iter();
    a.extend(&mut it);
    assert_eq!(a.size(), 3);
    assert_eq!(*a.get_ref(&1).unwrap(), 1);
    assert_eq!(*a.get_ref(&2).unwrap(), 2);
    assert_eq!(*a.get_ref(&3).unwrap(), 3);
}

#[test]
fn avl_test_avl_cursors() {
    let t = default_build_avl(100);
    let mut cursors = AVLTree::find_cursors(t, &50);
    assert_eq!(cursors.get().unwrap().0, 50);
    for _ in 0..10 {
        cursors.next();
    }
    assert_eq!(cursors.get().unwrap().0, 60);
    for _ in 0..5 {
        cursors.prev();
    }
    assert_eq!(cursors.get().unwrap().0, 55);
    let x = cursors.erase_then_next();
    assert!(x.is_some());
    assert_eq!(x.unwrap().0, 55);
    assert_eq!(cursors.get().unwrap().0, 56);
    cursors.prev();
    assert_eq!(cursors.get().unwrap().0, 54);
    let x = cursors.erase_then_prev();
    assert!(x.is_some());
    assert_eq!(x.unwrap().0, 54);
    assert_eq!(cursors.get().unwrap().0, 53);
    cursors.next();
    assert_eq!(cursors.get().unwrap().0, 56);
    *cursors.get_mut().unwrap().1 = None;
    assert_eq!(*cursors.get().unwrap().1, None);
    cursors.erase_then_prev();
    let map = cursors.into_map();
    assert_eq!(map.len(), 97);
}

#[test]
fn avl_basic_shape() {
    let mut t = DefaultType::new();
    t.insert(3, None);
    assert_eq!(t.max_height(), 1);
    t.insert(2, None);
    assert_eq!(t.max_height(), 2);
    // inserting 1 forces the single right rotation; the tree stays height 2
    t.insert(1, None);
    assert_eq!(t.max_height(), 2);
    assert!(t.check_valid());
    assert!(t.bst_check());
    assert!(t.bst_check_reverse());
}

#[test]
fn avl_rotate_left_shape() {
    let mut t = DefaultType::new();
    t.insert(1, None);
    assert_eq!(t.max_height(), 1);
    t.insert(2, None);
    assert_eq!(t.max_height(), 2);
    // inserting 3 forces the single left rotation; the tree stays height 2
    t.insert(3, None);
    assert_eq!(t.max_height(), 2);
    assert!(t.check_valid());
}

#[test]
fn avl_insert_or_replace_pop() {
    let mut t = AVLTree::new();
    assert_eq!(t.insert_or_replace(7, "x"), None);
    assert_eq!(t.insert_or_replace(7, "y"), Some("x"));
    assert!(t.contain(&7));
    assert!(!t.contain(&8));
    assert_eq!(t.pop(&7), Some((7, "y")));
    assert_eq!(t.pop(&7), None);
    t.insert(9, "z");
    *t.get_mut(&9).unwrap() = "w";
    assert_eq!(*t.get_ref(&9).unwrap(), "w");
    t.traversal_clear();
    assert!(t.empty());
}

#[test]
fn avl_erase_random() {
    let test_num = 100usize;
    let mut t = default_build_avl(test_num);
    assert!(t.bst_check());
    assert!(t.bst_check_reverse());
    for _ in 0..60 {
        let x = (rand::random::<usize>() % test_num) as i64;
        match t.pop(&x) {
            None => {},
            Some((k, v)) => {
                assert_eq!(v.unwrap(), -x);
                assert_eq!(k, x);
            },
        }
        assert!(t.get_ref(&x).is_none());
    }
    assert!(t.bst_check());
    assert!(t.bst_check_reverse());
    assert!(t.check_valid());
}

#[test]
fn avl_clone_from_drop_count() {
    struct Node<'a> {
        b: &'a RefCell<i64>,
    }
    impl<'a> Drop for Node<'a> {
        fn drop(&mut self) {
            *self.b.borrow_mut() += 1;
        }
    }
    impl<'a> Clone for Node<'a> {
        fn clone(&self) -> Self {
            Node { b: self.b }
        }
    }
    let cnt = RefCell::new(0);
    let mut a = AVLTree::new();
    for i in 0..10i64 {
        a.insert(i, Node { b: &cnt });
    }
    let mut b = AVLTree::new();
    b.clone_from(&a);
    assert_eq!(b.size(), 10);
    drop(b);
    assert_eq!(*cnt.borrow(), 10);
    drop(a);
    assert_eq!(*cnt.borrow(), 20);
}
