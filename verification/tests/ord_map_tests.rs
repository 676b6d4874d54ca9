use hash_ord::ord_map::{OrdMap, Entry};
use std::cell::RefCell;

type DefaultType = OrdMap<Option<i64>>;

struct Node<'a> {
    b: &'a RefCell<i64>,
}
impl<'a> Drop for Node<'a> {
    fn drop(&mut self) {
        *self.b.borrow_mut() += 1;
    }
}

fn default_make_avl_element(n: usize) -> Vec<i64> {
    let mut v = vec![0i64; n];
    for idx in 0..v.len() {
        v[idx] = idx as i64;
        let pos = rand::random::<usize>() % (idx + 1);
        assert!(pos <= idx);
        v.swap(idx, pos);
    }
    v
}

fn default_build_avl(n: usize) -> DefaultType {
    let v = default_make_avl_element(n);
    let mut t = DefaultType::new();
    assert_eq!(t.len(), 0);
    for d in &v {
        t.insert(*d, Some(-*d));
    }
    t
}

#[test]
fn ord_map_test_avl_find() {
    let t = default_build_avl(1000);
    for num in 0..t.len() {
        let x = num as i64;
        assert_eq!(*t.get(&x).unwrap(), Some(-x));
    }
}

#[test]
fn ord_map_test_avl_clear() {
    let cnt = RefCell::new(0);
    let test_num = 200;
    let mut map = OrdMap::new();
    for i in 0..test_num {
        map.insert(i, Node { b: &cnt });
    }
    assert_eq!(*cnt.borrow(), 0);
    map.clear();
    assert_eq!(*cnt.borrow(), test_num);
}

#[test]
fn ord_map_test_avl_clone_eq() {
    let test_num = 100usize;
    let ta = default_build_avl(test_num);
    let tb = ta.clone();
    assert!(ta.isomorphic(&tb));
    assert!(ta == tb);

    let ta = OrdMap::<i64>::new();
    let tb = OrdMap::<i64>::new();
    assert!(ta.isomorphic(&tb));
    assert!(ta == tb);
}

#[test]
fn ord_map_test_avl_extend_iter() {
    let mut a = OrdMap::new();
    a.insert(2, 2);
    let mut b = OrdMap::new();
    b.insert(1, 1);
    b.insert(3, 3);
    let mut it = b.into_iter();
    a.extend(&mut it);
    assert_eq!(a.len(), 3);
    assert_eq!(*a.get(&1).unwrap(), 1);
    assert_eq!(*a.get(&2).unwrap(), 2);
    assert_eq!(*a.get(&3).unwrap(), 3);

    let a = default_build_avl(100);
    let mut s = 0;
    let mut it = a.into_iter();
    while let Some((k, _)) = it.next() {
        s += k;
    }
    assert_eq!(s, (0..100).sum());
}

#[test]
fn ord_map_test_avl_cursors() {
    let t = default_build_avl(100);
    let mut cursors = t.find_cursors(&50);
    assert_eq!(cursors.get().unwrap().0, 50);
    for _ in 0..10 {
        cursors.next();
    }
    assert_eq!(cursors.get().unwrap().0, 60);
    for _ in 0..5 {
        cursors.prev();
    }
    assert_eq!(cursors.get().unwrap().0, 55);
    let x = cursors.erase_then_next();

    assert!(x.is_some());
    assert_eq!(x.unwrap().0, 55);

    assert_eq!(cursors.get().unwrap().0, 56);
    cursors.prev();
    assert_eq!(cursors.get().unwrap().0, 54);

    let x = cursors.erase_then_prev();

    assert!(x.is_some());
    assert_eq!(x.unwrap().0, 54);

    assert_eq!(cursors.get().unwrap().0, 53);
    cursors.next();
    assert_eq!(cursors.get().unwrap().0, 56);

    *cursors.get_mut().unwrap().1 = None;
    assert_eq!(*cursors.get().unwrap().1, None);

    cursors.erase_then_prev();
    let mut t = cursors.into_map();
    assert_eq!(t.len(), 97);
    {
        let cursors = t.find_cursors(&55);
        assert!(cursors.get().is_none());
        t = cursors.into_map();
    }
    assert_eq!(t.len(), 97);
}

#[test]
fn ord_map_test_avl_memory_leak() {
    let cnt = RefCell::new(0);
    let test_num = 111;
    let mut map = OrdMap::new();
    for i in 0..test_num {
        map.insert(i, Node { b: &cnt });
    }
    for i in 0..test_num / 2 {
        map.remove(&i);
    }
    assert_eq!(*cnt.borrow(), test_num / 2);
    for i in test_num / 2..test_num {
        map.insert(i, Node { b: &cnt });
    }
    assert_eq!(*cnt.borrow(), test_num);
    map.clear();
    assert_eq!(*cnt.borrow(), test_num * 2 - test_num / 2);
}

#[test]
fn ord_map_test_avl_from_iter() {
    let xs = [(1, 1), (2, 2), (3, 3), (4, 4), (5, 5), (6, 6)];
    let mut map = OrdMap::new();
    for &(k, v) in xs.iter() {
        map.insert(k, v);
    }
    for &(k, v) in &xs {
        assert_eq!(map.get(&k), Some(&v));
    }
}

#[test]
fn test_ord_map_test_avl_cursors() {
    let t = default_build_avl(100);
    let mut cursors = t.find_cursors(&50);
    assert_eq!(cursors.get().unwrap().0, 50);
    for _ in 0..10 {
        cursors.next();
    }
    assert_eq!(cursors.get().unwrap().0, 60);
    for _ in 0..5 {
        cursors.prev();
    }
    assert_eq!(cursors.get().unwrap().0, 55);
    let x = cursors.erase_then_next();
    assert!(x.is_some());
    assert_eq!(x.unwrap().0, 55);
    assert_eq!(cursors.get().unwrap().0, 56);
    cursors.prev();
    assert_eq!(cursors.get().unwrap().0, 54);
    let x = cursors.erase_then_prev();
    assert!(x.is_some());
    assert_eq!(x.unwrap().0, 54);
    assert_eq!(cursors.get().unwrap().0, 53);
    cursors.next();
    assert_eq!(cursors.get().unwrap().0, 56);
    *cursors.get_mut().unwrap().1 = None;
    assert_eq!(*cursors.get().unwrap().1, None);
    cursors.erase_then_prev();
    let t = cursors.into_map();
    assert_eq!(t.len(), 97);
    let cursors = t.find_cursors(&55);
    assert!(cursors.get().is_none());
}

#[test]
fn test_ord_map_test_avl_find() {
    let t = default_build_avl(1000);
    for num in 0..t.len() {
        let x = num as i64;
        assert_eq!(*t.get(&x).unwrap(), Some(-x));
    }
}

#[test]
fn ord_map_iteration_sorted() {
    let v = default_make_avl_element(100);
    let mut t = OrdMap::new();
    for x in &v {
        t.insert(*x, -*x);
    }
    assert!(t.bst_check());
    assert!(t.bst_check_reverse());
    let mut it = t.iter();
    let mut u = 0;
    while let Some((k, val)) = it.next() {
        assert_eq!(k, u);
        assert_eq!(*val, -u);
        u += 1;
    }
    assert_eq!(u, 100);
    let mut it = t.iter();
    let mut d = 99;
    while let Some((k, _)) = it.next_back() {
        assert_eq!(k, d);
        d -= 1;
    }
}

#[test]
fn ord_map_append_overlap() {
    // two maps with overlapping keys: the union survives, the incoming
    // map's values win on the overlap, and the drained map is empty
    let mut a = OrdMap::new();
    a.insert(1, "a");
    a.insert(2, "b");
    a.insert(3, "c");
    let mut b = OrdMap::new();
    b.insert(3, "d");
    b.insert(4, "e");
    b.insert(5, "f");
    a.append(&mut b);
    assert_eq!(a.len(), 5);
    assert_eq!(b.len(), 0);
    assert!(b.is_empty());
    assert_eq!(*a.get(&1).unwrap(), "a");
    assert_eq!(*a.get(&2).unwrap(), "b");
    assert_eq!(*a.get(&3).unwrap(), "d");
    assert_eq!(*a.get(&4).unwrap(), "e");
    assert_eq!(*a.get(&5).unwrap(), "f");
    assert!(a.check_valid());
}

#[test]
fn ord_map_append_counts_destructors() {
    let cnt = RefCell::new(0);
    let test_num = 100i64;
    let mut ma = OrdMap::new();
    for i in 0..test_num {
        ma.insert(i, Node { b: &cnt });
    }
    let mut mb = OrdMap::new();
    for i in test_num / 2..test_num * 2 {
        mb.insert(i, Node { b: &cnt });
    }
    assert_eq!(*cnt.borrow(), 0);
    ma.append(&mut mb);
    assert!(ma.check_valid());
    assert!(ma.bst_check());
    assert!(ma.bst_check_reverse());
    assert_eq!(ma.len() as i64, test_num * 2);
    assert_eq!(mb.len(), 0);
    // the overlapping half of `ma`'s records were dropped by the merge
    assert_eq!(*cnt.borrow(), test_num - test_num / 2);
    drop(mb);
    assert_eq!(*cnt.borrow(), test_num - test_num / 2);
    drop(ma);
    assert_eq!(*cnt.borrow(), 2 * test_num + (test_num - test_num / 2));
}

#[test]
fn ord_map_balanced_scenario() {
    // a thousand keys in ascending order: the tree ends at the optimal
    // height, lookups hit, and removing the even keys keeps it valid
    let mut t = OrdMap::new();
    for i in 0..1000i64 {
        t.insert(i, i);
    }
    assert_eq!(t.len(), 1000);
    assert_eq!(t.max_height(), 10);
    assert_eq!(*t.get(&500).unwrap(), 500);
    for i in 0..1000i64 {
        if i % 2 == 0 {
            assert_eq!(t.remove(&i), Some((i, i)));
        }
    }
    assert_eq!(t.len(), 500);
    assert!(t.check_valid());
    assert!(t.bst_check());
}

#[test]
fn ord_map_round_trip() {
    let mut t = OrdMap::new();
    assert!(t.is_empty());
    assert_eq!(t.insert(37, "a"), None);
    assert_eq!(t.is_empty(), false);
    assert_eq!(*t.get(&37).unwrap(), "a");
    assert_eq!(t.insert(37, "b"), Some((37, "a")));
    assert_eq!(*t.get(&37).unwrap(), "b");
    assert_eq!(t.remove(&37), Some((37, "b")));
    assert_eq!(t.get(&37), None);
    assert_eq!(t.remove(&37), None);
    assert!(t.is_empty());
    assert_eq!(t.max_height(), 0);
}

#[test]
fn ord_map_get_mut_and_values() {
    let mut t = OrdMap::new();
    for i in 0..10i64 {
        t.insert(i, i * 10);
    }
    *t.get_mut(&3).unwrap() = -30;
    assert_eq!(*t.get(&3).unwrap(), -30);
    assert!(t.get_mut(&100).is_none());

    let mut keys = t.keys();
    assert_eq!(keys.next(), Some(0));
    assert_eq!(keys.next(), Some(1));
    let mut values = t.values();
    assert_eq!(values.next(), Some(&0));
    assert_eq!(values.next(), Some(&10));

    let mut vm = t.values_mut();
    while let Some(v) = vm.next_mut(&mut t) {
        *v += 1;
    }
    assert_eq!(*t.get(&0).unwrap(), 1);
    assert_eq!(*t.get(&3).unwrap(), -29);

    let mut im = t.iter_mut();
    while let Some((k, v)) = im.next_mut(&mut t) {
        if k == 5 {
            *v = 0;
        }
    }
    assert_eq!(*t.get(&5).unwrap(), 0);
}

#[test]
fn ord_map_sorted_list() {
    let mut map = OrdMap::new();
    let mut expected = 0;
    for i in 0..100i64 {
        map.insert(i, i);
        expected += i;
    }
    let mut sum = 0;
    let list = map.into_iter().into_sorted_list();
    let mut it = list.iter();
    while let Some((k, _)) = it.next() {
        sum += k;
    }
    assert_eq!(sum, expected);
    let mut list = list;
    let first = list.next().unwrap();
    assert_eq!(first, (0, 0));
}

#[test]
fn ord_map_test_avl_entry() {
    let xs = [(1, 10), (2, 20), (3, 30), (4, 40), (5, 50), (6, 60)];

    let mut map = OrdMap::new();
    for &(k, v) in xs.iter() {
        map.insert(k, v);
    }

    let map = match map.entry(1) {
        Entry::Vacant(_) => unreachable!(),
        Entry::Occupied(mut view) => {
            assert_eq!(view.get(), &10);
            assert_eq!(view.insert(100), 10);
            view.into_map()
        },
    };
    assert_eq!(map.get(&1).unwrap(), &100);
    assert_eq!(map.len(), 6);

    let map = match map.entry(2) {
        Entry::Vacant(_) => unreachable!(),
        Entry::Occupied(mut view) => {
            let v = view.get_mut();
            let new_v = (*v) * 10;
            *v = new_v;
            view.into_map()
        },
    };
    assert_eq!(map.get(&2).unwrap(), &200);
    assert_eq!(map.len(), 6);

    let map = match map.entry(3) {
        Entry::Vacant(_) => unreachable!(),
        Entry::Occupied(view) => {
            let (v, map) = view.remove();
            assert_eq!(v, 30);
            map
        },
    };
    assert_eq!(map.get(&3), None);
    assert_eq!(map.len(), 5);

    let map = match map.entry(10) {
        Entry::Occupied(_) => unreachable!(),
        Entry::Vacant(view) => {
            assert_eq!(view.key(), 10);
            view.insert(1000)
        },
    };
    assert_eq!(map.get(&10).unwrap(), &1000);
    assert_eq!(map.len(), 6);

    let letters_text = "a short treatise on fungi";
    let mut letters = OrdMap::new();
    for ch in letters_text.bytes() {
        let m = letters.entry(ch as i64).or_insert(0);
        letters = m;
        *letters.get_mut(&(ch as i64)).unwrap() += 1;
    }
    assert_eq!(*letters.get(&(b's' as i64)).unwrap(), 2);
    assert_eq!(*letters.get(&(b't' as i64)).unwrap(), 3);
    assert_eq!(*letters.get(&(b'u' as i64)).unwrap(), 1);
    assert_eq!(letters.get(&(b'y' as i64)), None);
}

#[test]
fn test_avl_split_off() {
    let cnt = RefCell::new(0);
    let test_num = 100i64;
    {
        let mut ma = OrdMap::new();
        for i in 0..test_num {
            ma.insert(i, Node { b: &cnt });
        }
        assert_eq!(test_num as usize, ma.len());
        assert_eq!(*cnt.borrow(), 0);
        let mb = ma.split_off(&66);
        assert_eq!(ma.len(), 66);
        assert_eq!(mb.len(), 34);
        assert_eq!(*cnt.borrow(), 0);
        assert!(ma.check_valid());
        assert!(mb.check_valid());
        assert!(ma.contains_key(&65));
        assert!(!ma.contains_key(&66));
        assert!(mb.contains_key(&66));
        drop(ma);
        assert_eq!(*cnt.borrow(), 66);
        drop(mb);
        assert_eq!(*cnt.borrow(), test_num);
    }
    assert_eq!(*cnt.borrow(), test_num);
}

#[test]
fn test_avl_range() {
    let mut map = OrdMap::new();
    map.insert(3, "a");
    map.insert(5, "b");
    map.insert(8, "c");
    {
        assert_eq!(map.range(4, 9).size_hint().0, 2);
        assert_eq!(map.range(4, 8).size_hint().0, 1);
        assert_eq!(map.range(6, 9).size_hint().0, 1);
        assert_eq!(map.range(6, 8).size_hint().0, 0);

        assert_eq!(map.range(i64::MIN, 9).size_hint().0, 3);
        assert_eq!(map.range(i64::MIN, 8).size_hint().0, 2);
        assert_eq!(map.range(i64::MIN, i64::MAX).size_hint().0, 3);

        assert_eq!(map.range(5, i64::MAX).size_hint().0, 2);
        assert_eq!(map.range(4, i64::MAX).size_hint().0, 2);
    }
    {
        let mut walk = map.range(4, 9);
        let mut v: Vec<(i64, &str)> = Vec::new();
        while let Some((k, val)) = walk.next() {
            v.push((k, *val));
        }
        assert_eq!(v.len(), 2);
        assert_eq!(v[0].0, 5);
        assert_eq!(v[1].0, 8);
        let mut range_iter = map.range(4, 9);
        let back = range_iter.next_back();
        assert!(back.is_some());
        let back = back.unwrap();
        assert_eq!((back.0, *back.1), (8, "c"));
    }
    {
        let mut range_iter = map.range(4, i64::MAX);
        let b1 = range_iter.next_back().unwrap();
        assert_eq!((b1.0, *b1.1), (8, "c"));
        let b2 = range_iter.next_back().unwrap();
        assert_eq!((b2.0, *b2.1), (5, "b"));
        assert!(range_iter.next_back().is_none());
        assert!(range_iter.next().is_none());
    }
}

#[test]
fn ord_map_entry_or_insert_with() {
    fn one() -> i64 {
        1
    }
    let m: OrdMap<i64> = OrdMap::new();
    let m = m.entry(5).or_insert_with(one);
    let m = m.entry(5).or_insert_with(|| 9);
    assert_eq!(*m.get(&5).unwrap(), 1);
    let m = match m.entry(5) {
        Entry::Vacant(_) => unreachable!(),
        Entry::Occupied(view) => {
            let (old, m2) = view.replace_entry(3);
            assert_eq!(old, (5, 1));
            m2
        },
    };
    assert_eq!(*m.get(&5).unwrap(), 3);
}
