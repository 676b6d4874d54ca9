use hash_ord::hash_map::{HashMap, ConstantHasher, FnvBuildHasher, make_hash, Entry};
use std::cell::RefCell;

#[test]
fn test_hash_map() {
    let mut m = HashMap::new();
    for i in 100..200 {
        m.insert(i, -i);
    }
    assert!(m.contains_key(&100));
    assert_eq!(*m.get(&111).unwrap(), -111);
    assert_eq!(m.len(), 100);
    let mut a = m.first();
    let mut cnt = 0;
    while let Some(k) = a {
        cnt += 1;
        a = m.next(&k);
    }
    assert_eq!(cnt, m.len());
    let mut a = m.last();
    let mut cnt = 0;
    while let Some(k) = a {
        cnt += 1;
        a = m.prev(&k);
    }
    assert_eq!(cnt, m.len());
    assert_eq!(*m.get(&111).unwrap(), -111);
    {
        let v = m.get_mut(&111).unwrap();
        *v *= -1;
    }
    assert_eq!(*m.get(&111).unwrap(), 111);
    assert!(m.get(&-100).is_none());
}

#[test]
fn test_hash_map_remove() {
    struct Node<'a> {
        b: &'a RefCell<i64>,
    }
    impl<'a> Drop for Node<'a> {
        fn drop(&mut self) {
            *self.b.borrow_mut() += 1;
        }
    }
    let cnt = RefCell::new(0);
    let test_num = 199;
    let mut map = HashMap::new();
    for i in 0..test_num {
        map.insert(i, Node { b: &cnt });
    }
    assert_eq!(*cnt.borrow(), 0);
    for i in 0..test_num / 2 {
        map.remove(&i);
    }
    assert_eq!(*cnt.borrow(), test_num / 2);
    for i in test_num / 2..test_num {
        map.insert(i, Node { b: &cnt });
    }
    assert_eq!(*cnt.borrow(), test_num);
}

#[test]
fn test_hash_map_clear() {
    struct Node<'a> {
        b: &'a RefCell<i64>,
    }
    impl<'a> Drop for Node<'a> {
        fn drop(&mut self) {
            *self.b.borrow_mut() += 1;
        }
    }
    let cnt = RefCell::new(0);
    let test_num = 199;
    let mut map = HashMap::new();
    for i in 0..test_num {
        map.insert(i, Node { b: &cnt });
    }
    assert_eq!(*cnt.borrow(), 0);
    for i in 0..test_num / 2 {
        map.remove(&i);
    }
    assert_eq!(*cnt.borrow(), test_num / 2);
    map.clear();
    assert_eq!(*cnt.borrow(), test_num);
}

#[test]
fn test_hash_map_insert_duplicate() {
    struct Node<'a> {
        b: &'a RefCell<i64>,
    }
    impl<'a> Drop for Node<'a> {
        fn drop(&mut self) {
            *self.b.borrow_mut() += 1;
        }
    }
    let cnt = RefCell::new(0);
    let test_num = 100;
    let mut map = HashMap::new();
    for i in 0..test_num {
        map.insert(i, Node { b: &cnt });
    }
    assert_eq!(test_num as usize, map.len());
    assert_eq!(*cnt.borrow(), 0);
    for i in 0..test_num / 2 {
        map.insert(i, Node { b: &cnt });
    }
    assert_eq!(*cnt.borrow(), test_num / 2);
}

#[test]
fn test_hash_map_keys() {
    let test_num = 100;
    let mut m = HashMap::new();
    for i in 0..test_num {
        m.insert(i, -i);
    }
    let mut sum = 0;
    let mut keys = m.keys();
    while let Some(key) = keys.next() {
        sum += key;
    }
    assert_eq!(sum, test_num * (test_num - 1) / 2);
}

#[test]
fn test_hash_map_values() {
    let test_num = 100;
    let mut m = HashMap::new();
    for i in 0..test_num {
        m.insert(i, -i);
    }
    let mut sum = 0;
    let mut values = m.values();
    while let Some(value) = values.next() {
        sum += *value;
    }
    assert_eq!(sum, -test_num * (test_num - 1) / 2);
}

#[test]
fn test_hash_map_values_mut() {
    let test_num = 100;
    let mut m = HashMap::new();
    for i in 0..test_num {
        m.insert(i, -i);
    }
    let mut vm = m.values_mut();
    while let Some(value) = vm.next_mut(&mut m) {
        *value *= 2;
    }
    let mut sum = 0;
    let mut values = m.values();
    while let Some(value) = values.next() {
        sum += *value;
    }
    assert_eq!(sum, -test_num * (test_num - 1));
}

#[test]
fn test_hash_map_iter() {
    let test_num = 100;
    let mut m = HashMap::new();
    for i in 0..test_num {
        m.insert(i, -i);
    }
    let mut sum = 0;
    let mut sum1 = 0;
    let mut it = m.iter();
    while let Some(value) = it.next() {
        sum += value.0;
        sum1 += *value.1;
    }
    assert_eq!(sum, test_num * (test_num - 1) / 2);
    assert_eq!(sum1, -test_num * (test_num - 1) / 2);
}

#[test]
fn test_hash_map_iter_mut() {
    let test_num = 100;
    let mut m = HashMap::new();
    for i in 0..test_num {
        m.insert(i, -i);
    }
    let mut im = m.iter_mut();
    while let Some((_, value)) = im.next_mut(&mut m) {
        *value *= 2;
    }
    let mut sum = 0;
    let mut sum1 = 0;
    let mut it = m.iter();
    while let Some(value) = it.next() {
        sum += value.0;
        sum1 += *value.1;
    }
    assert_eq!(sum, test_num * (test_num - 1) / 2);
    assert_eq!(sum1, -test_num * (test_num - 1));
}

#[test]
fn test_hash_map_into_iter() {
    let test_num = 100;
    let mut a = HashMap::new();
    let mut b = HashMap::new();
    for i in 0..test_num as i64 {
        a.insert(i, -i);
    }
    for i in 0..test_num as i64 {
        b.insert(-i, i);
    }
    assert_eq!(a.len(), test_num);
    assert_eq!(b.len(), test_num);
    let mut it = b.into_iter();
    a.extend(&mut it);
    assert_eq!(a.len(), test_num * 2 - 1);
}

#[test]
fn test_hash_map_clone_equal() {
    let mut a = HashMap::new();
    for i in 0..100 {
        a.insert(i, -i);
    }
    let mut b = a.clone();
    assert_eq!(b.len(), a.len());
    let mut it = a.iter();
    while let Some((k, v)) = it.next() {
        assert_eq!(*b.get(&k).unwrap(), *v);
    }
    assert!(a == b);
    b.remove(&99);
    assert!(a != b);
}

#[test]
fn test_from_iter() {
    let xs = [(1, 1), (2, 2), (3, 3), (4, 4), (5, 5), (6, 6)];
    let mut map = HashMap::new();
    for &(k, v) in xs.iter() {
        map.insert(k, v);
    }
    for &(k, v) in &xs {
        assert_eq!(map.get(&k), Some(&v));
    }
}

#[test]
fn test_size_hint() {
    let xs = [(1, 1), (2, 2), (3, 3), (4, 4), (5, 5), (6, 6)];
    let mut map = HashMap::new();
    for &(k, v) in xs.iter() {
        map.insert(k, v);
    }
    let mut iter = map.iter();
    for _ in 0..3 {
        iter.next();
    }
    assert_eq!(iter.size_hint(), (3, Some(3)));
}

#[test]
fn test_mut_size_hint() {
    let xs = [(1, 1), (2, 2), (3, 3), (4, 4), (5, 5), (6, 6)];
    let mut map = HashMap::new();
    for &(k, v) in xs.iter() {
        map.insert(k, v);
    }
    let mut iter = map.iter_mut();
    for _ in 0..3 {
        iter.next_mut(&mut map);
    }
    assert_eq!(iter.size_hint(), (3, Some(3)));
}

#[test]
#[should_panic]
fn test_index_nonexistent() {
    let mut map = HashMap::new();
    map.insert(1, 2);
    map.insert(2, 1);
    map.insert(3, 4);
    map.get(&4).unwrap();
}

#[test]
fn hash_map_collision_flood() {
    // ten thousand keys forced into one bucket by a constant hash: every
    // lookup and removal still lands, through the per-bucket tree
    let mut m = HashMap::with_capacity_and_hasher(0, ConstantHasher);
    let n: i64 = 10000;
    for i in 0..n {
        m.insert(i, i * 3);
    }
    assert_eq!(m.len(), n as usize);
    assert_eq!(m.get_max_node_of_single_index(), n as usize);
    for i in 0..n {
        assert_eq!(*m.get(&i).unwrap(), i * 3);
    }
    for i in 0..n {
        assert_eq!(m.remove(&i), Some((i, i * 3)));
        assert!(m.get(&i).is_none());
    }
    assert!(m.is_empty());
}

#[test]
fn hash_map_fnv_is_not_identity() {
    // the trusted FNV wrapper: deterministic, spreading, and surely not
    // the key handed back unchanged
    let h0 = make_hash(&FnvBuildHasher, &0);
    let h1 = make_hash(&FnvBuildHasher, &1);
    assert_eq!(h0, make_hash(&FnvBuildHasher, &0));
    assert_ne!(h0, h1);
    assert_ne!(h0, 0u64);
    assert_ne!(h1, 1u64);
    assert_eq!(make_hash(&ConstantHasher, &12345), 0u64);
}

#[test]
fn hash_map_shrink_and_reserve() {
    let mut map = HashMap::new();
    for i in 0..200i64 {
        map.insert(i, i);
    }
    for i in 10..200i64 {
        map.remove(&i);
    }
    assert!(map.capacity() >= 200);
    map.shrink_to_fit();
    assert!(map.capacity() < 200);
    assert!(map.capacity() >= 8);
    for i in 0..10i64 {
        assert_eq!(*map.get(&i).unwrap(), i);
    }
    map.reserve(1000);
    assert!(map.capacity() >= 1000);
    for i in 0..10i64 {
        assert_eq!(*map.get(&i).unwrap(), i);
    }
    map.try_reserve(2000);
    assert!(map.capacity() >= 2000);
}

#[test]
fn hash_map_drain_empties() {
    let mut m = HashMap::new();
    for i in 0..50i64 {
        m.insert(i, -i);
    }
    let mut d = m.drain();
    assert!(m.is_empty());
    let mut sum = 0;
    let mut cnt = 0;
    while let Some((k, v)) = d.next() {
        assert_eq!(v, -k);
        sum += k;
        cnt += 1;
    }
    assert_eq!(cnt, 50);
    assert_eq!(sum, (0..50).sum::<i64>());
}

#[test]
fn test_empty_entry() {
    let m: HashMap<bool> = HashMap::new();
    let m = match m.entry(0) {
        Entry::Occupied(_) => panic!(),
        Entry::Vacant(v) => v.into_key().1,
    };
    let m = m.entry(0).or_insert(true);
    assert!(*m.get(&0).unwrap());
    assert_eq!(m.len(), 1);
}

#[test]
fn test_entry() {
    let xs = [(1, 10), (2, 20), (3, 30), (4, 40), (5, 50), (6, 60)];

    let mut map = HashMap::new();
    for &(k, v) in xs.iter() {
        map.insert(k, v);
    }

    let map = match map.entry(1) {
        Entry::Vacant(_) => unreachable!(),
        Entry::Occupied(mut view) => {
            assert_eq!(view.get(), &10);
            assert_eq!(view.insert(100), 10);
            view.into_map()
        },
    };
    assert_eq!(map.get(&1).unwrap(), &100);
    assert_eq!(map.len(), 6);

    let map = match map.entry(2) {
        Entry::Vacant(_) => unreachable!(),
        Entry::Occupied(mut view) => {
            let v = view.get_mut();
            let new_v = (*v) * 10;
            *v = new_v;
            view.into_map()
        },
    };
    assert_eq!(map.get(&2).unwrap(), &200);
    assert_eq!(map.len(), 6);

    let map = match map.entry(3) {
        Entry::Vacant(_) => unreachable!(),
        Entry::Occupied(view) => {
            let (v, map) = view.remove();
            assert_eq!(v, 30);
            map
        },
    };
    assert_eq!(map.get(&3), None);
    assert_eq!(map.len(), 5);

    let map = match map.entry(10) {
        Entry::Occupied(_) => unreachable!(),
        Entry::Vacant(view) => view.insert(1000),
    };
    assert_eq!(map.get(&10).unwrap(), &1000);
    assert_eq!(map.len(), 6);
}

#[test]
fn hash_map_entry_or_insert_with() {
    fn random_stat_buff() -> i64 {
        42
    }
    let m: HashMap<i64> = HashMap::new();
    let m = m.entry(1).or_insert(100);
    let m = m.entry(2).or_insert_with(random_stat_buff);
    let m = m.entry(1).or_insert_with(random_stat_buff);
    assert_eq!(*m.get(&1).unwrap(), 100);
    assert_eq!(*m.get(&2).unwrap(), 42);
    let m = match m.entry(2) {
        Entry::Vacant(_) => unreachable!(),
        Entry::Occupied(view) => {
            let (old, m2) = view.replace_entry(7);
            assert_eq!(old, (2, 42));
            m2
        },
    };
    assert_eq!(*m.get(&2).unwrap(), 7);
}
