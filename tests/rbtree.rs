use dsgym_rs::rbtree::RBTreeMap;
use std::collections::BTreeMap;

/// A small deterministic generator for operation sequences.
fn lcg(seed: &mut u64) -> u64 {
    *seed = seed.wrapping_mul(6364136223846793005).wrapping_add(1442695040888963407);
    *seed >> 33
}

fn collect<K: Ord + Copy, V: Copy>(map: &RBTreeMap<K, V>) -> Vec<(K, V)> {
    let mut out = Vec::new();
    let mut it = map.iter();
    while let Some((k, v)) = it.next() {
        out.push((*k, *v));
    }
    out
}

#[test]
fn rbtree_basics() {
    let mut map = RBTreeMap::new();
    map.insert("A", 1);
    map.insert("B", 2);
    map.insert("C", 3);
    map.insert("D", 4);
    assert_eq!(map.get(&"A"), Some(&1));
    assert_eq!(map.get(&"D"), Some(&4));
    assert_eq!(map.get(&"ZZZ"), None);
    assert_eq!(map.len(), 4);
    assert_eq!(map.contains_key(&"A"), true);
    assert_eq!(map.contains_key(&"ZZZ"), false);

    assert_eq!(map.remove(&"B"), Some(2));
    assert_eq!(map.len(), 3);
    assert_eq!(map.remove(&"B"), None);
}

#[test]
fn iter() {
    let mut map = RBTreeMap::new();
    map.insert("D", 1);
    map.insert("C", 2);
    map.insert("B", 3);
    map.insert("A", 4);

    let mut it = map.iter();
    while let Some((k, v)) = it.next() {
        println!("{} {}", k, v);
    }
}

#[test]
fn iter_yields_ascending_keys() {
    let mut map = RBTreeMap::new();
    map.insert("D", 1);
    map.insert("C", 2);
    map.insert("B", 3);
    map.insert("A", 4);
    assert_eq!(collect(&map), vec![("A", 4), ("B", 3), ("C", 2), ("D", 1)]);
}

#[test]
fn scenario_letters() {
    let mut map = RBTreeMap::new();
    assert_eq!(map.insert("A", 1), None);
    assert_eq!(map.insert("B", 2), None);
    assert_eq!(map.insert("C", 3), None);
    assert_eq!(map.insert("D", 4), None);
    assert_eq!(map.get(&"A"), Some(&1));
    assert_eq!(map.get(&"D"), Some(&4));
    assert_eq!(map.get(&"Z"), None);
    assert_eq!(map.len(), 4);
    assert_eq!(map.remove(&"B"), Some(2));
    assert_eq!(map.len(), 3);
    assert_eq!(map.remove(&"B"), None);
    assert_eq!(map.len(), 3);
    assert!(map.is_234tree().is_some());
}

#[test]
fn scenario_iterate_seven_keys() {
    let mut map = RBTreeMap::new();
    for k in [5, 3, 8, 1, 4, 7, 9] {
        map.insert(k, k * 10);
    }
    let keys: Vec<i32> = collect(&map).into_iter().map(|(k, _)| k).collect();
    assert_eq!(keys, vec![1, 3, 4, 5, 7, 8, 9]);
    let values: Vec<i32> = collect(&map).into_iter().map(|(_, v)| v).collect();
    assert_eq!(values, vec![10, 30, 40, 50, 70, 80, 90]);
}

#[test]
fn empty_map() {
    let mut map: RBTreeMap<i32, i32> = RBTreeMap::new();
    assert_eq!(map.len(), 0);
    assert_eq!(map.get(&1), None);
    assert_eq!(map.get_key_value(&1), None);
    assert_eq!(map.contains_key(&1), false);
    assert_eq!(map.remove(&1), None);
    assert_eq!(map.remove_entry(&1), None);
    assert_eq!(map.is_234tree(), Some(0));
    assert!(map.iter().next().is_none());
}

#[test]
fn insert_twice_updates_value() {
    let mut map = RBTreeMap::new();
    assert_eq!(map.insert(7, "first"), None);
    assert_eq!(map.len(), 1);
    assert_eq!(map.insert(7, "second"), Some("first"));
    assert_eq!(map.len(), 1);
    assert_eq!(map.get(&7), Some(&"second"));
    assert_eq!(map.get_key_value(&7), Some((&7, &"second")));
}

#[test]
fn remove_entry_returns_pair() {
    let mut map = RBTreeMap::new();
    for k in 0..20 {
        map.insert(k, k + 100);
    }
    assert_eq!(map.remove_entry(&13), Some((13, 113)));
    assert_eq!(map.remove_entry(&13), None);
    assert_eq!(map.len(), 19);
    assert_eq!(map.get(&13), None);
    assert_eq!(map.get(&14), Some(&114));
}

#[test]
fn clear_empties_the_map() {
    let mut map = RBTreeMap::new();
    for k in 0..100 {
        map.insert(k, k);
    }
    map.clear();
    assert_eq!(map.len(), 0);
    assert_eq!(map.get(&5), None);
    assert!(map.iter().next().is_none());
    map.insert(3, 4);
    assert_eq!(map.get(&3), Some(&4));
    assert_eq!(map.len(), 1);
}

#[test]
fn black_height_after_ascending_inserts() {
    let mut map = RBTreeMap::new();
    map.insert(1, 1);
    assert_eq!(map.is_234tree(), Some(1));
    map.insert(2, 2);
    map.insert(3, 3);
    assert_eq!(map.is_234tree(), Some(1));
    map.insert(4, 4);
    assert_eq!(map.is_234tree(), Some(2));
    for k in 5..1000 {
        map.insert(k, k);
        assert!(map.is_234tree().is_some());
    }
    let bh = map.is_234tree().unwrap();
    assert!(bh >= 5 && bh <= 10);
}

#[test]
fn invariants_hold_after_every_operation() {
    let mut seed: u64 = 42;
    for round in 0..20 {
        let mut map = RBTreeMap::new();
        let mut keys = Vec::new();
        for _ in 0..(50 + round * 10) {
            let k = (lcg(&mut seed) % 200) as i32 - 100;
            map.insert(k, k);
            keys.push(k);
            assert!(map.is_234tree().is_some());
        }
        for &k in keys.iter() {
            assert_eq!(map.get(&k), Some(&k));
        }
        for &k in keys.iter().rev() {
            map.remove(&k);
            assert!(map.is_234tree().is_some());
        }
        assert_eq!(map.len(), 0);
        for &k in keys.iter() {
            assert_eq!(map.get(&k), None);
        }
    }
}

#[test]
fn size_is_set_properly() {
    let mut seed: u64 = 7;
    let mut reference = BTreeMap::new();
    let mut map = RBTreeMap::new();
    for _ in 0..500 {
        let x = (lcg(&mut seed) % 300) as i32;
        map.insert(x, x);
        reference.insert(x, x);
        assert_eq!(reference.len(), map.len());
    }
}

#[test]
fn sorted_like_btreemap() {
    let mut seed: u64 = 99;
    let mut reference = BTreeMap::new();
    let mut map = RBTreeMap::new();
    for i in 0..800 {
        let x = (lcg(&mut seed) % 400) as i32;
        if i % 3 == 2 {
            assert_eq!(map.remove(&x), reference.remove(&x));
        } else {
            assert_eq!(map.insert(x, i), reference.insert(x, i));
        }
        assert_eq!(map.len(), reference.len());
    }
    let expected: Vec<(i32, i32)> = reference.iter().map(|(k, v)| (*k, *v)).collect();
    assert_eq!(collect(&map), expected);
}

#[test]
fn insert_and_remove() {
    let mut seed: u64 = 1234;
    let mut reference = BTreeMap::new();
    let mut map = RBTreeMap::new();
    for _ in 0..300 {
        let x = (lcg(&mut seed) % 1000) as i32;
        reference.insert(x, x);
        map.insert(x, x);
    }
    for (&k1, &v1) in reference.iter() {
        assert_eq!(map.remove_entry(&k1), Some((k1, v1)));
    }
    assert_eq!(map.len(), 0);
    assert_eq!(map.is_234tree(), Some(0));
}
