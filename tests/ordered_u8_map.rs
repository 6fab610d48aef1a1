use std::cell::Cell;

use ordered_u8_map::OrderedU8Map;

fn values_of<T: Clone>(m: &OrderedU8Map<T>) -> Vec<T> {
    let mut out = Vec::new();
    let mut it = m.values();
    while let Some(v) = it.next() {
        out.push(v.clone());
    }
    out
}

fn drain<T>(m: OrderedU8Map<T>) -> Vec<(u8, T)> {
    let mut out = Vec::new();
    let mut it = m.into_iter();
    while let Some(e) = it.next() {
        out.push(e);
    }
    out
}

#[test]
fn new_map_is_empty() {
    let m: OrderedU8Map<u32> = OrderedU8Map::new();
    assert_eq!(m.len(), 0);
    assert!(m.is_empty());
    assert_eq!(m.get(0), None);
    assert_eq!(m.get(255), None);
    assert!(values_of(&m).is_empty());
    assert!(drain(m).is_empty());
}

#[test]
fn insert_then_get() {
    let mut m = OrderedU8Map::new();
    assert!(m.insert(10, "ten"));
    assert!(m.insert(4, "four"));
    assert_eq!(m.len(), 2);
    assert!(!m.is_empty());
    assert_eq!(m.get(10), Some(&"ten"));
    assert_eq!(m.get(4), Some(&"four"));
    assert_eq!(m.get(5), None);
}

#[test]
fn insert_does_not_overwrite() {
    let mut m = OrderedU8Map::new();
    assert!(m.insert(7, 1u32));
    assert!(!m.insert(7, 2u32));
    assert_eq!(m.get(7), Some(&1));
    assert_eq!(m.len(), 1);
}

#[test]
fn get_or_create_twice_creates_once() {
    let calls = Cell::new(0u32);
    let mut m = OrderedU8Map::new();
    {
        let v = m.get_or_create(9, || {
            calls.set(calls.get() + 1);
            100u32
        });
        assert_eq!(*v, 100);
        *v = 101;
    }
    {
        let v = m.get_or_create(9, || {
            calls.set(calls.get() + 1);
            200u32
        });
        assert_eq!(*v, 101);
    }
    assert_eq!(calls.get(), 1);
    assert_eq!(m.len(), 1);
    assert_eq!(m.get(9), Some(&101));
}

#[test]
fn get_or_create_keeps_order() {
    let mut m = OrderedU8Map::new();
    *m.get_or_create(30, || 0u32) += 3;
    *m.get_or_create(10, || 0u32) += 1;
    *m.get_or_create(20, || 0u32) += 2;
    *m.get_or_create(10, || 0u32) += 10;
    assert_eq!(values_of(&m), vec![11, 2, 3]);
}

#[test]
fn get_mut_changes_value() {
    let mut m = OrderedU8Map::new();
    m.insert(2, 20u32);
    m.insert(1, 10u32);
    if let Some(v) = m.get_mut(2) {
        *v = 22;
    }
    assert!(m.get_mut(3).is_none());
    assert_eq!(m.get(2), Some(&22));
    assert_eq!(m.get(1), Some(&10));
    assert_eq!(m.len(), 2);
}

#[test]
fn get_mut_on_empty_map() {
    let mut m: OrderedU8Map<u32> = OrderedU8Map::new();
    assert!(m.get_mut(0).is_none());
    assert!(m.is_empty());
}

#[test]
fn remove_round_trip() {
    let mut m = OrderedU8Map::new();
    m.insert(1, "a");
    m.insert(5, "e");
    assert!(m.insert(3, "c"));
    let before = m.len();
    assert_eq!(m.remove(3), Some("c"));
    assert_eq!(m.get(3), None);
    assert_eq!(m.len(), before - 1);
    assert_eq!(values_of(&m), vec!["a", "e"]);
}

#[test]
fn remove_missing_key() {
    let mut m = OrderedU8Map::new();
    assert_eq!(m.remove(4), None::<u32>);
    m.insert(3, 30u32);
    assert_eq!(m.remove(4), None);
    assert_eq!(m.len(), 1);
}

#[test]
fn remove_last_entry_empties_map() {
    let mut m = OrderedU8Map::new();
    m.insert(42, 1u32);
    assert_eq!(m.remove(42), Some(1));
    assert!(m.is_empty());
    assert_eq!(m.len(), 0);
    assert_eq!(m.get(42), None);
    assert!(values_of(&m).is_empty());
    // The emptied map takes new entries as a new one does.
    assert!(m.insert(42, 2));
    assert_eq!(m.get(42), Some(&2));
}

#[test]
fn take_moves_all_entries() {
    let mut m = OrderedU8Map::new();
    m.insert(5, "b");
    m.insert(1, "a");
    let t = m.take();
    assert_eq!(values_of(&t), vec!["a", "b"]);
    assert_eq!(t.len(), 2);
    assert_eq!(t.get(1), Some(&"a"));
    assert_eq!(t.get(5), Some(&"b"));
    assert_eq!(m.len(), 0);
    assert!(m.is_empty());
    assert_eq!(m.get(1), None);
    assert!(values_of(&m).is_empty());
    assert!(drain(m).is_empty());
}

#[test]
fn take_of_empty_map() {
    let mut m: OrderedU8Map<u8> = OrderedU8Map::new();
    let t = m.take();
    assert!(t.is_empty());
    assert!(m.is_empty());
}

#[test]
fn values_ascend_and_drain_descends() {
    let mut m = OrderedU8Map::new();
    m.insert(3, "c");
    m.insert(1, "a");
    m.insert(2, "b");
    assert_eq!(values_of(&m), vec!["a", "b", "c"]);
    assert_eq!(drain(m), vec![(3, "c"), (2, "b"), (1, "a")]);
}

#[test]
fn values_restart_each_call() {
    let mut m = OrderedU8Map::new();
    m.insert(8, 80u32);
    m.insert(6, 60u32);
    let mut first = m.values();
    assert_eq!(first.next(), Some(&60));
    assert_eq!(first.next(), Some(&80));
    assert_eq!(first.next(), None);
    assert_eq!(first.next(), None);
    let mut second = m.values();
    assert_eq!(second.next(), Some(&60));
}

#[test]
fn boundary_keys() {
    let mut m = OrderedU8Map::new();
    assert!(m.insert(255, "max"));
    assert!(m.insert(0, "min"));
    assert!(m.insert(128, "mid"));
    assert!(!m.insert(0, "again"));
    assert!(!m.insert(255, "again"));
    assert_eq!(m.get(0), Some(&"min"));
    assert_eq!(m.get(255), Some(&"max"));
    assert_eq!(values_of(&m), vec!["min", "mid", "max"]);
    assert_eq!(m.remove(255), Some("max"));
    assert_eq!(m.remove(0), Some("min"));
    assert_eq!(m.get(0), None);
    assert_eq!(m.get(255), None);
    assert_eq!(values_of(&m), vec!["mid"]);
    *m.get_or_create(0, || "zero") = "zero!";
    *m.get_or_create(255, || "top") = "top!";
    assert_eq!(drain(m), vec![(255, "top!"), (128, "mid"), (0, "zero!")]);
}

#[test]
fn all_256_keys() {
    let mut m = OrderedU8Map::new();
    for k in (0..=255u8).rev() {
        assert!(m.insert(k, k as u32 * 2));
    }
    assert_eq!(m.len(), 256);
    for k in 0..=255u8 {
        assert!(!m.insert(k, 0));
        assert_eq!(m.get(k), Some(&(k as u32 * 2)));
    }
    let vals = values_of(&m);
    assert_eq!(vals.len(), 256);
    assert_eq!(vals, (0..=255u32).map(|k| k * 2).collect::<Vec<u32>>());
    for k in 0..=255u8 {
        assert_eq!(m.remove(k), Some(k as u32 * 2));
    }
    assert!(m.is_empty());
}

#[test]
fn mixed_operations_stay_sorted() {
    let mut m = OrderedU8Map::new();
    let keys: [u8; 12] = [200, 3, 77, 15, 255, 0, 99, 3, 150, 42, 77, 8];
    for (i, k) in keys.iter().enumerate() {
        m.insert(*k, i);
    }
    m.remove(99);
    m.remove(8);
    m.remove(1);
    *m.get_or_create(60, || 1000) += 1;
    let mut present: Vec<u8> = Vec::new();
    for k in 0..=255u8 {
        if m.get(k).is_some() {
            present.push(k);
        }
    }
    assert_eq!(present, vec![0, 3, 15, 42, 60, 77, 150, 200, 255]);
    let expected: Vec<usize> = present.iter().map(|k| *m.get(*k).unwrap()).collect();
    assert_eq!(values_of(&m), expected);
    assert_eq!(m.get(3), Some(&1));
    assert_eq!(m.get(77), Some(&2));
    assert_eq!(m.get(60), Some(&1001));
    let drained = drain(m);
    let drained_keys: Vec<u8> = drained.iter().map(|e| e.0).collect();
    let mut descending = present.clone();
    descending.reverse();
    assert_eq!(drained_keys, descending);
}
