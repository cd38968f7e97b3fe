use extended_hash_map::ExtendedHashMap;
use std::collections::HashMap;

const TEST_DATA_LEN: usize = 12;
const TEST_DATA: [(&str, i32); TEST_DATA_LEN] = [
    ("value1", 1),
    ("value2", 2),
    ("value3", 3),
    ("1", 10),
    ("2", 10),
    ("3", 10),
    ("1, 5", 100),
    ("5, 5", 200),
    ("10, 5", 300),
    ("(1, 5, 3)", 400),
    ("(5, 5, 4)", 500),
    ("(10, 5, 5)", 600),
];

fn ploc_conditions_for_test_data() -> (Vec<&'static str>, Vec<HashMap<&'static str, i32>>) {
    (
        vec![">=1", "<3", ">0, >0", ">=10, >0", "<5, >=5, >=3"],
        vec![
            HashMap::from([("1", 10), ("2", 10), ("3", 10)]),
            HashMap::from([("1", 10), ("2", 10)]),
            HashMap::from([("1, 5", 100), ("5, 5", 200), ("10, 5", 300)]),
            HashMap::from([("10, 5", 300)]),
            HashMap::from([("(1, 5, 3)", 400)]),
        ],
    )
}

fn hash_map_iter() -> std::vec::IntoIter<(&'static str, i32)> {
    let mut hash_map = HashMap::from(TEST_DATA).into_iter().collect::<Vec<_>>();

    hash_map.sort_by(|lhs, rhs| lhs.0.cmp(rhs.0));

    hash_map.into_iter()
}

fn as_hash_map<'a>(map: &ExtendedHashMap<&'a str, i32>) -> HashMap<&'a str, i32> {
    let mut hash_map = HashMap::new();
    let mut entries = map.iter();
    while let Some((key, val)) = entries.next() {
        assert_eq!(hash_map.insert(*key, *val), None);
    }
    hash_map
}

#[test]
fn map_create() {
    assert_eq!(ExtendedHashMap::<&str, i32>::new().is_empty(), true);

    assert_eq!(ExtendedHashMap::<&str, i32>::default().is_empty(), true);
}

#[test]
fn map_create_from() {
    let map = ExtendedHashMap::from(TEST_DATA);
    let hash_map = HashMap::from(TEST_DATA);

    let mut entries = map.iter();
    let mut seen = 0;
    while let Some((key, val)) = entries.next() {
        assert_eq!(hash_map[key], *val);
        seen += 1;
    }
    assert_eq!(seen, hash_map.len());
}

#[test]
fn map_len() {
    assert_eq!(ExtendedHashMap::from(TEST_DATA).len(), TEST_DATA_LEN);
}

#[test]
fn is_empty() {
    let mut map = ExtendedHashMap::<&str, i32>::new();

    assert_eq!(map.is_empty(), true);

    map.insert("1", 1);

    assert_eq!(map.is_empty(), false);
}

#[test]
fn capacity() {
    assert_eq!(ExtendedHashMap::<&str, i32>::new().capacity(), 0);
}

#[test]
fn clear() {
    let mut map = ExtendedHashMap::from(TEST_DATA);
    map.clear();

    assert_eq!(map.len(), 0);
    assert_ne!(map.capacity(), 0);
}

#[test]
fn iloc() {
    let map = ExtendedHashMap::from(TEST_DATA);

    let mut sorted_test_data = TEST_DATA.clone();
    sorted_test_data.sort_by(|a, b| a.0.cmp(b.0));

    for i in 0..TEST_DATA_LEN {
        assert_eq!(*map.iloc().index(i), sorted_test_data[i].1);
    }
}

#[test]
fn insert() {
    let mut map = ExtendedHashMap::new();
    map.insert("1", 1);

    assert_eq!(map.len(), 1);
    assert_eq!(*map.index(&"1"), 1);
}

#[test]
fn ploc() {
    let map = ExtendedHashMap::from(TEST_DATA);
    let (conditions, hash_maps) = ploc_conditions_for_test_data();

    for (condition, hash_map) in conditions.iter().zip(hash_maps.iter()) {
        assert_eq!(as_hash_map(&map.ploc(condition)), *hash_map);
    }
}

#[test]
fn iter() {
    let map = ExtendedHashMap::from(TEST_DATA);

    let mut entries = map.iter();
    for (rhs_key, rhs_val) in hash_map_iter() {
        let (lhs_key, lhs_val) = entries.next().unwrap();
        assert_eq!(*lhs_key, rhs_key);
        assert_eq!(*lhs_val, rhs_val);
    }
    assert!(entries.next().is_none());
}

#[test]
fn keys() {
    let map = ExtendedHashMap::from(TEST_DATA);

    let mut keys = map.keys();
    for (rhs_key, _) in hash_map_iter() {
        assert_eq!(*keys.next().unwrap(), rhs_key);
    }
    assert!(keys.next().is_none());
}

#[test]
fn values() {
    let map = ExtendedHashMap::from(TEST_DATA);

    let mut values = map.values();
    for (_, rhs_val) in hash_map_iter() {
        assert_eq!(*values.next().unwrap(), rhs_val);
    }
    assert!(values.next().is_none());
}

#[test]
fn insert_replaces_and_returns_the_old_value() {
    let mut map = ExtendedHashMap::new();

    assert_eq!(map.insert("b", 1), None);
    assert_eq!(map.insert("a", 2), None);
    assert_eq!(map.insert("b", 3), Some(1));
    assert_eq!(map.len(), 2);
    assert_eq!(*map.index(&"b"), 3);
    assert_eq!(*map.index(&"a"), 2);
}

#[test]
fn from_keeps_the_later_of_two_entries_with_one_key() {
    let map = ExtendedHashMap::from([("k", 1), ("j", 5), ("k", 2)]);

    assert_eq!(map.len(), 2);
    assert_eq!(map.get(&"k"), Some(&2));
    assert_eq!(map.get(&"j"), Some(&5));
    assert_eq!(map.get(&"i"), None);
}

#[test]
fn keys_come_in_the_order_of_str() {
    let keys = ["b", "", "a", "ab", "B", "10", "9", "é", "z", "\u{10000}", "\u{ffff}"];
    let mut map = ExtendedHashMap::new();
    for (i, key) in keys.iter().enumerate() {
        map.insert(*key, i);
    }
    let mut sorted = keys.to_vec();
    sorted.sort();

    let mut got = Vec::new();
    let mut it = map.keys();
    while let Some(key) = it.next() {
        got.push(*key);
    }
    assert_eq!(got, sorted);
}

#[test]
fn rank_past_the_last_key_is_none() {
    let map = ExtendedHashMap::from([("1", 10), ("2", 10), ("3", 10)]);

    assert_eq!(map.iloc().get(0), Some(&10));
    assert_eq!(map.iloc().get(1), Some(&10));
    assert_eq!(map.iloc().get(2), Some(&10));
    assert_eq!(map.iloc().get(3), None);
    assert_eq!(map.iloc().get(usize::MAX), None);
    assert_eq!(ExtendedHashMap::<&str, i32>::new().iloc().get(0), None);
}

#[test]
fn rank_follows_the_keys_not_the_insertions() {
    let map = ExtendedHashMap::from([("c", 3), ("a", 1), ("b", 2)]);

    assert_eq!(*map.iloc().index(0), 1);
    assert_eq!(*map.iloc().index(1), 2);
    assert_eq!(*map.iloc().index(2), 3);
}

#[test]
fn size_hint_counts_what_is_left() {
    let map = ExtendedHashMap::from([("c", 3), ("a", 1), ("b", 2)]);

    let mut it = map.iter();
    assert_eq!(it.size_hint(), (3, Some(3)));
    it.next();
    assert_eq!(it.size_hint(), (2, Some(2)));
    it.next();
    it.next();
    assert_eq!(it.size_hint(), (0, Some(0)));
    assert!(it.next().is_none());
    assert_eq!(it.size_hint(), (0, Some(0)));
    assert_eq!(map.keys().size_hint(), (3, Some(3)));
    assert_eq!(map.values().size_hint(), (3, Some(3)));
}

#[test]
fn capacity_is_at_least_the_length() {
    let map = ExtendedHashMap::from(TEST_DATA);

    assert!(map.capacity() >= map.len());
}

#[test]
fn keys_may_be_numbers() {
    let mut map = ExtendedHashMap::from([(10u64, "ten"), (9, "nine"), (100, "hundred")]);

    assert_eq!(map.insert(9, "neun"), Some("nine"));
    assert_eq!(*map.iloc().index(0), "neun");
    assert_eq!(*map.iloc().index(1), "ten");
    assert_eq!(*map.iloc().index(2), "hundred");
    assert_eq!(map.get(&11), None);
    let mut keys = map.keys();
    assert_eq!(keys.next(), Some(&9));
    assert_eq!(keys.next(), Some(&10));
    assert_eq!(keys.next(), Some(&100));
    assert_eq!(keys.next(), None);
}
