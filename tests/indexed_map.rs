use std::collections::{HashMap, HashSet};

use indexed_map::IndexedMap;

fn set_of(keys: &[&'static str]) -> HashSet<&'static str> {
    keys.iter().copied().collect()
}

#[test]
fn should_do_stuff() {
    let mut m = IndexedMap::<&str, &str, usize>::new();
    m.insert("foo", "str1");
    let index_id = m.add_index("length".to_string(), |_, &v| vec![v.len()]);
    m.insert("foo2", "str2");
    m.insert("foo3", "string");
    let index = m.get_index(&index_id);
    let filtered = m.filter_by_index(&index_id, &4);
    println!("{:?}", index);
    println!("{:?}", filtered);
}

#[test]
fn length_index_scenario() {
    let mut m = IndexedMap::<&str, &str, usize>::new();
    assert_eq!(m.insert("foo", "str1"), None);
    let id = m.add_index("length".to_string(), |_, &v| vec![v.len()]);

    let mut expected: HashMap<usize, HashSet<&str>> = HashMap::new();
    expected.insert(4, set_of(&["foo"]));
    assert_eq!(m.get_index(&id), Some(&expected));

    m.insert("foo2", "str2");
    expected.insert(4, set_of(&["foo", "foo2"]));
    assert_eq!(m.get_index(&id), Some(&expected));

    m.insert("foo3", "string");
    expected.insert(6, set_of(&["foo3"]));
    assert_eq!(m.get_index(&id), Some(&expected));

    let filtered = m.filter_by_index(&id, &4).unwrap();
    assert_eq!(filtered.len(), 2);
    assert_eq!(filtered.get(&"foo"), Some(&"str1"));
    assert_eq!(filtered.get(&"foo2"), Some(&"str2"));

    assert_eq!(m.keys_by_index(&id, &6), Some(&set_of(&["foo3"])));
}

#[test]
fn absent_index_or_bucket_gives_none() {
    let mut other = IndexedMap::<&str, &str, usize>::new();
    let foreign = other.add_index("other".to_string(), |_, &v| vec![v.len()]);

    let mut m = IndexedMap::<&str, &str, usize>::new();
    m.insert("a", "xy");
    let id = m.add_index("length".to_string(), |_, &v| vec![v.len()]);

    assert_eq!(m.get_index(&foreign), None);
    assert_eq!(m.keys_by_index(&foreign, &2), None);
    assert_eq!(m.filter_by_index(&foreign, &2), None);

    assert_eq!(m.keys_by_index(&id, &7), None);
    assert_eq!(m.filter_by_index(&id, &7), None);
}

#[test]
fn index_built_before_or_after_inserts_agree() {
    let mut early = IndexedMap::<&str, &str, usize>::new();
    early.insert("a", "x");
    let early_id = early.add_index("length".to_string(), |_, &v| vec![v.len()]);
    early.insert("b", "yy");
    early.insert("c", "zz");

    let mut late = IndexedMap::<&str, &str, usize>::new();
    late.insert("a", "x");
    late.insert("b", "yy");
    late.insert("c", "zz");
    let late_id = late.add_index("length".to_string(), |_, &v| vec![v.len()]);

    assert_eq!(early.get_index(&early_id), late.get_index(&late_id));
    assert_eq!(late.keys_by_index(&late_id, &2), Some(&set_of(&["b", "c"])));
}

#[test]
fn several_secondary_keys_per_entry() {
    let mut m = IndexedMap::<&str, &str, char>::new();
    m.insert("k1", "abca");
    let id = m.add_index("letters".to_string(), |_, &v| v.chars().collect());
    m.insert("k2", "cd");

    assert_eq!(m.keys_by_index(&id, &'a'), Some(&set_of(&["k1"])));
    assert_eq!(m.keys_by_index(&id, &'b'), Some(&set_of(&["k1"])));
    assert_eq!(m.keys_by_index(&id, &'c'), Some(&set_of(&["k1", "k2"])));
    assert_eq!(m.keys_by_index(&id, &'d'), Some(&set_of(&["k2"])));
    assert_eq!(m.get_index(&id).unwrap().len(), 4);
}

#[test]
fn entry_without_secondary_keys_is_in_no_bucket() {
    let mut m = IndexedMap::<&str, &str, usize>::new();
    let id = m.add_index("nonempty".to_string(), |_, &v| {
        if v.is_empty() {
            vec![]
        } else {
            vec![v.len()]
        }
    });
    m.insert("empty", "");
    m.insert("full", "abc");
    let index = m.get_index(&id).unwrap();
    assert_eq!(index.len(), 1);
    assert_eq!(m.keys_by_index(&id, &3), Some(&set_of(&["full"])));
    assert_eq!(m.keys_by_index(&id, &0), None);
}

#[test]
fn reregistering_rebuilds_from_current_entries() {
    let mut m = IndexedMap::<&str, &str, usize>::new();
    m.insert("a", "x");
    let first = m.add_index("idx".to_string(), |_, &v| vec![v.len()]);
    m.insert("a", "xyz");
    // The overwrite leaves "a" in the bucket of its earlier value.
    assert_eq!(m.keys_by_index(&first, &1), Some(&set_of(&["a"])));
    assert_eq!(m.keys_by_index(&first, &3), Some(&set_of(&["a"])));

    let second = m.add_index("idx".to_string(), |_, &v| vec![v.len() * 10]);
    let mut expected: HashMap<usize, HashSet<&str>> = HashMap::new();
    expected.insert(30, set_of(&["a"]));
    assert_eq!(m.get_index(&second), Some(&expected));
    // The earlier handle names the same index, which is now the rebuilt one.
    assert_eq!(m.get_index(&first), Some(&expected));
}

#[test]
fn overwrite_returns_previous_value_and_filter_reads_current_value() {
    let mut m = IndexedMap::<&str, &str, usize>::new();
    let id = m.add_index("length".to_string(), |_, &v| vec![v.len()]);
    assert_eq!(m.insert("k", "aa"), None);
    assert_eq!(m.insert("k", "bbb"), Some("aa"));

    let stale = m.filter_by_index(&id, &2).unwrap();
    assert_eq!(stale.get(&"k"), Some(&"bbb"));
    let current = m.filter_by_index(&id, &3).unwrap();
    assert_eq!(current.get(&"k"), Some(&"bbb"));
}

#[test]
fn reads_through_to_the_entries() {
    let mut m = IndexedMap::<&str, &str, usize>::new();
    m.insert("a", "1");
    m.insert("b", "2");
    assert_eq!(m.len(), 2);
    assert_eq!(m.get("a"), Some(&"1"));
    assert!(m.contains_key("b"));
    assert!(!m.contains_key("c"));
}

#[test]
fn indices_of_different_names_are_kept_apart() {
    let mut m = IndexedMap::<&str, &str, usize>::new();
    m.insert("a", "xy");
    let by_len = m.add_index("length".to_string(), |_, &v| vec![v.len()]);
    let by_key_len = m.add_index("key_length".to_string(), |&k, _| vec![k.len()]);
    m.insert("bbb", "z");

    assert_eq!(m.keys_by_index(&by_len, &2), Some(&set_of(&["a"])));
    assert_eq!(m.keys_by_index(&by_len, &1), Some(&set_of(&["bbb"])));
    assert_eq!(m.keys_by_index(&by_key_len, &1), Some(&set_of(&["a"])));
    assert_eq!(m.keys_by_index(&by_key_len, &3), Some(&set_of(&["bbb"])));
}

#[test]
fn one_name_several_kinds_are_kept_apart() {
    let mut m = IndexedMap::<&str, &str, usize>::new();
    m.insert("a", "xy");
    let by_value = m.add_index_of_kind("idx".to_string(), 1, |_, &v| vec![v.len()]);
    let by_key = m.add_index_of_kind("idx".to_string(), 2, |&k, _| vec![k.len() + 100]);
    m.insert("bbb", "z");

    let mut value_index: HashMap<usize, HashSet<&str>> = HashMap::new();
    value_index.insert(2, set_of(&["a"]));
    value_index.insert(1, set_of(&["bbb"]));
    let mut key_index: HashMap<usize, HashSet<&str>> = HashMap::new();
    key_index.insert(101, set_of(&["a"]));
    key_index.insert(103, set_of(&["bbb"]));
    assert_eq!(m.get_index(&by_value), Some(&value_index));
    assert_eq!(m.get_index(&by_key), Some(&key_index));
    assert_eq!(m.keys_by_index(&by_key, &2), None);

    // Rebuilding one kind leaves the other kind of the same name as it was.
    let rebuilt = m.add_index_of_kind("idx".to_string(), 1, |_, &v| vec![v.len() * 10]);
    let mut rebuilt_index: HashMap<usize, HashSet<&str>> = HashMap::new();
    rebuilt_index.insert(20, set_of(&["a"]));
    rebuilt_index.insert(10, set_of(&["bbb"]));
    assert_eq!(m.get_index(&rebuilt), Some(&rebuilt_index));
    assert_eq!(m.get_index(&by_value), Some(&rebuilt_index));
    assert_eq!(m.get_index(&by_key), Some(&key_index));

    // The default kind is yet another index of the same name.
    let default_kind = m.add_index("idx".to_string(), |_, _| vec![7]);
    assert_eq!(m.keys_by_index(&default_kind, &7), Some(&set_of(&["a", "bbb"])));
    assert_eq!(m.get_index(&by_key), Some(&key_index));
}

#[test]
fn filter_returns_every_key_of_the_bucket() {
    let mut m = IndexedMap::<&str, &str, usize>::new();
    let id = m.add_index("length".to_string(), |_, &v| vec![v.len()]);
    m.insert("a", "xx");
    m.insert("b", "yy");
    m.insert("c", "zzz");
    let filtered = m.filter_by_index(&id, &2).unwrap();
    let keys: HashSet<&str> = filtered.keys().copied().collect();
    assert_eq!(&keys, m.keys_by_index(&id, &2).unwrap());
    assert_eq!(filtered.get(&"a"), Some(&"xx"));
    assert_eq!(filtered.get(&"b"), Some(&"yy"));
}
