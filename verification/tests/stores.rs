use zarr3::store::list_dir_from_all_keys;
use zarr3::store::list_prefix_from_all_keys;
use zarr3::store::list_prefix_from_list_dir;
use zarr3::store::visit_listed;
use zarr3::store::HashMapStore;
use zarr3::store::ListableStore;
use zarr3::store::NodeKey;
use zarr3::store::ReadableStore;
use zarr3::store::WriteableStore;
use zarr3::RangeRequest;

fn key(s: &str) -> NodeKey {
    NodeKey::from_str(s).unwrap()
}

fn sorted(keys: Vec<NodeKey>) -> Vec<String> {
    let mut v: Vec<String> = keys.iter().map(|k| k.encode()).collect();
    v.sort();
    v
}

fn filled() -> HashMapStore {
    let mut s = HashMapStore::new();
    for (k, v) in [("zarr.json", 1u8), ("a/zarr.json", 2), ("a/c/0/0", 3), ("a/c/0/1", 4), ("b/zarr.json", 5)] {
        s.set(&key(k), vec![v; 4]).unwrap();
    }
    s
}

#[test]
fn store_gets_what_was_set() {
    let mut s = HashMapStore::new();
    assert_eq!(s.get(&key("a")).unwrap(), None);
    assert!(!s.has_key(&key("a")).unwrap());
    s.set(&key("a"), vec![1, 2, 3]).unwrap();
    assert_eq!(s.get(&key("a")).unwrap(), Some(vec![1, 2, 3]));
    s.set(&key("a"), vec![9]).unwrap();
    assert_eq!(s.get(&key("a")).unwrap(), Some(vec![9]));
    assert_eq!(s.list().unwrap().len(), 1);
    s.erase(&key("a")).unwrap();
    assert_eq!(s.list().unwrap().len(), 0);
    s.erase(&key("a")).unwrap();
    assert_eq!(s.get(&key("a")).unwrap(), None);
}

#[test]
fn store_lists_by_prefix() {
    let s = filled();
    assert_eq!(s.list().unwrap().len(), 5);
    assert_eq!(sorted(s.list_prefix(&key("a")).unwrap()), vec!["a/c/0/0", "a/c/0/1", "a/zarr.json"]);
    let (keys, prefixes) = s.list_dir(&key("a")).unwrap();
    assert_eq!(sorted(keys), vec!["a/zarr.json"]);
    assert_eq!(sorted(prefixes), vec!["a/c"]);
    let (keys, prefixes) = s.list_dir(&NodeKey::default()).unwrap();
    assert_eq!(sorted(keys), vec!["zarr.json"]);
    assert_eq!(sorted(prefixes), vec!["a", "b"]);
}

#[test]
fn store_erases_by_prefix() {
    let mut s = filled();
    s.erase_prefix(&key("a")).unwrap();
    assert_eq!(sorted(s.list().unwrap()), vec!["b/zarr.json", "zarr.json"]);
    s.erase_prefix(&NodeKey::default()).unwrap();
    assert!(s.list().unwrap().is_empty());
}

#[test]
fn listing_from_all_keys() {
    let all = || vec![key("a/b"), key("a/b/c"), key("ab"), key("a/d/e"), key("x")];
    assert_eq!(sorted(list_prefix_from_all_keys(all(), &key("a"))), vec!["a/b", "a/b/c", "a/d/e"]);
    let (keys, prefixes) = list_dir_from_all_keys(all(), &key("a"));
    assert_eq!(sorted(keys), vec!["a/b"]);
    assert_eq!(sorted(prefixes), vec!["a/b", "a/d"]);
}

#[test]
fn partial_values() {
    let mut s = HashMapStore::new();
    s.set(&key("k"), (0..10).collect()).unwrap();
    let got = s
        .get_partial_values(&[
            (key("k"), RangeRequest::new_range(2, Some(3))),
            (key("missing"), RangeRequest::new_range(0, None)),
            (key("k"), RangeRequest::Suffix(2)),
            (key("k"), RangeRequest::new_range(8, None)),
        ])
        .unwrap();
    assert_eq!(got, vec![Some(vec![2, 3, 4]), None, Some(vec![8, 9]), Some(vec![8, 9])]);
}

#[test]
fn walk_below_a_key() {
    let s = filled();
    let found = list_prefix_from_list_dir(&s, &key("a"), 100).unwrap().unwrap();
    assert_eq!(sorted(found), vec!["a/c/0/0", "a/c/0/1", "a/zarr.json"]);
    let all = list_prefix_from_list_dir(&s, &NodeKey::default(), 100).unwrap().unwrap();
    assert_eq!(all.len(), 5);
    // Three listings are needed below `a`: `a`, `a/c` and `a/c/0`.
    assert!(list_prefix_from_list_dir(&s, &key("a"), 3).unwrap().is_some());
    assert!(list_prefix_from_list_dir(&s, &key("a"), 2).unwrap().is_none());
    assert!(list_prefix_from_list_dir(&s, &key("a"), 0).unwrap().is_none());
    let mut to_visit = vec![key("x")];
    let mut result = vec![];
    visit_listed(&mut to_visit, &mut result, &[key("x/k")], &[key("x/d"), key("x/e")]);
    assert_eq!(sorted(result), vec!["x/k"]);
    assert_eq!(sorted(to_visit), vec!["x", "x/d", "x/e"]);
}
