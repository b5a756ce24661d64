use kvstore::store::Entry;
use kvstore::store::GetResult;
use kvstore::store::Store;

fn bytes(s: &str) -> Vec<u8> {
    s.as_bytes().to_vec()
}

fn full_range(store: &Store) -> Vec<(Vec<u8>, Entry)> {
    // The empty key is the least key, and a single 0xff byte sorts after
    // every ASCII key used in these tests.
    store.range(&Vec::new(), &vec![0xffu8])
}

#[test]
fn put_then_get_returns_value() {
    let mut store = Store::new();
    store.put(bytes("greeting"), bytes("Hello, world!"));
    assert_eq!(
        store.get(&bytes("greeting")),
        GetResult::Found(bytes("Hello, world!"))
    );
}

#[test]
fn delete_leaves_visible_tombstone() {
    let mut store = Store::new();
    store.put(bytes("to_delete"), bytes("This will be deleted"));
    store.delete(bytes("to_delete"));
    assert_eq!(store.get(&bytes("to_delete")), GetResult::Tombstoned);
    let listed = store.range(&bytes("a"), &bytes("z"));
    assert_eq!(listed.len(), 1);
    assert_eq!(listed[0].0, bytes("to_delete"));
    assert_eq!(listed[0].1, Entry::Tombstone);
}

#[test]
fn compact_erases_tombstoned_key() {
    let mut store = Store::new();
    store.put(bytes("to_delete"), bytes("This will be deleted"));
    store.delete(bytes("to_delete"));
    store.compact();
    assert_eq!(store.get(&bytes("to_delete")), GetResult::Absent);
    let listed = store.range(&bytes("a"), &bytes("z"));
    assert_eq!(listed.len(), 0);
}

#[test]
fn get_on_empty_store_is_absent() {
    let store = Store::new();
    assert_eq!(store.get(&bytes("never_written")), GetResult::Absent);
}

#[test]
fn overwrite_keeps_one_slot_per_key() {
    let mut store = Store::new();
    store.put(bytes("a"), bytes("1"));
    store.put(bytes("b"), bytes("2"));
    store.put(bytes("a"), bytes("2"));
    assert_eq!(store.get(&bytes("a")), GetResult::Found(bytes("2")));
    assert_eq!(store.len(), 2);
}

#[test]
fn last_write_wins_over_mixed_writes() {
    let mut store = Store::new();
    store.put(bytes("k"), bytes("first"));
    store.delete(bytes("k"));
    store.put(bytes("k"), bytes("second"));
    store.put(bytes("k"), bytes("third"));
    assert_eq!(store.get(&bytes("k")), GetResult::Found(bytes("third")));
    store.delete(bytes("k"));
    assert_eq!(store.get(&bytes("k")), GetResult::Tombstoned);
}

#[test]
fn delete_of_never_inserted_key_is_tombstoned_not_absent() {
    let mut store = Store::new();
    store.delete(bytes("ghost"));
    assert_eq!(store.get(&bytes("ghost")), GetResult::Tombstoned);
    assert_eq!(store.len(), 1);
}

#[test]
fn range_yields_keys_sorted_without_duplicates() {
    let mut store = Store::new();
    store.put(bytes("pear"), bytes("4"));
    store.put(bytes("apple"), bytes("1"));
    store.put(bytes("banana"), bytes("3"));
    store.put(bytes("apricot"), bytes("2"));
    store.put(bytes("apple"), bytes("1b"));
    let listed = full_range(&store);
    let keys: Vec<Vec<u8>> = listed.iter().map(|p| p.0.clone()).collect();
    assert_eq!(
        keys,
        vec![bytes("apple"), bytes("apricot"), bytes("banana"), bytes("pear")]
    );
    for w in keys.windows(2) {
        assert!(w[0] < w[1]);
    }
}

#[test]
fn prefix_sorts_before_extension() {
    let mut store = Store::new();
    store.put(bytes("ab"), bytes("2"));
    store.put(bytes("a"), bytes("1"));
    store.put(bytes("abc"), bytes("3"));
    let listed = full_range(&store);
    let keys: Vec<Vec<u8>> = listed.iter().map(|p| p.0.clone()).collect();
    assert_eq!(keys, vec![bytes("a"), bytes("ab"), bytes("abc")]);
}

#[test]
fn compact_preserves_live_entries() {
    let mut store = Store::new();
    store.put(bytes("keep1"), bytes("v1"));
    store.put(bytes("drop1"), bytes("x"));
    store.put(bytes("keep2"), bytes("v2"));
    store.delete(bytes("drop1"));
    store.delete(bytes("drop2"));
    store.compact();
    assert_eq!(store.get(&bytes("keep1")), GetResult::Found(bytes("v1")));
    assert_eq!(store.get(&bytes("keep2")), GetResult::Found(bytes("v2")));
    assert_eq!(store.get(&bytes("drop1")), GetResult::Absent);
    assert_eq!(store.get(&bytes("drop2")), GetResult::Absent);
    assert_eq!(store.len(), 2);
}

#[test]
fn compact_twice_equals_compact_once() {
    let mut store = Store::new();
    store.put(bytes("a"), bytes("1"));
    store.delete(bytes("b"));
    store.put(bytes("c"), bytes("3"));
    store.delete(bytes("a"));
    store.compact();
    let after_once = full_range(&store);
    let len_once = store.len();
    store.compact();
    assert_eq!(full_range(&store), after_once);
    assert_eq!(store.len(), len_once);
}

#[test]
fn put_get_round_trip_with_empty_key_and_value() {
    let mut store = Store::new();
    store.put(Vec::new(), Vec::new());
    assert_eq!(store.get(&Vec::new()), GetResult::Found(Vec::new()));
    store.put(bytes("k"), Vec::new());
    assert_eq!(store.get(&bytes("k")), GetResult::Found(Vec::new()));
    store.put(Vec::new(), bytes("v"));
    assert_eq!(store.get(&Vec::new()), GetResult::Found(bytes("v")));
}

#[test]
fn repeated_identical_put_is_idempotent() {
    let mut store = Store::new();
    store.put(bytes("k"), bytes("v"));
    store.put(bytes("k"), bytes("v"));
    assert_eq!(store.get(&bytes("k")), GetResult::Found(bytes("v")));
    assert_eq!(store.len(), 1);
}

#[test]
fn range_bounds_are_half_open() {
    let mut store = Store::new();
    store.put(bytes("a"), bytes("1"));
    store.put(bytes("b"), bytes("2"));
    store.put(bytes("c"), bytes("3"));
    let listed = store.range(&bytes("a"), &bytes("c"));
    let keys: Vec<Vec<u8>> = listed.iter().map(|p| p.0.clone()).collect();
    assert_eq!(keys, vec![bytes("a"), bytes("b")]);
    assert_eq!(store.range(&bytes("b"), &bytes("b")).len(), 0);
    assert_eq!(store.range(&bytes("c"), &bytes("a")).len(), 0);
}

#[test]
fn range_reports_live_and_tombstoned_entries() {
    let mut store = Store::new();
    store.put(bytes("alive"), bytes("yes"));
    store.delete(bytes("dead"));
    let listed = full_range(&store);
    assert_eq!(listed.len(), 2);
    assert_eq!(listed[0].0, bytes("alive"));
    assert_eq!(listed[0].1, Entry::Live(bytes("yes")));
    assert_eq!(listed[1].0, bytes("dead"));
    assert_eq!(listed[1].1, Entry::Tombstone);
}

#[test]
fn range_of_empty_store_is_empty() {
    let store = Store::new();
    assert_eq!(full_range(&store).len(), 0);
    assert_eq!(store.len(), 0);
}

#[test]
fn compact_on_empty_store_is_a_no_op() {
    let mut store = Store::new();
    store.compact();
    assert_eq!(store.len(), 0);
    store.put(bytes("k"), bytes("v"));
    store.compact();
    assert_eq!(store.get(&bytes("k")), GetResult::Found(bytes("v")));
    assert_eq!(store.len(), 1);
}
