use read_holds::stash::{
    map_entries, AppendBatch, Data, InternalStashError, StashCollection, StashError,
    TableTransaction, TypedCollection,
};
use std::cell::RefCell;
use std::collections::BTreeMap;

fn same(a: &String, b: &String) -> bool {
    a == b
}

fn table(items: &[(u64, &str)]) -> BTreeMap<u64, String> {
    items.iter().map(|(k, v)| (*k, v.to_string())).collect()
}

fn other(message: &str) -> StashError {
    StashError { inner: InternalStashError::Other(message.to_string()) }
}

#[test]
fn map_entries_lists_the_map() {
    let m = table(&[(2, "b"), (1, "a")]);
    assert_eq!(map_entries(&m), vec![(&1, &"a".to_string()), (&2, &"b".to_string())]);
}

#[test]
fn a_new_transaction_sees_the_table() {
    let txn = TableTransaction::new(table(&[(1, "a"), (2, "b")]), same);
    assert_eq!(txn.get(&1), Some(&"a".to_string()));
    assert_eq!(txn.get(&3), None);
    assert_eq!(txn.items(), table(&[(1, "a"), (2, "b")]));
    assert_eq!(txn.verify(), Ok(()));
    assert_eq!(txn.pending(), vec![]);
}

#[test]
fn set_returns_the_value_before() {
    let mut txn = TableTransaction::new(table(&[(1, "a")]), same);
    assert_eq!(txn.set(1, Some("b".to_string())), Ok(Some("a".to_string())));
    assert_eq!(txn.set(1, Some("c".to_string())), Ok(Some("b".to_string())));
    assert_eq!(txn.set(2, Some("d".to_string())), Ok(None));
    assert_eq!(txn.set(1, None), Ok(Some("c".to_string())));
    assert_eq!(txn.set(1, None), Ok(None));
    assert_eq!(txn.set(3, None), Ok(None));
    assert_eq!(txn.get(&1), None);
    assert_eq!(txn.items(), table(&[(2, "d")]));
}

#[test]
fn set_that_breaks_uniqueness_changes_nothing() {
    let mut txn = TableTransaction::new(table(&[(1, "a"), (2, "b")]), same);
    assert_eq!(txn.set(2, Some("a".to_string())), Err(other("uniqueness violation")));
    assert_eq!(txn.items(), table(&[(1, "a"), (2, "b")]));
    assert!(txn.pending.is_empty());
    assert_eq!(txn.set(2, Some("c".to_string())), Ok(Some("b".to_string())));
    assert_eq!(txn.set(2, Some("a".to_string())), Err(other("uniqueness violation")));
    assert_eq!(txn.get(&2), Some(&"c".to_string()));
    assert_eq!(txn.set(3, Some("c".to_string())), Err(other("uniqueness violation")));
    assert_eq!(txn.get(&3), None);
    // A key may take the value that it has.
    assert_eq!(txn.set(1, Some("a".to_string())), Ok(Some("a".to_string())));
}

#[test]
fn changes_show_in_what_is_pending() {
    let mut txn = TableTransaction::new(table(&[(1, "a"), (2, "b"), (3, "c")]), same);
    assert_eq!(txn.set(1, Some("x".to_string())), Ok(Some("a".to_string())));
    assert_eq!(txn.insert(4, "d".to_string()), Ok(()));
    assert_eq!(txn.update(|k: &u64, _: &String| if *k == 2 { Some("y".to_string()) } else { None }), Ok(1));
    assert_eq!(txn.delete(|k: &u64, _: &String| *k == 3), vec![(3, "c".to_string())]);
    let pending: Vec<(u64, Option<String>)> =
        txn.pending.iter().map(|(k, v)| (*k, v.clone())).collect();
    assert_eq!(
        pending,
        vec![
            (1, Some("x".to_string())),
            (2, Some("y".to_string())),
            (3, None),
            (4, Some("d".to_string())),
        ]
    );
    // A change that is not made leaves what is pending as it is.
    assert_eq!(txn.set(1, Some("y".to_string())), Err(other("uniqueness violation")));
    assert_eq!(txn.pending.len(), 4);
    assert_eq!(
        txn.pending(),
        vec![
            (1, "a".to_string(), -1),
            (1, "x".to_string(), 1),
            (2, "b".to_string(), -1),
            (2, "y".to_string(), 1),
            (3, "c".to_string(), -1),
            (4, "d".to_string(), 1),
        ]
    );
}

#[test]
fn insert_asks_for_a_new_key_and_a_new_value() {
    let mut txn = TableTransaction::new(table(&[(1, "a")]), same);
    assert_eq!(txn.insert(2, "b".to_string()), Ok(()));
    assert_eq!(txn.insert(2, "c".to_string()), Err(other("duplicate key")));
    assert_eq!(txn.insert(1, "c".to_string()), Err(other("duplicate key")));
    assert_eq!(txn.insert(3, "b".to_string()), Err(other("uniqueness violation")));
    assert_eq!(txn.insert(1, "a".to_string()), Err(other("uniqueness violation")));
    assert_eq!(txn.items(), table(&[(1, "a"), (2, "b")]));
    // A deleted key is new again.
    assert_eq!(txn.set(1, None), Ok(Some("a".to_string())));
    assert_eq!(txn.insert(1, "a".to_string()), Ok(()));
}

#[test]
fn update_counts_the_changed_items() {
    let mut txn = TableTransaction::new(table(&[(1, "a"), (2, "b"), (3, "c")]), same);
    let changed = txn.update(|k: &u64, v: &String| {
        if *k >= 2 {
            Some(format!("{}{}", v, v))
        } else {
            None
        }
    });
    assert_eq!(changed, Ok(2));
    assert_eq!(txn.items(), table(&[(1, "a"), (2, "bb"), (3, "cc")]));
    assert_eq!(txn.update(|_: &u64, _: &String| None), Ok(0));
    assert_eq!(txn.items(), table(&[(1, "a"), (2, "bb"), (3, "cc")]));
}

#[test]
fn update_that_breaks_uniqueness_changes_nothing() {
    let mut txn = TableTransaction::new(table(&[(1, "a"), (2, "b")]), same);
    assert_eq!(txn.set(3, Some("c".to_string())), Ok(None));
    let r = txn.update(|k: &u64, _: &String| if *k == 2 { Some("a".to_string()) } else { None });
    assert_eq!(r, Err(other("uniqueness violation")));
    assert_eq!(txn.items(), table(&[(1, "a"), (2, "b"), (3, "c")]));
    // All at once the values may change places.
    let r = txn.update(|k: &u64, _: &String| match *k {
        1 => Some("b".to_string()),
        2 => Some("a".to_string()),
        _ => None,
    });
    assert_eq!(r, Ok(2));
    assert_eq!(txn.items(), table(&[(1, "b"), (2, "a"), (3, "c")]));
}

#[test]
fn delete_returns_the_deleted_items() {
    let mut txn = TableTransaction::new(table(&[(1, "a"), (2, "b"), (3, "c")]), same);
    assert_eq!(txn.set(4, Some("d".to_string())), Ok(None));
    let deleted = txn.delete(|k: &u64, _: &String| k % 2 == 0);
    assert_eq!(deleted, vec![(2, "b".to_string()), (4, "d".to_string())]);
    assert_eq!(txn.items(), table(&[(1, "a"), (3, "c")]));
    assert_eq!(txn.delete(|_: &u64, _: &String| false), vec![]);
    assert_eq!(txn.get(&2), None);
}

#[test]
fn for_values_visits_each_item_once() {
    let mut txn = TableTransaction::new(table(&[(1, "a"), (2, "b"), (3, "c")]), same);
    assert_eq!(txn.set(2, None), Ok(Some("b".to_string())));
    assert_eq!(txn.set(4, Some("d".to_string())), Ok(None));
    assert_eq!(txn.set(3, Some("e".to_string())), Ok(Some("c".to_string())));
    let seen: RefCell<Vec<(u64, String)>> = RefCell::new(Vec::new());
    txn.for_values(|k: &u64, v: &String| seen.borrow_mut().push((*k, v.clone())));
    let mut seen = seen.into_inner();
    seen.sort();
    assert_eq!(
        seen,
        vec![(1, "a".to_string()), (3, "e".to_string()), (4, "d".to_string())]
    );
}

#[test]
fn verify_finds_values_that_break_uniqueness() {
    let txn = TableTransaction::new(table(&[(1, "a"), (2, "a")]), same);
    assert_eq!(txn.verify(), Err(other("uniqueness violation")));
    let txn = TableTransaction::new(table(&[(1, "a"), (2, "a")]), |_: &String, _: &String| false);
    assert_eq!(txn.verify(), Ok(()));
}

#[test]
fn pending_gives_the_changes_with_their_diffs() {
    let mut txn = TableTransaction::new(table(&[(1, "a"), (2, "b"), (3, "c")]), same);
    assert_eq!(txn.set(1, Some("x".to_string())), Ok(Some("a".to_string())));
    assert_eq!(txn.set(2, None), Ok(Some("b".to_string())));
    assert_eq!(txn.set(4, Some("d".to_string())), Ok(None));
    assert_eq!(txn.set(5, Some("e".to_string())), Ok(None));
    assert_eq!(txn.set(5, None), Ok(Some("e".to_string())));
    assert_eq!(
        txn.pending(),
        vec![
            (1, "a".to_string(), -1),
            (1, "x".to_string(), 1),
            (2, "b".to_string(), -1),
            (4, "d".to_string(), 1),
        ]
    );
}

#[test]
fn stash_errors_say_whether_they_can_be_recovered_from() {
    let fence = StashError { inner: InternalStashError::Fence("fenced".to_string()) };
    assert!(fence.is_unrecoverable());
    assert!(!fence.can_recover_with_write_mode());
    let read_only = StashError { inner: InternalStashError::StashNotWritable("no".to_string()) };
    assert!(!read_only.is_unrecoverable());
    assert!(read_only.can_recover_with_write_mode());
    let plain = StashError::from_message("something");
    assert_eq!(plain, other("something"));
    assert!(!plain.is_unrecoverable());
    assert!(!plain.can_recover_with_write_mode());
    assert!(!StashError { inner: InternalStashError::Uninitialized }.is_unrecoverable());
    assert!(!StashError { inner: InternalStashError::IncompatibleVersion(3) }.is_unrecoverable());
}

#[test]
fn a_batch_starts_at_the_upper_of_the_collection() {
    let collection: StashCollection<Vec<u8>, Vec<u8>> = StashCollection::new(7);
    assert_eq!(collection.clone().id, 7);
    let batch = collection.make_batch_lower(vec![41]).unwrap();
    assert_eq!(
        batch,
        AppendBatch {
            collection_id: 7,
            lower: vec![41],
            upper: vec![42],
            timestamp: 41,
            entries: vec![],
        }
    );
    assert_eq!(
        collection.make_batch_lower(vec![]),
        Err(other("cannot determine batch timestamp"))
    );
    assert_eq!(
        collection.make_batch_lower(vec![1, 2]),
        Err(other("cannot determine batch timestamp"))
    );
    assert_eq!(
        collection.make_batch_lower(vec![i64::MAX]),
        Err(other("cannot determine new upper"))
    );
}

#[test]
fn append_to_batch_adds_an_entry_at_the_time_of_the_batch() {
    let collection: StashCollection<Vec<u8>, Vec<u8>> = StashCollection::new(7);
    let mut batch = collection.make_batch_lower(vec![41]).unwrap();
    collection.append_to_batch(&mut batch, &vec![1, 2], &vec![3], 1);
    collection.append_to_batch(&mut batch, &vec![4], &vec![], -1);
    assert_eq!(
        batch.entries,
        vec![((vec![1, 2], vec![3]), 41, 1), ((vec![4], vec![]), 41, -1)]
    );
    assert_eq!(vec![9u8, 8].encode_to_vec(), vec![9, 8]);
}

#[test]
fn a_typed_collection_has_a_name() {
    let collection: TypedCollection<Vec<u8>, Vec<u8>> = TypedCollection::new("config");
    assert_eq!(collection.name(), "config");
}
