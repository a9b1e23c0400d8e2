//! The typed layer: canonical encodings, typed references, the
//! persistent log and stack, and the replayed key-value store.

use distcomp::cas_referenced::{put_get, CASReferenced};
use distcomp::encode::Codec;
use distcomp::journal::SqliteJournal;
use distcomp::kvs::KeyValueStore;
use distcomp::log::Log;
use distcomp::stack::Stack;
use distcomp::{ApplicationId, CASKey, JournalError};

fn fresh() -> SqliteJournal {
    SqliteJournal::new_in_memory().expect("in-memory journal")
}

#[test]
fn unit_and_u32_and_string_codecs_roundtrip() {
    assert_eq!(<()>::decode(&<()>::encode(&())), Some(()));
    assert_eq!(<()>::decode(b"x"), None);
    let n: u32 = 0xDEAD_BEEF;
    assert_eq!(n.encode(), vec![0xEF, 0xBE, 0xAD, 0xDE]);
    assert_eq!(u32::decode(&n.encode()), Some(n));
    assert_eq!(u32::decode(&[1, 2, 3]), None);
    let s = String::from("grüße");
    assert_eq!(String::decode(&s.encode()), Some(s));
    assert_eq!(String::decode(&[0xFF, 0xFE]), None);
    let v: Vec<u8> = vec![9, 8, 7];
    assert_eq!(Vec::<u8>::decode(&v.encode()), Some(v));
}

#[test]
fn typed_reference_roundtrip() {
    let mut j = fresh();
    let stored = CASReferenced::<String>::put(&mut j, &String::from("typed")).unwrap();
    assert_eq!(stored.get(&j).unwrap(), "typed");
    let echoed = put_get(&mut j, &42u32).unwrap();
    assert_eq!(echoed, 42);
}

#[test]
fn typed_reference_wrong_type_is_corrupt() {
    // Five bytes never decode as a u32.
    let mut j = fresh();
    let stored = CASReferenced::<Vec<u8>>::put(&mut j, &vec![1, 2, 3, 4, 5]).unwrap();
    let as_number = CASReferenced::<u32>::from_key(CASKey::new(stored.key.to_bytes()));
    assert_eq!(as_number.get(&j).unwrap_err(), JournalError::CorruptPayload);
}

#[test]
fn log_push_and_forward_list() {
    // Three pushes walk back as three nodes and list forward in push
    // order.
    let mut j = fresh();
    let log = Log::<u32>::new();
    let log = log.push(&mut j, &1).unwrap();
    let log = log.push(&mut j, &2).unwrap();
    let log = log.push(&mut j, &3).unwrap();
    let nodes = log.walk_back(&j).unwrap();
    assert_eq!(nodes.len(), 3);
    assert_eq!(nodes[0].data, 3);
    assert_eq!(nodes[1].data, 2);
    assert_eq!(nodes[2].data, 1);
    assert!(nodes[0].parent.is_some());
    assert!(nodes[2].parent.is_none());
    assert_eq!(log.forward_list(&j).unwrap(), vec![1, 2, 3]);
}

#[test]
fn log_push_leaves_old_log_unchanged() {
    // The old value is observably the same after a push.
    let mut j = fresh();
    let l1 = Log::<u32>::new().push(&mut j, &10).unwrap();
    let l2 = l1.push(&mut j, &20).unwrap();
    assert_eq!(l1.forward_list(&j).unwrap(), vec![10]);
    assert_eq!(l2.forward_list(&j).unwrap(), vec![10, 20]);
    let l3 = l1.push(&mut j, &30).unwrap();
    assert_eq!(l1.forward_list(&j).unwrap(), vec![10]);
    assert_eq!(l2.forward_list(&j).unwrap(), vec![10, 20]);
    assert_eq!(l3.forward_list(&j).unwrap(), vec![10, 30]);
}

#[test]
fn log_with_dangling_head_reports_integrity_error() {
    // A head key naming no stored blob cannot be walked.
    let j = fresh();
    let log = Log::<u32>::from_head(Some(CASKey::new([3u8; 32])));
    assert_eq!(log.walk_back(&j).unwrap_err(), JournalError::CorruptCasObject);
}

#[test]
fn stack_mirrors_log() {
    let mut j = fresh();
    let stack = Stack::<()>::new();
    let stack = stack.push(&mut j, ()).unwrap();
    let stack = stack.push(&mut j, ()).unwrap();
    let stack = stack.push(&mut j, ()).unwrap();
    assert_eq!(stack.walk_backwards(&j).unwrap().len(), 3);
}

#[test]
fn kvs_insert_remove() {
    // Insert a, insert b, remove a: the table holds exactly b, and the
    // persisted log holds exactly three operation nodes.
    let mut j = fresh();
    let mut store = KeyValueStore::<String, String>::new();
    store.insert(&mut j, String::from("a"), String::from("1")).unwrap();
    store.insert(&mut j, String::from("b"), String::from("2")).unwrap();
    store.remove(&mut j, String::from("a")).unwrap();
    let table = store.inner();
    assert_eq!(table.len(), 1);
    assert_eq!(table[0].0, "b");
    assert_eq!(table[0].1, "2");
    let nodes = store.log().walk_back(&j).unwrap();
    assert_eq!(nodes.len(), 3);
}

#[test]
fn kvs_insert_replaces() {
    let mut j = fresh();
    let mut store = KeyValueStore::<String, u32>::new();
    store.insert(&mut j, String::from("n"), 1).unwrap();
    store.insert(&mut j, String::from("n"), 2).unwrap();
    let table = store.inner();
    assert_eq!(table.len(), 1);
    assert_eq!(table[0].1, 2);
}

#[test]
fn kvs_clear_empties() {
    let mut j = fresh();
    let mut store = KeyValueStore::<String, u32>::new();
    store.insert(&mut j, String::from("x"), 7).unwrap();
    store.clear(&mut j).unwrap();
    assert_eq!(store.inner().len(), 0);
}

#[test]
fn kvs_replays_from_log() {
    // Keeping only the log head and replaying rebuilds the same table.
    let mut j = fresh();
    let mut store = KeyValueStore::<String, String>::new();
    store.insert(&mut j, String::from("a"), String::from("1")).unwrap();
    store.insert(&mut j, String::from("b"), String::from("2")).unwrap();
    store.remove(&mut j, String::from("a")).unwrap();
    let mut revived = KeyValueStore::<String, String>::from_log(store.log());
    revived.init(&j).unwrap();
    let table = revived.inner();
    assert_eq!(table.len(), 1);
    assert_eq!(table[0].0, "b");
    assert_eq!(table[0].1, "2");
    // Writing after replay keeps working.
    revived.insert(&mut j, String::from("c"), String::from("3")).unwrap();
    let mut again = KeyValueStore::<String, String>::from_log(revived.log());
    again.init(&j).unwrap();
    assert_eq!(again.inner().len(), 2);
}

#[test]
fn kvs_writes_replay_lazily() {
    // Writing to a store resumed from a log replays it first, without an
    // explicit initialization step.
    let mut j = fresh();
    let mut store = KeyValueStore::<String, u32>::new();
    store.insert(&mut j, String::from("a"), 1).unwrap();
    let mut revived = KeyValueStore::<String, u32>::from_log(store.log());
    revived.insert(&mut j, String::from("b"), 2).unwrap();
    let table = revived.inner();
    assert_eq!(table.len(), 2);
}

#[test]
fn kvs_reads_replay_lazily() {
    // Reading from a store resumed from a log replays it first: the
    // uninitialized flag is not observable through reads.
    let mut j = fresh();
    let mut store = KeyValueStore::<String, u32>::new();
    store.insert(&mut j, String::from("a"), 11).unwrap();
    let mut revived = KeyValueStore::<String, u32>::from_log(store.log());
    assert_eq!(revived.read(&j, &String::from("a")).unwrap(), Some(&11));
    assert_eq!(revived.read(&j, &String::from("b")).unwrap(), None);
}

#[test]
fn kvs_commit_state_roundtrip() {
    // The store's persisted head travels through the journal's typed
    // state: serialize the head key bytes, commit, read back, replay.
    let mut j = fresh();
    let a = ApplicationId([8u8; 16]);
    let mut store = KeyValueStore::<String, String>::new();
    store.insert(&mut j, String::from("k"), String::from("v")).unwrap();
    let head = store.log().walk_back(&j).unwrap();
    assert_eq!(head.len(), 1);
    let head_key = match store.log().head_key() {
        Some(k) => k,
        None => panic!("log has a head"),
    };
    let (state, _entry_key) = j.update_state(&head_key.to_bytes().to_vec(), a).unwrap();
    let (got, _entry) = j.get_state_typed::<Vec<u8>>(a).unwrap().expect("state present");
    assert_eq!(got, head_key.to_bytes().to_vec());
    assert_eq!(j.get_state(a).unwrap(), Some(state));
    let mut revived = KeyValueStore::<String, String>::from_log(Log::from_head(Some(
        CASKey::new(got.try_into().unwrap()),
    )));
    revived.init(&j).unwrap();
    assert_eq!(revived.inner().len(), 1);
}
