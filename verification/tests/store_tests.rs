use kvdb::store::KvStore;
use kvdb::KvdbError;

fn fresh() -> KvStore {
    KvStore::open(String::new()).expect("empty log must open")
}

fn reopen(store: &KvStore) -> KvStore {
    KvStore::open(store.log_data().clone()).expect("a log the store wrote must reopen")
}

#[test]
fn empty_store_has_nothing() {
    let mut store = fresh();
    assert_eq!(store.get(String::from("a")).unwrap(), None);
}

#[test]
fn set_then_get() {
    let mut store = fresh();
    store.set(String::from("k"), String::from("v")).unwrap();
    assert_eq!(store.get(String::from("k")).unwrap(), Some(String::from("v")));
}

#[test]
fn last_write_wins() {
    let mut store = fresh();
    store.set(String::from("k"), String::from("v1")).unwrap();
    store.set(String::from("k"), String::from("v2")).unwrap();
    assert_eq!(store.get(String::from("k")).unwrap(), Some(String::from("v2")));
}

#[test]
fn tombstone_effect() {
    let mut store = fresh();
    store.set(String::from("k"), String::from("v")).unwrap();
    store.remove(String::from("k")).unwrap();
    assert_eq!(store.get(String::from("k")).unwrap(), None);
    let second = store.remove(String::from("k"));
    assert!(matches!(second, Err(KvdbError::KeyNotFound)));
}

#[test]
fn remove_absent_key_fails_and_writes_nothing() {
    let mut store = fresh();
    let before = store.log_data().len();
    assert!(matches!(
        store.remove(String::from("ghost")),
        Err(KvdbError::KeyNotFound)
    ));
    assert_eq!(store.log_data().len(), before);
}

#[test]
fn example_scenario_reopen() {
    let mut store = fresh();
    store.set(String::from("a"), String::from("1")).unwrap();
    store.set(String::from("b"), String::from("2")).unwrap();
    store.remove(String::from("a")).unwrap();
    store.set(String::from("b"), String::from("3")).unwrap();
    let mut reopened = reopen(&store);
    assert_eq!(reopened.get(String::from("a")).unwrap(), None);
    assert_eq!(reopened.get(String::from("b")).unwrap(), Some(String::from("3")));
}

#[test]
fn recovery_matches_memory_for_every_key() {
    let mut store = fresh();
    store.set(String::from("x"), String::from("1")).unwrap();
    store.set(String::from("y"), String::from("2")).unwrap();
    store.remove(String::from("x")).unwrap();
    store.set(String::from("z"), String::from("3")).unwrap();
    store.set(String::from("y"), String::from("4")).unwrap();
    let mut reopened = reopen(&store);
    for key in ["x", "y", "z", "missing"] {
        assert_eq!(
            store.get(String::from(key)).unwrap(),
            reopened.get(String::from(key)).unwrap(),
            "key {key} differs after recovery"
        );
    }
}

#[test]
fn log_length_never_decreases() {
    let mut store = fresh();
    let mut len = store.log_data().len();
    store.set(String::from("a"), String::from("1")).unwrap();
    assert!(store.log_data().len() >= len);
    len = store.log_data().len();
    store.set(String::from("a"), String::from("2")).unwrap();
    assert!(store.log_data().len() >= len);
    len = store.log_data().len();
    store.remove(String::from("a")).unwrap();
    assert!(store.log_data().len() >= len);
    len = store.log_data().len();
    let _ = store.remove(String::from("a"));
    assert!(store.log_data().len() >= len);
    len = store.log_data().len();
    let _ = store.get(String::from("a"));
    assert!(store.log_data().len() >= len);
}

#[test]
fn replaying_twice_gives_identical_mappings() {
    let mut store = fresh();
    store.set(String::from("p"), String::from("1")).unwrap();
    store.set(String::from("q"), String::from("2")).unwrap();
    store.remove(String::from("p")).unwrap();
    let mut first = reopen(&store);
    let mut second = reopen(&store);
    for key in ["p", "q", "r"] {
        assert_eq!(
            first.get(String::from(key)).unwrap(),
            second.get(String::from(key)).unwrap()
        );
    }
}

#[test]
fn durable_after_reported_success() {
    let mut store = fresh();
    store.set(String::from("k"), String::from("v")).unwrap();
    let mut restarted = reopen(&store);
    assert_eq!(restarted.get(String::from("k")).unwrap(), Some(String::from("v")));
    store.remove(String::from("k")).unwrap();
    let mut restarted = reopen(&store);
    assert_eq!(restarted.get(String::from("k")).unwrap(), None);
}

#[test]
fn keys_and_values_with_wire_characters_survive() {
    let mut store = fresh();
    let key = String::from("ta\tb\nc\\d");
    let value = String::from("line1\nline2\tend\\");
    store.set(key.clone(), value.clone()).unwrap();
    assert_eq!(store.get(key.clone()).unwrap(), Some(value.clone()));
    let mut reopened = reopen(&store);
    assert_eq!(reopened.get(key).unwrap(), Some(value));
}

#[test]
fn open_rejects_corrupt_text() {
    assert!(matches!(
        KvStore::open(String::from("garbage")),
        Err(KvdbError::CorruptRecord)
    ));
    assert!(matches!(
        KvStore::open(String::from("S\tkey\tvalue")),
        Err(KvdbError::CorruptRecord)
    ));
    assert!(matches!(
        KvStore::open(String::from("X\tkey\n")),
        Err(KvdbError::CorruptRecord)
    ));
}

#[test]
fn error_messages_are_stable() {
    assert_eq!(KvdbError::KeyNotFound.message(), "Key not found");
    assert_eq!(KvdbError::CorruptRecord.message(), "corrupt log record");
    assert_eq!(KvdbError::IOFailure.message(), "IO error");
    assert_eq!(KvdbError::SerializationFailure.message(), "serialization error");
}
