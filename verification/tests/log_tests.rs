use kvdb::log::{decode_line, encoded_line, Log, LogEntry};
use kvdb::KvdbError;

#[test]
fn encoded_line_exact_wire_form() {
    let put = LogEntry::Put {
        key: String::from("a"),
        value: String::from("1"),
    };
    assert_eq!(encoded_line(&put), "S\ta\t1\n");
    let delete = LogEntry::Delete {
        key: String::from("a"),
    };
    assert_eq!(encoded_line(&delete), "R\ta\n");
}

#[test]
fn encoded_line_escapes_wire_characters() {
    let put = LogEntry::Put {
        key: String::from("a\tb"),
        value: String::from("c\nd\\e"),
    };
    assert_eq!(encoded_line(&put), "S\ta\\tb\tc\\nd\\\\e\n");
}

#[test]
fn decode_line_round_trips() {
    let put = LogEntry::Put {
        key: String::from("k\t\n\\"),
        value: String::from("v\\\n\t"),
    };
    let line = encoded_line(&put);
    match decode_line(&line) {
        Ok(LogEntry::Put { key, value }) => {
            assert_eq!(key, "k\t\n\\");
            assert_eq!(value, "v\\\n\t");
        }
        _ => panic!("round trip failed"),
    }
}

#[test]
fn decode_line_rejects_malformed_lines() {
    assert!(matches!(decode_line(""), Err(KvdbError::CorruptRecord)));
    assert!(matches!(decode_line("S\ta\t1"), Err(KvdbError::CorruptRecord)));
    assert!(matches!(decode_line("Sa\t1\n"), Err(KvdbError::CorruptRecord)));
    assert!(matches!(decode_line("X\ta\t1\n"), Err(KvdbError::CorruptRecord)));
    assert!(matches!(decode_line("S\ta\\q\t1\n"), Err(KvdbError::CorruptRecord)));
    assert!(matches!(decode_line("R\ta\n\n"), Err(KvdbError::CorruptRecord)));
}

#[test]
fn iterator_yields_records_in_write_order() {
    let mut log = Log::open(String::new()).unwrap();
    log.commit_set(&String::from("a"), &String::from("1")).unwrap();
    log.commit_set(&String::from("b"), &String::from("2")).unwrap();
    log.commit_rm(&String::from("a")).unwrap();
    let mut it = log.iter();
    match it.next() {
        Some((LogEntry::Put { key, value }, off)) => {
            assert_eq!(key, "a");
            assert_eq!(value, "1");
            assert_eq!(off, 0);
        }
        _ => panic!("first record wrong"),
    }
    match it.next() {
        Some((LogEntry::Put { key, value }, _)) => {
            assert_eq!(key, "b");
            assert_eq!(value, "2");
        }
        _ => panic!("second record wrong"),
    }
    match it.next() {
        Some((LogEntry::Delete { key }, _)) => assert_eq!(key, "a"),
        _ => panic!("third record wrong"),
    }
    assert!(it.next().is_none());
}

#[test]
fn iterator_restarts_from_the_beginning() {
    let mut log = Log::open(String::new()).unwrap();
    log.commit_set(&String::from("a"), &String::from("1")).unwrap();
    let mut first = log.iter();
    assert!(first.next().is_some());
    assert!(first.next().is_none());
    let mut again = log.iter();
    assert!(again.next().is_some());
}

#[test]
fn point_lookup_returns_latest_record_for_key() {
    let mut log = Log::open(String::new()).unwrap();
    log.commit_set(&String::from("a"), &String::from("1")).unwrap();
    log.commit_set(&String::from("a"), &String::from("2")).unwrap();
    log.commit_set(&String::from("b"), &String::from("9")).unwrap();
    match log.get(&String::from("a")).unwrap() {
        Some(LogEntry::Put { key, value }) => {
            assert_eq!(key, "a");
            assert_eq!(value, "2");
        }
        _ => panic!("latest record for a must be its second Put"),
    }
    log.commit_rm(&String::from("a")).unwrap();
    match log.get(&String::from("a")).unwrap() {
        Some(LogEntry::Delete { key }) => assert_eq!(key, "a"),
        _ => panic!("latest record for a must be the Delete"),
    }
    assert!(log.get(&String::from("zzz")).unwrap().is_none());
}

#[test]
fn exported_text_reopens_to_the_same_records() {
    let mut log = Log::open(String::new()).unwrap();
    log.commit_set(&String::from("k"), &String::from("v")).unwrap();
    log.commit_rm(&String::from("k")).unwrap();
    let text = log.export_data().clone();
    let reopened = Log::open(text.clone()).unwrap();
    assert_eq!(reopened.export_data(), &text);
    let mut it = reopened.iter();
    assert!(matches!(it.next(), Some((LogEntry::Put { .. }, 0))));
    assert!(matches!(it.next(), Some((LogEntry::Delete { .. }, _))));
    assert!(it.next().is_none());
}

#[test]
fn open_rejects_text_that_is_not_a_record_history() {
    assert!(matches!(
        Log::open(String::from("S\ta\t1\njunk")),
        Err(KvdbError::CorruptRecord)
    ));
    assert!(matches!(
        Log::open(String::from("S\ta\t1\nS\tb")),
        Err(KvdbError::CorruptRecord)
    ));
}
