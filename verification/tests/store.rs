use kvs::engines::kvs::{KvStore, COMPACTION_THRESHOLD};
use kvs::engines::KvsEngine;
use kvs::error::KvsError;
use kvs::logdir::{LogDir, LogFile};

fn fresh() -> KvStore {
    KvStore::open(LogDir::new()).expect("an empty directory opens")
}

fn dir_of(files: Vec<(u64, &str)>) -> LogDir {
    let files = files
        .into_iter()
        .map(|(gen, text)| LogFile { gen, bytes: text.as_bytes().to_vec() })
        .collect();
    LogDir::from_files(files).expect("the generations ascend")
}

fn text_of(dir: &LogDir, i: usize) -> String {
    String::from_utf8(dir.file(i).bytes.clone()).expect("log files hold text")
}

#[test]
fn set_twice_then_get_returns_the_second_value() {
    let mut store = fresh();
    store.set("a".to_string(), "1".to_string()).unwrap();
    store.set("a".to_string(), "2".to_string()).unwrap();
    assert_eq!(store.get("a".to_string()).unwrap(), Some("2".to_string()));
}

#[test]
fn remove_then_get_returns_none_and_second_remove_fails() {
    let mut store = fresh();
    store.set("k".to_string(), "v".to_string()).unwrap();
    store.remove("k".to_string()).unwrap();
    assert_eq!(store.get("k".to_string()).unwrap(), None);
    assert!(matches!(store.remove("k".to_string()), Err(KvsError::KeyNotFound)));
}

#[test]
fn ten_thousand_pairs_survive_reopening() {
    let mut store = fresh();
    for i in 0..10_000 {
        store.set(format!("key-{}", i), format!("val-{}", i)).unwrap();
    }
    let store = KvStore::open(store.into_dir()).expect("the directory opens again");
    for i in 0..10_000 {
        assert_eq!(store.get(format!("key-{}", i)).unwrap(), Some(format!("val-{}", i)));
    }
}

#[test]
fn compaction_bounds_the_directory_and_keeps_every_value() {
    let keys = 2_000;
    let mut store = fresh();
    for i in 0..10_000 {
        let value = format!("{:0>1024}", i);
        store.set(format!("key-{}", i % keys), value).unwrap();
    }
    assert!(store.shared().current_gen() >= 2, "at least one compaction ran");
    assert_eq!(store.shared().current_gen() % 2, 0);
    assert_eq!(store.dir().len(), 1);
    let mut live: u64 = 0;
    for i in 0..store.shared().len() {
        live += store.shared().entry_at(i).record_length + 1;
    }
    assert_eq!(store.shared().len(), keys);
    assert!(store.dir().total_bytes() <= 2 * live);
    assert!(store.dir().total_bytes() >= live + store.shared().uncompacted());
    assert_eq!(store.dir().total_bytes(), store.shared().position());
    let store = KvStore::open(store.into_dir()).expect("the directory opens again");
    for k in 0..keys {
        let last = 8_000 + k;
        assert_eq!(store.get(format!("key-{}", k)).unwrap(), Some(format!("{:0>1024}", last)));
    }
}

#[test]
fn a_get_between_other_keys_operations_still_sees_the_value() {
    let mut store = fresh();
    store.set("k".to_string(), "v".to_string()).unwrap();
    store.set("other".to_string(), "x".to_string()).unwrap();
    store.remove("other".to_string()).unwrap();
    assert_eq!(store.get("missing".to_string()).unwrap(), None);
    store.set("third".to_string(), "y".to_string()).unwrap();
    assert_eq!(store.get("k".to_string()).unwrap(), Some("v".to_string()));
}

#[test]
fn a_removed_key_stays_absent_until_it_is_set_again() {
    let mut store = fresh();
    store.set("k".to_string(), "v".to_string()).unwrap();
    store.remove("k".to_string()).unwrap();
    store.set("other".to_string(), "x".to_string()).unwrap();
    assert_eq!(store.get("k".to_string()).unwrap(), None);
    store.set("k".to_string(), "w".to_string()).unwrap();
    assert_eq!(store.get("k".to_string()).unwrap(), Some("w".to_string()));
}

#[test]
fn removing_an_absent_key_changes_nothing() {
    let mut store = fresh();
    store.set("a".to_string(), "1".to_string()).unwrap();
    let before = store.dir().file(0).bytes.clone();
    assert!(matches!(store.remove("b".to_string()), Err(KvsError::KeyNotFound)));
    assert_eq!(store.dir().file(0).bytes, before);
    assert_eq!(store.shared().uncompacted(), 0);
    assert_eq!(store.get("a".to_string()).unwrap(), Some("1".to_string()));
}

#[test]
fn records_are_written_as_json_lines() {
    let mut store = fresh();
    store.set("a".to_string(), "1".to_string()).unwrap();
    store.remove("a".to_string()).unwrap();
    let dir = store.into_dir();
    assert_eq!(dir.len(), 1);
    assert_eq!(dir.file(0).gen, 0);
    assert_eq!(text_of(&dir, 0), "{\"Set\":[\"a\",\"1\"]}\n{\"Rm\":\"a\"}\n");
}

#[test]
fn entries_hold_the_offset_before_the_write_and_the_length_of_the_record() {
    let mut store = fresh();
    store.set("a".to_string(), "1".to_string()).unwrap();
    store.set("bb".to_string(), "22".to_string()).unwrap();
    let a = store.shared().locate(&"a".to_string()).unwrap();
    let b = store.shared().locate(&"bb".to_string()).unwrap();
    assert_eq!((a.file_id, a.offset, a.record_length), (0, 0, 17));
    assert_eq!((b.file_id, b.offset, b.record_length), (0, 18, 19));
    assert_eq!(store.shared().position(), 38);
}

#[test]
fn dead_volume_counts_superseded_records_and_tombstones() {
    let mut store = fresh();
    store.set("a".to_string(), "1".to_string()).unwrap();
    assert_eq!(store.shared().uncompacted(), 0);
    store.set("a".to_string(), "2".to_string()).unwrap();
    assert_eq!(store.shared().uncompacted(), 17);
    store.remove("a".to_string()).unwrap();
    assert_eq!(store.shared().uncompacted(), 17 + 17 + 10);
}

#[test]
fn dead_volume_is_the_same_after_reopening() {
    let mut store = fresh();
    store.set("a".to_string(), "1".to_string()).unwrap();
    store.set("a".to_string(), "2".to_string()).unwrap();
    store.set("b".to_string(), "3".to_string()).unwrap();
    store.remove("b".to_string()).unwrap();
    let dead = store.shared().uncompacted();
    assert_eq!(dead, 17 + 17 + 10);
    let store = KvStore::open(store.into_dir()).unwrap();
    assert_eq!(store.shared().uncompacted(), dead);
}

#[test]
fn the_default_threshold_is_one_mebibyte() {
    assert_eq!(COMPACTION_THRESHOLD, 1024 * 1024);
    assert_eq!(fresh().shared().threshold(), 1024 * 1024);
}

#[test]
fn compaction_runs_when_the_dead_volume_exceeds_the_threshold() {
    let mut store = KvStore::open_with_threshold(LogDir::new(), 20).unwrap();
    store.set("a".to_string(), "1".to_string()).unwrap();
    store.set("b".to_string(), "9".to_string()).unwrap();
    store.set("a".to_string(), "2".to_string()).unwrap();
    assert_eq!(store.shared().uncompacted(), 17);
    assert_eq!(store.shared().current_gen(), 0);
    store.set("a".to_string(), "3".to_string()).unwrap();
    assert_eq!(store.shared().uncompacted(), 0);
    assert_eq!(store.shared().current_gen(), 2);
    assert_eq!(store.dir().len(), 1);
    assert_eq!(store.dir().file(0).gen, 2);
    assert_eq!(store.dir().total_bytes(), 36);
    assert_eq!(store.get("a".to_string()).unwrap(), Some("3".to_string()));
    assert_eq!(store.get("b".to_string()).unwrap(), Some("9".to_string()));
    let a = store.shared().locate(&"a".to_string()).unwrap();
    assert_eq!(a.file_id, 2);
    assert_eq!(a.record_length, 17);
}

#[test]
fn a_threshold_that_is_never_reached_gives_the_same_values() {
    let mut small = KvStore::open_with_threshold(LogDir::new(), 0).unwrap();
    let mut large = KvStore::open_with_threshold(LogDir::new(), u64::MAX).unwrap();
    for i in 0..200 {
        let key = format!("k{}", i % 7);
        if i % 5 == 4 {
            let a = small.remove(key.clone()).is_ok();
            let b = large.remove(key).is_ok();
            assert_eq!(a, b);
        } else {
            small.set(key.clone(), format!("v{}", i)).unwrap();
            large.set(key, format!("v{}", i)).unwrap();
        }
    }
    assert!(small.shared().current_gen() > 0);
    assert_eq!(large.shared().current_gen(), 0);
    for k in 0..7 {
        let key = format!("k{}", k);
        assert_eq!(small.get(key.clone()).unwrap(), large.get(key).unwrap());
    }
}

#[test]
fn explicit_compaction_skips_a_generation_and_keeps_the_mapping() {
    let mut store = fresh();
    store.set("a".to_string(), "1".to_string()).unwrap();
    store.set("a".to_string(), "2".to_string()).unwrap();
    store.set("b".to_string(), "3".to_string()).unwrap();
    store.remove("b".to_string()).unwrap();
    assert!(store.compact());
    assert_eq!(store.shared().current_gen(), 2);
    assert_eq!(store.shared().uncompacted(), 0);
    let dir = store.dir();
    assert_eq!(dir.len(), 1);
    assert_eq!(text_of(dir, 0), "{\"Set\":[\"a\",\"2\"]}\n");
    assert_eq!(store.get("a".to_string()).unwrap(), Some("2".to_string()));
    assert_eq!(store.get("b".to_string()).unwrap(), None);
    assert!(store.compact());
    assert_eq!(store.shared().current_gen(), 4);
}

#[test]
fn compaction_does_nothing_where_no_generation_is_left() {
    let dir = dir_of(vec![(u64::MAX - 1, "{\"Set\":[\"a\",\"1\"]}\n{\"Set\":[\"a\",\"2\"]}\n")]);
    let mut store = KvStore::open_with_threshold(dir, 0).unwrap();
    assert!(!store.compact());
    store.set("a".to_string(), "3".to_string()).unwrap();
    assert_eq!(store.shared().current_gen(), u64::MAX - 1);
    assert_eq!(store.shared().uncompacted(), 34);
    assert_eq!(store.get("a".to_string()).unwrap(), Some("3".to_string()));
}

#[test]
fn opening_an_empty_directory_creates_generation_zero() {
    let store = fresh();
    assert_eq!(store.shared().current_gen(), 0);
    assert_eq!(store.shared().position(), 0);
    assert_eq!(store.dir().len(), 1);
    assert_eq!(store.dir().file(0).gen, 0);
    assert!(store.dir().file(0).bytes.is_empty());
}

#[test]
fn opening_takes_the_highest_generation_as_the_active_file() {
    let dir = dir_of(vec![(3, "{\"Set\":[\"a\",\"1\"]}\n"), (7, "{\"Set\":[\"b\",\"2\"]}\n")]);
    let mut store = KvStore::open(dir).unwrap();
    assert_eq!(store.shared().current_gen(), 7);
    assert_eq!(store.shared().position(), 18);
    store.set("c".to_string(), "3".to_string()).unwrap();
    assert_eq!(store.shared().locate(&"c".to_string()).unwrap().file_id, 7);
    assert_eq!(text_of(store.dir(), 1), "{\"Set\":[\"b\",\"2\"]}\n{\"Set\":[\"c\",\"3\"]}\n");
    assert!(store.compact());
    assert_eq!(store.shared().current_gen(), 9);
}

#[test]
fn replay_lets_the_higher_generation_and_the_later_record_win() {
    let dir = dir_of(vec![
        (1, "{\"Set\":[\"a\",\"old\"]}\n{\"Set\":[\"b\",\"x\"]}\n{\"Set\":[\"c\",\"1\"]}\n"),
        (2, "{\"Set\":[\"a\",\"mid\"]}\n{\"Set\":[\"a\",\"new\"]}\n{\"Rm\":\"b\"}\n"),
    ]);
    let store = KvStore::open(dir).unwrap();
    assert_eq!(store.get("a".to_string()).unwrap(), Some("new".to_string()));
    assert_eq!(store.get("b".to_string()).unwrap(), None);
    assert_eq!(store.get("c".to_string()).unwrap(), Some("1".to_string()));
    let a = store.shared().locate(&"a".to_string()).unwrap();
    assert_eq!((a.file_id, a.offset, a.record_length), (2, 20, 19));
}

#[test]
fn replay_accepts_white_space_and_escapes_that_others_wrote() {
    let dir = dir_of(vec![(
        0,
        "  { \"Set\" : [ \"a\\u0062\" ,\t\"\\u00e9\\n\" ] }\r\n\n{\"\\u0053et\":[\"k\",\"v\"]}",
    )]);
    let store = KvStore::open(dir).unwrap();
    assert_eq!(store.get("ab".to_string()).unwrap(), Some("\u{e9}\n".to_string()));
    assert_eq!(store.get("k".to_string()).unwrap(), Some("v".to_string()));
    let e = store.shared().locate(&"ab".to_string()).unwrap();
    assert_eq!(e.offset, 2);
}

#[test]
fn opening_fails_on_a_malformed_record() {
    for text in [
        "{\"Set\":[\"a\",\"1\"]}\n{\"Set\":[\"a\"",
        "{\"Get\":\"a\"}\n",
        "{\"Set\":[\"a\",\"1\",\"2\"]}\n",
        "{\"Set\":\"a\"}\n",
        "{\"Rm\":[\"a\",\"b\"]}\n",
        "{\"Rm\":\"a\",\"x\":1}\n",
        "\"Rm\"\n",
        "garbage",
        "{\"Set\":[\"a\",\"\u{1}\"]}\n",
        "{\"Set\":[\"a\",\"\\x\"]}\n",
    ] {
        let r = KvStore::open(dir_of(vec![(0, text)]));
        assert!(matches!(r, Err(KvsError::Serialization)), "{:?} was accepted", text);
    }
}

#[test]
fn opening_fails_on_bytes_that_are_no_text() {
    let files = vec![LogFile { gen: 0, bytes: b"{\"Set\":[\"a\",\"\xff\"]}\n".to_vec() }];
    let dir = LogDir::from_files(files).unwrap();
    assert!(matches!(KvStore::open(dir), Err(KvsError::Serialization)));
}

#[test]
fn keys_and_values_may_hold_any_characters() {
    let samples = [
        "",
        " ",
        "\"",
        "\\",
        "\\\"",
        "a\"b\\c",
        "line\nfeed\r\ttab",
        "\u{0}\u{1}\u{1f}\u{7f}",
        "{\"Set\":[\"a\",\"1\"]}",
        "\u{e9}\u{4e2d}\u{6587}\u{1f600}",
        "\u{2028}\u{2029}/",
    ];
    let mut store = fresh();
    for (i, s) in samples.iter().enumerate() {
        store.set(s.to_string(), format!("{}{}", s, i)).unwrap();
        store.set(format!("v{}", i), s.to_string()).unwrap();
    }
    let store = KvStore::open(store.into_dir()).unwrap();
    for (i, s) in samples.iter().enumerate() {
        assert_eq!(store.get(s.to_string()).unwrap(), Some(format!("{}{}", s, i)));
        assert_eq!(store.get(format!("v{}", i)).unwrap(), Some(s.to_string()));
    }
}

#[test]
fn strings_are_escaped_as_json_asks() {
    let mut store = fresh();
    store.set("a\"b\\c".to_string(), "\n\u{1}\u{e9}".to_string()).unwrap();
    assert_eq!(
        text_of(store.dir(), 0),
        "{\"Set\":[\"a\\\"b\\\\c\",\"\\n\\u0001\u{e9}\"]}\n"
    );
}

#[test]
fn the_trait_gives_the_same_answers_as_the_store() {
    let mut store = fresh();
    KvsEngine::set(&mut store, "a".to_string(), "1".to_string()).unwrap();
    assert_eq!(KvsEngine::get(&store, "a".to_string()).unwrap(), Some("1".to_string()));
    KvsEngine::remove(&mut store, "a".to_string()).unwrap();
    assert!(matches!(
        KvsEngine::remove(&mut store, "a".to_string()),
        Err(KvsError::KeyNotFound)
    ));
}
