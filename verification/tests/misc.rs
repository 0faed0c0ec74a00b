use kvs::engines::choice::{
    choose_engine, current_engine, engine_name, parse_engine, EngineKind,
};
use kvs::engines::kvs::{saturating_sum, KvStoreShared};
use kvs::error::KvsError;
use kvs::keydir::{KeyDir, KeyDirEntry};
use kvs::logdir::{append_bytes, LogDir, LogFile};
use kvs::thread_pool::{after_job, after_receive, WorkerAction};

fn entry(file_id: u64, offset: u64, record_length: u64) -> KeyDirEntry {
    KeyDirEntry { file_id, offset, record_length }
}

#[test]
fn failures_describe_themselves() {
    assert_eq!(KvsError::KeyNotFound.message(), "Key not found");
    assert_eq!(KvsError::InvalidEngine.message(), "Invalid engine");
    assert_eq!(KvsError::Unspecified.message(), "Unspecified");
    assert_eq!(KvsError::Response("boom".to_string()).message(), "Response: boom");
    assert_eq!(KvsError::Io("disk full".to_string()).message(), "disk full");
    assert_eq!(KvsError::AddrParse("nowhere".to_string()).message(), "Invalid address: nowhere");
    assert_eq!(KvsError::ThreadPoolBuild("no threads".to_string()).message(), "no threads");
    assert_eq!(KvsError::Serialization.message(), "Malformed record or message");
}

#[test]
fn engines_are_known_by_name() {
    assert_eq!(parse_engine(&"kvs".to_string()), Some(EngineKind::Kvs));
    assert_eq!(parse_engine(&"sled".to_string()), Some(EngineKind::Sled));
    assert_eq!(parse_engine(&"KVS".to_string()), None);
    assert_eq!(parse_engine(&"kvs\n".to_string()), None);
    assert_eq!(parse_engine(&"".to_string()), None);
    assert_eq!(engine_name(EngineKind::Kvs), "kvs");
    assert_eq!(engine_name(EngineKind::Sled), "sled");
}

#[test]
fn the_marker_records_an_engine_only_if_it_names_one() {
    assert_eq!(current_engine(None), None);
    assert_eq!(current_engine(Some(&"kvs".to_string())), Some(EngineKind::Kvs));
    assert_eq!(current_engine(Some(&"sled".to_string())), Some(EngineKind::Sled));
    assert_eq!(current_engine(Some(&"rocks".to_string())), None);
}

#[test]
fn the_engine_asked_for_must_agree_with_the_marker() {
    let kvs = "kvs".to_string();
    let sled = "sled".to_string();
    let other = "rocks".to_string();
    assert!(matches!(choose_engine(None, None), Ok(EngineKind::Kvs)));
    assert!(matches!(choose_engine(None, Some(&sled)), Ok(EngineKind::Sled)));
    assert!(matches!(choose_engine(None, Some(&other)), Ok(EngineKind::Kvs)));
    assert!(matches!(choose_engine(Some(&sled), None), Ok(EngineKind::Sled)));
    assert!(matches!(choose_engine(Some(&kvs), Some(&kvs)), Ok(EngineKind::Kvs)));
    assert!(matches!(choose_engine(Some(&sled), Some(&other)), Ok(EngineKind::Sled)));
    assert!(matches!(choose_engine(Some(&kvs), Some(&sled)), Err(KvsError::InvalidEngine)));
    assert!(matches!(choose_engine(Some(&sled), Some(&kvs)), Err(KvsError::InvalidEngine)));
    assert!(matches!(choose_engine(Some(&other), None), Err(KvsError::InvalidEngine)));
    assert!(matches!(choose_engine(Some(&other), Some(&kvs)), Err(KvsError::InvalidEngine)));
}

#[test]
fn a_key_directory_maps_and_walks() {
    let mut dir = KeyDir::new();
    assert_eq!(dir.len(), 0);
    assert_eq!(dir.insert("a".to_string(), entry(0, 0, 5)), None);
    assert_eq!(dir.insert("b".to_string(), entry(0, 6, 7)), None);
    assert_eq!(dir.insert("c".to_string(), entry(1, 0, 9)), None);
    assert_eq!(dir.insert("a".to_string(), entry(1, 10, 3)), Some(entry(0, 0, 5)));
    assert_eq!(dir.len(), 3);
    assert_eq!(dir.get(&"a".to_string()), Some(entry(1, 10, 3)));
    assert_eq!(dir.get(&"z".to_string()), None);
    assert_eq!(dir.remove(&"a".to_string()), Some(entry(1, 10, 3)));
    assert_eq!(dir.remove(&"a".to_string()), None);
    assert_eq!(dir.len(), 2);
    let mut walked: Vec<(String, KeyDirEntry)> =
        (0..dir.len()).map(|i| (dir.key_at(i).clone(), dir.entry_at(i))).collect();
    walked.sort_by(|x, y| x.0.cmp(&y.0));
    assert_eq!(walked, vec![("b".to_string(), entry(0, 6, 7)), ("c".to_string(), entry(1, 0, 9))]);
    assert_eq!(dir.get(&"b".to_string()), Some(entry(0, 6, 7)));
    assert_eq!(dir.get(&"c".to_string()), Some(entry(1, 0, 9)));
    assert_eq!(dir.remove(&"c".to_string()), Some(entry(1, 0, 9)));
    assert_eq!(dir.remove(&"b".to_string()), Some(entry(0, 6, 7)));
    assert_eq!(dir.len(), 0);
}

#[test]
fn a_directory_in_memory_keeps_its_files_in_order() {
    let mut dir = LogDir::new();
    assert_eq!(dir.newest(), None);
    assert!(dir.create(3));
    assert!(!dir.create(3));
    assert!(!dir.create(2));
    dir.append(b"abc");
    assert!(dir.create(5));
    dir.append(b"de");
    dir.append(b"f");
    assert_eq!(dir.len(), 2);
    assert_eq!(dir.newest(), Some(5));
    assert_eq!(dir.file(0).bytes, b"abc".to_vec());
    assert_eq!(dir.file(1).bytes, b"def".to_vec());
    assert_eq!(dir.total_bytes(), 6);
    assert_eq!(dir.read(3, 1, 2), Some(&b"bc"[..]));
    assert_eq!(dir.read(5, 0, 3), Some(&b"def"[..]));
    assert_eq!(dir.read(5, 3, 0), Some(&b""[..]));
    assert_eq!(dir.read(5, 2, 2), None);
    assert_eq!(dir.read(5, 4, 0), None);
    assert_eq!(dir.read(5, u64::MAX, 1), None);
    assert_eq!(dir.read(4, 0, 0), None);
    dir.retain_newest();
    assert_eq!(dir.len(), 1);
    assert_eq!(dir.file(0).gen, 5);
    assert_eq!(dir.total_bytes(), 3);
}

#[test]
fn a_directory_is_made_of_files_in_ascending_order_only() {
    let file = |gen: u64| LogFile { gen, bytes: vec![gen as u8] };
    let dir = LogDir::from_files(vec![file(1), file(4), file(9)]).unwrap();
    assert_eq!(dir.len(), 3);
    assert_eq!(dir.file(1).gen, 4);
    assert_eq!(dir.read(9, 0, 1), Some(&[9u8][..]));
    assert!(LogDir::from_files(vec![]).is_some());
    assert!(LogDir::from_files(vec![file(2)]).is_some());
    assert!(LogDir::from_files(vec![file(2), file(2)]).is_none());
    assert!(LogDir::from_files(vec![file(1), file(3), file(2)]).is_none());
}

#[test]
fn bytes_are_added_at_the_end() {
    let mut out = b"ab".to_vec();
    append_bytes(&mut out, b"cd");
    append_bytes(&mut out, b"");
    assert_eq!(out, b"abcd".to_vec());
}

#[test]
fn sums_stop_at_the_largest_number() {
    assert_eq!(saturating_sum(2, 3), 5);
    assert_eq!(saturating_sum(u64::MAX, 0), u64::MAX);
    assert_eq!(saturating_sum(u64::MAX - 1, 1), u64::MAX);
    assert_eq!(saturating_sum(u64::MAX - 1, 2), u64::MAX);
    assert_eq!(saturating_sum(u64::MAX, u64::MAX), u64::MAX);
}

#[test]
fn the_memory_of_a_store_follows_the_steps_of_its_operations() {
    let mut shared = KvStoreShared::new(30);
    assert_eq!(shared.compaction_target(), Some(2));
    let line = KvStoreShared::encode_put(&"a".to_string(), &"1".to_string()).unwrap();
    assert_eq!(line, b"{\"Set\":[\"a\",\"1\"]}\n".to_vec());
    assert!(!shared.record_put("a".to_string(), 17));
    assert_eq!(shared.position(), 18);
    assert!(!shared.record_put("a".to_string(), 17));
    assert_eq!(shared.uncompacted(), 17);
    assert!(!shared.compaction_due());
    assert!(matches!(shared.encode_rm(&"b".to_string()), Err(KvsError::KeyNotFound)));
    assert_eq!(shared.encode_rm(&"a".to_string()).unwrap(), b"{\"Rm\":\"a\"}\n".to_vec());
    shared.record_rm(&"a".to_string(), 10);
    assert_eq!(shared.uncompacted(), 44);
    assert!(shared.compaction_due());
    assert_eq!(shared.position(), 47);
    assert_eq!(shared.locate(&"a".to_string()), None);
    shared.start_file(9);
    assert_eq!((shared.current_gen(), shared.position()), (9, 0));
    assert_eq!(shared.compaction_target(), Some(11));
    shared.start_file(u64::MAX - 1);
    assert_eq!(shared.compaction_target(), None);
}

#[test]
fn replaying_a_file_builds_the_memory() {
    let mut shared = KvStoreShared::new(1024);
    shared.replay(4, b"{\"Set\":[\"a\",\"1\"]}\n{\"Set\":[\"b\",\"2\"]}\n{\"Rm\":\"a\"}\n").unwrap();
    assert_eq!(shared.len(), 1);
    assert_eq!(shared.key_at(0), "b");
    assert_eq!(shared.entry_at(0), entry(4, 18, 17));
    assert_eq!(shared.uncompacted(), 27);
    assert_eq!((shared.current_gen(), shared.position()), (4, 47));
    assert!(matches!(shared.replay(5, b"{\"Set\":"), Err(KvsError::Serialization)));
}

#[test]
fn only_a_whole_record_that_sets_the_key_is_carried_over() {
    let a = "a".to_string();
    assert!(KvStoreShared::holds_record_of(b"{\"Set\":[\"a\",\"1\"]}", &a));
    assert!(KvStoreShared::holds_record_of(b"{\"Set\": [\"\\u0061\", \"1\"]}", &a));
    assert!(!KvStoreShared::holds_record_of(b"{\"Set\":[\"b\",\"1\"]}", &a));
    assert!(!KvStoreShared::holds_record_of(b"{\"Rm\":\"a\"}", &a));
    assert!(!KvStoreShared::holds_record_of(b" {\"Set\":[\"a\",\"1\"]}", &a));
    assert!(!KvStoreShared::holds_record_of(b"{\"Set\":[\"a\",\"1\"]}\n", &a));
    assert!(!KvStoreShared::holds_record_of(b"{\"Set\":[\"a\",\"1\"", &a));
    assert!(!KvStoreShared::holds_record_of(b"", &a));
}

#[test]
fn the_value_is_read_out_of_a_window() {
    assert_eq!(
        KvStoreShared::value_of(b"{\"Set\":[\"a\",\"1\"]}").unwrap(),
        Some("1".to_string())
    );
    assert_eq!(KvStoreShared::value_of(b"{\"Rm\":\"a\"}").unwrap(), None);
    assert_eq!(KvStoreShared::value_of(b"  \n").unwrap(), None);
    assert_eq!(KvStoreShared::value_of(b"").unwrap(), None);
    assert!(matches!(KvStoreShared::value_of(b"{\"Set\":[\"a\""), Err(KvsError::Serialization)));
}

#[test]
fn a_worker_runs_what_it_receives_and_ends_when_the_queue_is_closed() {
    assert_eq!(after_receive(true), WorkerAction::Run);
    assert_eq!(after_receive(false), WorkerAction::Stop);
}

#[test]
fn a_worker_is_replaced_when_its_job_panics() {
    assert_eq!(after_job(true), WorkerAction::Replace);
    assert_eq!(after_job(false), WorkerAction::Wait);
}

#[test]
fn a_pool_keeps_its_workers_through_jobs_that_panic() {
    let mut live = 4;
    for job in 0..1000 {
        assert_eq!(after_receive(true), WorkerAction::Run);
        match after_job(job % 7 == 0) {
            WorkerAction::Replace => {
                live -= 1;
                live += 1;
            }
            WorkerAction::Wait => {}
            other => panic!("a worker with a job neither waits nor is replaced: {:?}", other),
        }
        assert_eq!(live, 4);
    }
    for _ in 0..4 {
        if after_receive(false) == WorkerAction::Stop {
            live -= 1;
        }
    }
    assert_eq!(live, 0);
}
