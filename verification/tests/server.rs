use kvs::command::{Request, Response};
use kvs::engines::kvs::KvStore;
use kvs::engines::KvsEngine;
use kvs::error::KvsError;
use kvs::logdir::LogDir;
use kvs::server::{dispatch, serve, KvsServer};
use kvs::thread_pool::ThreadPool;
use kvs::wire::{decode_response, encode_request, Decoding};
use std::collections::HashMap;

/// An engine whose every operation fails, as one whose disk is gone.
struct Broken;

impl KvsEngine for Broken {
    fn get(&self, _key: String) -> Result<Option<String>, KvsError> {
        Err(KvsError::Io("disk gone".to_string()))
    }

    fn set(&mut self, _key: String, _value: String) -> Result<(), KvsError> {
        Err(KvsError::Io("disk gone".to_string()))
    }

    fn remove(&mut self, _key: String) -> Result<(), KvsError> {
        Err(KvsError::Io("disk gone".to_string()))
    }
}

/// A pool that runs each job at once, on the thread that hands it over.
struct Inline {
    threads: u32,
}

impl ThreadPool for Inline {
    fn new(threads: u32) -> Result<Inline, KvsError> {
        Ok(Inline { threads })
    }

    fn spawn<F>(&self, job: F)
    where
        F: FnOnce() + Send + 'static,
    {
        job()
    }
}

fn fresh() -> KvStore {
    KvStore::open(LogDir::new()).expect("an empty directory opens")
}

#[test]
fn dispatch_answers_each_request_as_the_table_says() {
    let mut store = fresh();
    assert_eq!(dispatch(&mut store, Request::Get("k".to_string())), Response::NotFound);
    assert_eq!(
        dispatch(&mut store, Request::Put("k".to_string(), "v".to_string())),
        Response::OK(String::new())
    );
    assert_eq!(
        dispatch(&mut store, Request::Get("k".to_string())),
        Response::OK("v".to_string())
    );
    assert_eq!(dispatch(&mut store, Request::Rm("k".to_string())), Response::OK(String::new()));
    assert_eq!(dispatch(&mut store, Request::Rm("k".to_string())), Response::NotFound);
    assert_eq!(dispatch(&mut store, Request::Get("k".to_string())), Response::NotFound);
}

#[test]
fn dispatch_reports_engine_failures_with_the_fixed_texts() {
    let mut broken = Broken;
    assert_eq!(
        dispatch(&mut broken, Request::Get("k".to_string())),
        Response::Error("Error GET key".to_string())
    );
    assert_eq!(
        dispatch(&mut broken, Request::Put("k".to_string(), "v".to_string())),
        Response::Error("Error SET key".to_string())
    );
    assert_eq!(
        dispatch(&mut broken, Request::Rm("k".to_string())),
        Response::Error("Error RM key".to_string())
    );
}

#[test]
fn serve_reads_a_request_and_writes_a_response() {
    let mut store = fresh();
    let put = encode_request(&Request::Put("a".to_string(), "1".to_string()));
    let reply = serve(&mut store, &put).expect("a whole request is answered");
    assert_eq!(decode_response(&reply), Decoding::Done(Response::OK(String::new()), reply.len()));
    let get = encode_request(&Request::Get("a".to_string()));
    let reply = serve(&mut store, &get).expect("a whole request is answered");
    assert_eq!(decode_response(&reply), Decoding::Done(Response::OK("1".to_string()), reply.len()));
}

#[test]
fn serve_sends_nothing_for_bytes_that_hold_no_request() {
    let mut store = fresh();
    assert_eq!(serve(&mut store, &[]), None);
    assert_eq!(serve(&mut store, &[9, 0, 0, 0]), None);
    let put = encode_request(&Request::Put("a".to_string(), "1".to_string()));
    assert_eq!(serve(&mut store, &put[..put.len() - 1]), None);
    assert_eq!(store.get("a".to_string()).unwrap(), None);
}

#[test]
fn a_server_holds_the_engine_and_the_pool_it_was_made_with() {
    let mut store = fresh();
    store.set("a".to_string(), "1".to_string()).unwrap();
    let mut server = KvsServer::new(store, Inline::new(4).unwrap());
    assert_eq!(server.thread_pool.threads, 4);
    assert_eq!(
        dispatch(&mut server.engine, Request::Get("a".to_string())),
        Response::OK("1".to_string())
    );
    let (sender, receiver) = std::sync::mpsc::channel();
    server.thread_pool.spawn(move || sender.send(7).unwrap());
    assert_eq!(receiver.recv().unwrap(), 7);
}

/// The next number of a fixed pseudo-random sequence.
fn next(state: &mut u64) -> u64 {
    *state = state.wrapping_mul(6364136223846793005).wrapping_add(1442695040888963407);
    *state >> 33
}

#[test]
fn requests_of_eight_clients_served_in_turn_leave_the_last_values() {
    let mut store = KvStore::open_with_threshold(LogDir::new(), 4096).unwrap();
    let mut expected: HashMap<String, String> = HashMap::new();
    let mut seeds: Vec<u64> = (1..=8).collect();
    for round in 0..1000 {
        for client in 0..8 {
            let draw = next(&mut seeds[client]);
            let key = format!("key-{}", draw % 256);
            let request = match (draw >> 8) % 3 {
                0 => Request::Get(key.clone()),
                1 => Request::Put(key.clone(), format!("c{}-r{}", client, round)),
                _ => Request::Rm(key.clone()),
            };
            let reply = serve(&mut store, &encode_request(&request)).expect("an answer");
            let response = match decode_response(&reply) {
                Decoding::Done(response, end) if end == reply.len() => response,
                other => panic!("the reply is no response: {:?}", other),
            };
            let wanted = match &request {
                Request::Get(_) => match expected.get(&key) {
                    Some(v) => Response::OK(v.clone()),
                    None => Response::NotFound,
                },
                Request::Put(_, v) => {
                    expected.insert(key.clone(), v.clone());
                    Response::OK(String::new())
                }
                Request::Rm(_) => match expected.remove(&key) {
                    Some(_) => Response::OK(String::new()),
                    None => Response::NotFound,
                },
            };
            assert_eq!(response, wanted);
        }
    }
    assert!(store.shared().current_gen() > 0, "compactions ran on the way");
    for k in 0..256 {
        let key = format!("key-{}", k);
        assert_eq!(store.get(key.clone()).unwrap(), expected.get(&key).cloned());
    }
    let store = KvStore::open(store.into_dir()).unwrap();
    for k in 0..256 {
        let key = format!("key-{}", k);
        assert_eq!(store.get(key.clone()).unwrap(), expected.get(&key).cloned());
    }
}
