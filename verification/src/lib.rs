//! A persistent key-value store in the Bitcask style, with the protocol of its
//! server.
//!
//! The store is an append-only log of records and, in memory, a key directory that
//! maps each live key to the place of its latest record. This crate holds the
//! store's rules and proves them: the record format ([`record`]), the key directory
//! ([`keydir`]), what a log says when it is replayed ([`engines::index`]), and the
//! store itself ([`engines::kvs`]), which works on a data directory held in memory
//! ([`logdir`]). It touches no file and no socket. A program that keeps the log on
//! disk takes its decisions from `KvStoreShared`, step by step, and does the reading
//! and writing between them.
//!
//! The same holds of the server: [`wire`] is the format of requests and responses,
//! [`server`] says what is answered to a request, [`client`] what an answer means,
//! and [`thread_pool`] what the workers of a pool do; the sockets and the threads are
//! the program's.

pub mod client;
pub mod command;
pub mod engines;
pub mod error;
pub mod json;
pub mod keydir;
pub mod logdir;
pub mod names;
pub mod record;
pub mod server;
pub mod thread_pool;
pub mod wire;

pub use client::KvsClient;
pub use engines::kvs::KvStore;
pub use engines::KvsEngine;
pub use error::KvsError;
pub use server::KvsServer;
pub use thread_pool::ThreadPool;
