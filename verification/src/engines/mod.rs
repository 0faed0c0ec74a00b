//! Storage engines: the contract that the server relies on, and the log-structured
//! store.

pub mod choice;
pub mod index;
pub mod kvs;
pub mod model;

use crate::command::CommandView;
use crate::error::KvsError;
use crate::record::encodable;
use vstd::prelude::*;

verus! {

/// A store of string keys and string values.
///
/// The contract describes an engine as one client sees it when no other client
/// works on it between two of its calls. It binds the engines that say when they
/// are valid; of an engine that keeps the default, which is never valid, it says
/// nothing.
pub trait KvsEngine {
    /// The engine is in order.
    open spec fn valid(&self) -> bool {
        false
    }

    /// The mapping from live keys to their values.
    open spec fn mapping(&self) -> Map<Seq<char>, Seq<char>> {
        Map::empty()
    }

    /// The value of a key, `None` if the key is not live.
    fn get(&self, key: String) -> (r: Result<Option<String>, KvsError>)
        requires
            self.valid(),
        ensures
            match r {
                Ok(Some(v)) => self.mapping().contains_key(key@) && self.mapping()[key@] == v@,
                Ok(None) => !self.mapping().contains_key(key@),
                Err(_) => true,
            },
    ;

    /// Maps `key` to `value`. A failure leaves the mapping as it was.
    fn set(&mut self, key: String, value: String) -> (r: Result<(), KvsError>)
        requires
            old(self).valid(),
        ensures
            final(self).valid(),
            match r {
                Ok(()) => final(self).mapping() == old(self).mapping().insert(key@, value@),
                Err(_) => final(self).mapping() == old(self).mapping(),
            },
    ;

    /// Retires `key`. Fails with `KeyNotFound` exactly where the key is not live; a
    /// failure leaves the mapping as it was.
    fn remove(&mut self, key: String) -> (r: Result<(), KvsError>)
        requires
            old(self).valid(),
        ensures
            final(self).valid(),
            match r {
                Ok(()) => old(self).mapping().contains_key(key@) && final(self).mapping() == old(
                    self,
                ).mapping().remove(key@),
                Err(e) => final(self).mapping() == old(self).mapping() && (e is KeyNotFound
                    <==> !old(self).mapping().contains_key(key@)),
            },
    ;
}

impl KvsEngine for kvs::KvStore {
    open spec fn valid(&self) -> bool {
        self.wf()
    }

    open spec fn mapping(&self) -> Map<Seq<char>, Seq<char>> {
        self@
    }

    /// The log-structured store answers every lookup: with the value that the key
    /// maps to, or with `None` where the key is not live.
    fn get(&self, key: String) -> (r: Result<Option<String>, KvsError>)
        ensures
            match r {
                Ok(Some(v)) => self@.contains_key(key@) && self@[key@] == v@,
                Ok(None) => !self@.contains_key(key@),
                Err(_) => false,
            },
    {
        kvs::KvStore::get(self, key)
    }

    /// The log-structured store maps `key` to `value` whenever the record can be
    /// written so that it reads back: it adds the record's line to the active file
    /// and points the key to it, then compacts if the dead volume is above the
    /// threshold. Where the record cannot be written so, it fails with
    /// `Serialization` and changes nothing.
    fn set(&mut self, key: String, value: String) -> (r: Result<(), KvsError>)
        ensures
            final(self).limit() == old(self).limit(),
            r is Ok <==> encodable(CommandView::Put(key@, value@)),
            r is Ok ==> final(self)@ == old(self)@.insert(key@, value@),
            r is Ok ==> if kvs::KvStore::compacts_after_put(*old(self), key@, value@) {
                kvs::KvStore::compacted_from(*old(self), *final(self))
            } else {
                kvs::KvStore::appended_put(*old(self), *final(self), key@, value@)
            },
            r matches Err(e) ==> e is Serialization && kvs::KvStore::unchanged(
                *old(self),
                *final(self),
            ),
    {
        kvs::KvStore::set(self, key, value)
    }

    fn remove(&mut self, key: String) -> (r: Result<(), KvsError>) {
        kvs::KvStore::remove(self, key)
    }
}

} // verus!
