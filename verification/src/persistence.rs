//! The data engine: the store of strings that may expire and the store of streams.
use crate::persistence::kv_pair::{KeyValuePersistence, Value};
use crate::persistence::stream::{Entry, StreamPersistence};
use vstd::prelude::*;

pub mod keys;
pub mod kv_pair;
pub mod stream;

verus! {

/// The kind of a value in the string store.
#[derive(Debug, Clone, Copy, PartialEq, Eq, Structural)]
pub enum PersistedType {
    String,
}

/// The two stores of a server.
pub struct PersistenceInner {
    pub key_value: KeyValuePersistence,
    pub stream: StreamPersistence,
}

/// The two stores as mathematical values.
pub struct Stores {
    pub strings: Map<Seq<u8>, Value>,
    pub streams: Map<Seq<u8>, Seq<Entry>>,
}

impl View for PersistenceInner {
    type V = Stores;

    open spec fn view(&self) -> Stores {
        Stores { strings: self.key_value@, streams: self.stream@ }
    }
}

impl Default for PersistenceInner {
    /// Two empty stores.
    fn default() -> (out: PersistenceInner)
        ensures
            out.wf(),
            out@.strings == Map::<Seq<u8>, Value>::empty(),
            out@.streams == Map::<Seq<u8>, Seq<Entry>>::empty(),
    {
        PersistenceInner::new()
    }
}

impl PersistenceInner {
    /// What the two stores satisfy at all times.
    pub open spec fn wf(&self) -> bool {
        self.key_value.wf() && self.stream.wf()
    }

    /// Two empty stores.
    pub fn new() -> (out: PersistenceInner)
        ensures
            out.wf(),
            out@.strings == Map::<Seq<u8>, Value>::empty(),
            out@.streams == Map::<Seq<u8>, Seq<Entry>>::empty(),
    {
        PersistenceInner { key_value: KeyValuePersistence::new(), stream: StreamPersistence::new() }
    }
}

} // verus!
