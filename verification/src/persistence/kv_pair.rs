//! The string store: values under byte-string keys, each with the time at which it was
//! written and the time it may live.
use crate::bytes::copy_bytes;
use crate::persistence::keys::{find_key, key_views, lemma_index_of, lemma_push_key};
use crate::persistence::PersistedType;
use vstd::prelude::*;

verus! {

/// A stored string as a mathematical value.
pub struct Value {
    pub data: Seq<u8>,
    /// Milliseconds on the monotonic clock at which the value was written.
    pub timestamp: u64,
    /// Milliseconds that the value lives; 0 where it lives for ever.
    pub expiry: u64,
}

/// A stored string.
#[derive(Debug)]
pub struct PersistedValue {
    pub data: Vec<u8>,
    pub p_type: PersistedType,
    /// Milliseconds on the monotonic clock at which the value was written.
    pub timestamp: u64,
    /// Milliseconds that the value lives; 0 where it lives for ever.
    pub expiry: u64,
}

impl View for PersistedValue {
    type V = Value;

    open spec fn view(&self) -> Value {
        Value { data: self.data@, timestamp: self.timestamp, expiry: self.expiry }
    }
}

/// Whether a read at the time `now` finds the value gone: it may expire, and more time
/// has passed since it was written than it lives.
pub open spec fn expired(v: Value, now: u64) -> bool {
    v.expiry > 0 && now - v.timestamp > v.expiry
}

/// What a read of `key` at the time `now` finds.
pub open spec fn read(m: Map<Seq<u8>, Value>, key: Seq<u8>, now: u64) -> Option<Seq<u8>> {
    if m.contains_key(key) && !expired(m[key], now) {
        Some(m[key].data)
    } else {
        None
    }
}

/// The strings, each under its key.
pub struct KeyValuePersistence {
    keys: Vec<Vec<u8>>,
    values: Vec<PersistedValue>,
}

impl View for KeyValuePersistence {
    type V = Map<Seq<u8>, Value>;

    closed spec fn view(&self) -> Map<Seq<u8>, Value> {
        let ks = key_views(self.keys@);
        Map::new(|k: Seq<u8>| ks.contains(k), |k: Seq<u8>| self.values@[ks.index_of(k)]@)
    }
}

impl Default for KeyValuePersistence {
    /// A store without strings.
    fn default() -> (out: KeyValuePersistence)
        ensures
            out.wf(),
            out@ == Map::<Seq<u8>, Value>::empty(),
    {
        KeyValuePersistence::new()
    }
}

impl PersistedValue {
    /// Whether a read at the time `now` finds this value gone.
    pub fn is_expired(&self, now: u64) -> (out: bool)
        ensures
            out == expired(self@, now),
    {
        self.expiry > 0 && now > self.timestamp && now - self.timestamp > self.expiry
    }
}

impl KeyValuePersistence {
    /// What every store satisfies: each key is held once, with its value.
    pub closed spec fn wf(&self) -> bool {
        &&& self.keys.len() == self.values.len()
        &&& key_views(self.keys@).no_duplicates()
    }

    /// A store without strings.
    pub fn new() -> (out: KeyValuePersistence)
        ensures
            out.wf(),
            out@ == Map::<Seq<u8>, Value>::empty(),
    {
        let out = KeyValuePersistence { keys: Vec::new(), values: Vec::new() };
        assert(out@ =~= Map::<Seq<u8>, Value>::empty());
        out
    }

    /// Writes `value` under `key`, in place of what stood there.
    pub fn insert(&mut self, key: &[u8], value: PersistedValue)
        requires
            old(self).wf(),
        ensures
            final(self).wf(),
            final(self)@ == old(self)@.insert(key@, value@),
    {
        let ghost stored = value@;
        match find_key(&self.keys, key) {
            Some(i) => {
                self.values[i] = value;
                proof {
                    lemma_index_of(self.keys@, i as int);
                    let ks = key_views(self.keys@);
                    assert forall|k: Seq<u8>| ks.contains(k) implies #[trigger] self@[k] == old(
                        self,
                    )@.insert(key@, stored)[k] by {
                        let j = ks.index_of(k);
                        if k != key@ {
                            assert(j != i);
                        }
                    }
                    assert(self@ =~= old(self)@.insert(key@, stored));
                }
            },
            None => {
                let owned = copy_bytes(key);
                proof {
                    lemma_push_key(self.keys@, owned);
                }
                self.keys.push(owned);
                self.values.push(value);
                proof {
                    let n = old(self).keys.len() as int;
                    lemma_index_of(self.keys@, n);
                    let ks = key_views(self.keys@);
                    let before = key_views(old(self).keys@);
                    assert forall|k: Seq<u8>| ks.contains(k) implies #[trigger] self@[k] == old(
                        self,
                    )@.insert(key@, stored)[k] by {
                        let j = ks.index_of(k);
                        if k != key@ {
                            assert(j != n);
                            assert(before[j] == k);
                            assert(before.contains(k));
                            let j0 = before.index_of(k);
                            assert(ks[j0] == k);
                        }
                    }
                    assert forall|k: Seq<u8>| ks.contains(k) <==> (before.contains(k) || k == key@) by {
                        if ks.contains(k) {
                            let j = ks.index_of(k);
                            if j < n {
                                assert(before[j] == k);
                            }
                        }
                        if before.contains(k) {
                            let j = before.index_of(k);
                            assert(ks[j] == k);
                        }
                    }
                    assert(self@ =~= old(self)@.insert(key@, stored));
                }
            },
        }
    }

    /// The value under `key`, whether it has expired or not.
    pub fn get(&self, key: &[u8]) -> (out: Option<&PersistedValue>)
        requires
            self.wf(),
        ensures
            match out {
                Some(v) => self@.contains_key(key@) && v@ == self@[key@],
                None => !self@.contains_key(key@),
            },
    {
        match find_key(&self.keys, key) {
            Some(i) => {
                proof {
                    lemma_index_of(self.keys@, i as int);
                }
                Some(&self.values[i])
            },
            None => None,
        }
    }

    /// Whether a value stands under `key`, expired or not.
    pub fn contains_key(&self, key: &[u8]) -> (out: bool)
        requires
            self.wf(),
        ensures
            out == self@.contains_key(key@),
    {
        match find_key(&self.keys, key) {
            Some(i) => {
                proof {
                    lemma_index_of(self.keys@, i as int);
                }
                true
            },
            None => false,
        }
    }
}

} // verus!
