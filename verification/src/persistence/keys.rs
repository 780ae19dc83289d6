//! Byte-string keys held in a vector without repetition.
use crate::bytes::bytes_eq;
use vstd::prelude::*;

verus! {

/// The keys as byte sequences, in the order in which they are held.
pub open spec fn key_views(keys: Seq<Vec<u8>>) -> Seq<Seq<u8>> {
    Seq::new(keys.len(), |i: int| keys[i]@)
}

/// Finds the place of `key` among `keys`.
pub fn find_key(keys: &Vec<Vec<u8>>, key: &[u8]) -> (out: Option<usize>)
    ensures
        match out {
            Some(i) => i < keys.len() && keys[i as int]@ == key@,
            None => !key_views(keys@).contains(key@),
        },
{
    let mut i: usize = 0;
    while i < keys.len()
        invariant
            i <= keys.len(),
            forall|j: int| 0 <= j < i ==> keys[j]@ != key@,
        decreases keys.len() - i,
    {
        if bytes_eq(keys[i].as_slice(), key) {
            return Some(i);
        }
        i = i + 1;
    }
    assert(!key_views(keys@).contains(key@)) by {
        let ks = key_views(keys@);
        if ks.contains(key@) {
            let j = choose|j: int| 0 <= j < ks.len() && ks[j] == key@;
            assert(keys[j]@ == key@);
        }
    }
    None
}

/// Among keys without repetition, a key is found at the one place where it stands.
pub proof fn lemma_index_of(keys: Seq<Vec<u8>>, i: int)
    requires
        key_views(keys).no_duplicates(),
        0 <= i < keys.len(),
    ensures
        key_views(keys).contains(keys[i]@),
        key_views(keys).index_of(keys[i]@) == i,
{
    let ks = key_views(keys);
    assert(ks[i] == keys[i]@);
    let j = ks.index_of(keys[i]@);
    assert(0 <= j < ks.len() && ks[j] == keys[i]@);
}

/// A new key at the end leaves the keys without repetition, and the old keys in place.
pub proof fn lemma_push_key(keys: Seq<Vec<u8>>, key: Vec<u8>)
    requires
        key_views(keys).no_duplicates(),
        !key_views(keys).contains(key@),
    ensures
        key_views(keys.push(key)).no_duplicates(),
        key_views(keys.push(key)) == key_views(keys).push(key@),
{
    let ks = key_views(keys);
    let after = key_views(keys.push(key));
    assert(after =~= ks.push(key@));
    assert forall|i: int, j: int| 0 <= i < after.len() && 0 <= j < after.len() && i != j implies after[i]
        != after[j] by {
        if i < ks.len() && j < ks.len() {
            assert(ks[i] != ks[j]);
        } else if i < ks.len() {
            assert(ks.contains(ks[i]));
        } else {
            assert(ks.contains(ks[j]));
        }
    }
}

} // verus!
