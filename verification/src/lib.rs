use vstd::prelude::*;

pub mod codec;
pub mod dynamodb_kv;
pub mod errors;
pub mod mem_kv;
pub mod rocksdb_kv;
pub mod value;

use crate::codec::encoding;
use crate::errors::KVError;
use crate::value::{Val, Value};

verus! {

/// A key type usable with any backend: it exposes a stable, deterministic
/// string form, which is the only thing a backend ever sees of a key.
pub trait KeyString {
    /// The canonical string this key encodes to.
    spec fn key_view(&self) -> Seq<char>;

    /// Produce the canonical key string; two semantically equal keys
    /// must return the same string.
    fn as_str(&self) -> (s: String)
        ensures
            s@ == self.key_view(),
    ;
}

/// The simplest key: already a string.  Composite keys (an id and a name
/// joined by a delimiter, say) build their canonical string and wrap it.
pub struct StringKey {
    pub text: String,
}

impl StringKey {
    /// Wrap an already-canonical key string.
    pub fn new(text: String) -> (k: Self)
        ensures
            k.key_view() == text@,
    {
        StringKey { text }
    }
}

impl KeyString for StringKey {
    open spec fn key_view(&self) -> Seq<char> {
        self.text@
    }

    fn as_str(&self) -> (s: String) {
        self.text.clone()
    }
}

/// The storage capability: four operations with one meaning over every
/// backend, stated over the backend's abstract records.  A backend may have
/// failure modes of its own (a contended lock, a lost connection); what it
/// may never do is succeed with the wrong answer.
pub trait KVStore: Sized {
    /// The records the backend currently holds: canonical key to payload.
    spec fn records(&self) -> Map<Seq<char>, Seq<char>>;

    /// Upsert: on success the payload of `value` replaces whatever record
    /// was under the key.
    fn put<K: KeyString>(&mut self, key: &K, value: &Value) -> (r: Result<(), KVError>)
        ensures
            r is Ok ==> final (self).records() == old(self).records().insert(
                key.key_view(),
                encoding(value@),
            ),
    ;

    /// Point lookup.  Absence is `Ok(None)`, never an error; a value comes
    /// back only fully decoded from the exact payload stored.
    fn get<K: KeyString>(&self, key: &K) -> (r: Result<Option<Value>, KVError>)
        ensures
            r matches Ok(Some(w)) ==> self.records().dom().contains(key.key_view())
                && self.records()[key.key_view()] == encoding(w@) && w@.wf(),
            r matches Ok(None) ==> !self.records().dom().contains(key.key_view()),
    ;

    /// Presence check, without decoding.  It may err on the side of
    /// presence (a probabilistic filter), but never reports a stored
    /// record as absent.
    fn contains_key<K: KeyString>(&self, key: &K) -> (r: Result<bool, KVError>)
        ensures
            r matches Ok(b) ==> (self.records().dom().contains(key.key_view()) ==> b),
    ;

    /// Point delete: on success nothing is under the key; deleting an
    /// absent key succeeds.
    fn delete<K: KeyString>(&mut self, key: &K) -> (r: Result<(), KVError>)
        ensures
            r is Ok ==> final (self).records() == old(self).records().remove(key.key_view()),
    ;
}

/// After `put(k, v)` succeeds, the only value any conforming `get(k)` can
/// return is `v` itself: the stored payload is `encoding(v)`, and a payload
/// is the wire form of exactly one value.
pub proof fn lemma_put_then_get(before: Map<Seq<char>, Seq<char>>, k: Seq<char>, v: Val, w: Val)
    requires
        v.wf(),
        w.wf(),
        before.insert(k, encoding(v))[k] == encoding(w),
    ensures
        w == v,
{
    crate::codec::lemma_encoding_injective(v, w);
}

/// After `delete(k)` succeeds nothing is under `k`: a conforming `get(k)`
/// returns `None` and an exact presence check reports false; and after
/// `put(k, _)` a record is under `k`, so an exact presence check reports
/// true.
pub proof fn lemma_presence_after_write(
    before: Map<Seq<char>, Seq<char>>,
    k: Seq<char>,
    p: Seq<char>,
)
    ensures
        before.insert(k, p).dom().contains(k),
        !before.remove(k).dom().contains(k),
{
}

} // verus!
