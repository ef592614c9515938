use vstd::prelude::*;

use crate::codec::{decode, encode, encoding};
use crate::errors::KVError;
use crate::value::{lemma_value_view_wf, Val, Value};
use crate::KeyString;
use vstd::hash_map::StringHashMap;

verus! {

/// Every payload in `recs` is the wire form of some representable value.
pub open spec fn records_wf(recs: Map<Seq<char>, Seq<char>>) -> bool {
    forall|k: Seq<char>| #[trigger] recs.dom().contains(k) ==> exists|m: Val|
        m.wf() && recs[k] == encoding(m)
}

/// The process-local backend: one map from canonical key to stored payload,
/// guarded by a fail-fast reader/writer lock.  The two lock fields model the
/// guards currently held elsewhere; an operation never waits for the lock,
/// it fails at once with `LockContention` when the lock is held
/// incompatibly.
pub struct MemKVStore {
    map: StringHashMap<String>,
    readers: u64,
    writer: bool,
}

impl MemKVStore {
    /// The records currently stored: canonical key to payload text.
    pub closed spec fn records(self) -> Map<Seq<char>, Seq<char>> {
        self.map@.map_values(|v: String| v@)
    }

    /// How many shared (read) guards are held.
    pub closed spec fn shared_guards(self) -> nat {
        self.readers as nat
    }

    /// Whether the exclusive (write) guard is held.
    pub closed spec fn exclusive_held(self) -> bool {
        self.writer
    }

    /// A write may proceed only when no guard at all is held.
    pub open spec fn write_free(self) -> bool {
        !self.exclusive_held() && self.shared_guards() == 0
    }

    /// A read may proceed only when no exclusive guard is held.
    pub open spec fn read_free(self) -> bool {
        !self.exclusive_held()
    }

    /// Every stored payload is the wire form of some representable value;
    /// `new` establishes this and every operation preserves it.
    pub open spec fn wf(self) -> bool {
        records_wf(self.records())
    }

    /// An empty store, with the lock free.
    pub fn new() -> (s: Self)
        ensures
            s.records() == Map::<Seq<char>, Seq<char>>::empty(),
            s.wf(),
            s.write_free(),
            s.shared_guards() == 0,
            !s.exclusive_held(),
    {
        let s = MemKVStore { map: StringHashMap::new(), readers: 0, writer: false };
        proof {
            assert(s.records() =~= Map::<Seq<char>, Seq<char>>::empty());
        }
        s
    }

    /// Take a shared guard, as a concurrent reader would; fails at once
    /// when the exclusive guard is held.
    pub fn acquire_shared(&mut self) -> (r: Result<(), KVError>)
        ensures
            old(self).read_free() && old(self).shared_guards() < u64::MAX ==> r is Ok,
            r is Ok ==> final (self).shared_guards() == old(self).shared_guards() + 1,
            r is Err ==> final (self).shared_guards() == old(self).shared_guards() && r == Err::<
                (),
                KVError,
            >(KVError::LockContention),
            final (self).records() == old(self).records(),
            final (self).exclusive_held() == old(self).exclusive_held(),
            final (self).wf() == old(self).wf(),
    {
        if self.writer || self.readers == u64::MAX {
            Err(KVError::LockContention)
        } else {
            self.readers = self.readers + 1;
            Ok(())
        }
    }

    /// Give a shared guard back.
    pub fn release_shared(&mut self)
        requires
            old(self).shared_guards() > 0,
        ensures
            final (self).shared_guards() == old(self).shared_guards() - 1,
            final (self).records() == old(self).records(),
            final (self).exclusive_held() == old(self).exclusive_held(),
            final (self).wf() == old(self).wf(),
    {
        self.readers = self.readers - 1;
    }

    /// Take the exclusive guard, as a concurrent writer would; fails at
    /// once when any guard is held.
    pub fn acquire_exclusive(&mut self) -> (r: Result<(), KVError>)
        ensures
            old(self).write_free() ==> r is Ok,
            r is Ok ==> final (self).exclusive_held(),
            r is Err ==> final (self).exclusive_held() == old(self).exclusive_held() && r == Err::<
                (),
                KVError,
            >(KVError::LockContention),
            final (self).records() == old(self).records(),
            final (self).shared_guards() == old(self).shared_guards(),
            final (self).wf() == old(self).wf(),
    {
        if self.writer || self.readers > 0 {
            Err(KVError::LockContention)
        } else {
            self.writer = true;
            Ok(())
        }
    }

    /// Give the exclusive guard back.
    pub fn release_exclusive(&mut self)
        requires
            old(self).exclusive_held(),
        ensures
            !final (self).exclusive_held(),
            final (self).records() == old(self).records(),
            final (self).shared_guards() == old(self).shared_guards(),
            final (self).wf() == old(self).wf(),
    {
        self.writer = false;
    }

    /// Store `value` under `key`, replacing any record already there.
    /// Succeeds exactly when the lock is free; on contention nothing
    /// changes and the caller may retry.
    pub fn put<K: KeyString>(&mut self, key: &K, value: &Value) -> (r: Result<(), KVError>)
        ensures
            old(self).write_free() ==> r is Ok,
            !old(self).write_free() ==> r == Err::<(), KVError>(KVError::LockContention),
            r is Ok ==> final (self).records() == old(self).records().insert(
                key.key_view(),
                encoding(value@),
            ),
            r is Err ==> final (self).records() == old(self).records(),
            old(self).wf() ==> final (self).wf(),
            final (self).shared_guards() == old(self).shared_guards(),
            final (self).exclusive_held() == old(self).exclusive_held(),
    {
        if self.writer || self.readers > 0 {
            return Err(KVError::LockContention);
        }
        let k = key.as_str();
        let payload = encode(value);
        proof {
            lemma_value_view_wf(value);
        }
        let ghost pre = self.records();
        self.map.insert(k, payload);
        proof {
            assert(self.records() =~= pre.insert(key.key_view(), encoding(value@)));
            if old(self).wf() {
                assert forall|k2: Seq<char>| #[trigger]
                    self.records().dom().contains(k2) implies exists|m: Val|
                    m.wf() && self.records()[k2] == encoding(m) by {
                    if k2 == key.key_view() {
                        assert(value@.wf() && self.records()[k2] == encoding(value@));
                    } else {
                        assert(pre.dom().contains(k2));
                        assert(self.records()[k2] == pre[k2]);
                    }
                }
            }
        }
        Ok(())
    }

    /// Fetch and decode the record under `key`.  Absence is not an error:
    /// a key never written, or already deleted, yields `Ok(None)`.
    pub fn get<K: KeyString>(&self, key: &K) -> (r: Result<Option<Value>, KVError>)
        ensures
            !self.read_free() ==> r == Err::<Option<Value>, KVError>(KVError::LockContention),
            self.read_free() && !self.records().dom().contains(key.key_view()) ==> r == Ok::<
                Option<Value>,
                KVError,
            >(None),
            self.read_free() && self.wf() && self.records().dom().contains(key.key_view()) ==> (
            r matches Ok(Some(w)) && self.records()[key.key_view()] == encoding(w@)),
            r matches Ok(Some(w)) ==> self.records().dom().contains(key.key_view())
                && self.records()[key.key_view()] == encoding(w@) && w@.wf(),
            r matches Ok(None) ==> !self.records().dom().contains(key.key_view()),
    {
        if self.writer {
            return Err(KVError::LockContention);
        }
        let k = key.as_str();
        match self.map.get(k.as_str()) {
            None => Ok(None),
            Some(payload) => match decode(payload.as_str()) {
                Ok(w) => Ok(Some(w)),
                Err(e) => {
                    proof {
                        if self.wf() {
                            assert(self.records().dom().contains(key.key_view()));
                            let m = choose|m: Val|
                                m.wf() && self.records()[key.key_view()] == encoding(m);
                            assert(payload@ == encoding(m));
                        }
                    }
                    Err(KVError::Decode(e))
                }
            },
        }
    }

    /// Report whether a record is stored under `key`, without decoding it.
    pub fn contains_key<K: KeyString>(&self, key: &K) -> (r: Result<bool, KVError>)
        ensures
            !self.read_free() ==> r == Err::<bool, KVError>(KVError::LockContention),
            self.read_free() ==> r == Ok::<bool, KVError>(
                self.records().dom().contains(key.key_view()),
            ),
    {
        if self.writer {
            return Err(KVError::LockContention);
        }
        let k = key.as_str();
        Ok(self.map.contains_key(k.as_str()))
    }

    /// Remove the record under `key` if there is one; deleting an absent
    /// key succeeds and changes nothing.
    pub fn delete<K: KeyString>(&mut self, key: &K) -> (r: Result<(), KVError>)
        ensures
            old(self).write_free() ==> r is Ok,
            !old(self).write_free() ==> r == Err::<(), KVError>(KVError::LockContention),
            r is Ok ==> final (self).records() == old(self).records().remove(key.key_view()),
            r is Err ==> final (self).records() == old(self).records(),
            old(self).wf() ==> final (self).wf(),
            final (self).shared_guards() == old(self).shared_guards(),
            final (self).exclusive_held() == old(self).exclusive_held(),
    {
        if self.writer || self.readers > 0 {
            return Err(KVError::LockContention);
        }
        let k = key.as_str();
        let ghost pre = self.records();
        self.map.remove(k.as_str());
        proof {
            assert(self.records() =~= pre.remove(key.key_view()));
            if old(self).wf() {
                assert forall|k2: Seq<char>| #[trigger]
                    self.records().dom().contains(k2) implies exists|m: Val|
                    m.wf() && self.records()[k2] == encoding(m) by {
                    assert(pre.dom().contains(k2));
                    assert(self.records()[k2] == pre[k2]);
                }
            }
        }
        Ok(())
    }
}

impl crate::KVStore for MemKVStore {
    open spec fn records(&self) -> Map<Seq<char>, Seq<char>> {
        MemKVStore::records(*self)
    }

    fn put<K: KeyString>(&mut self, key: &K, value: &Value) -> (r: Result<(), KVError>) {
        MemKVStore::put(self, key, value)
    }

    fn get<K: KeyString>(&self, key: &K) -> (r: Result<Option<Value>, KVError>) {
        MemKVStore::get(self, key)
    }

    fn contains_key<K: KeyString>(&self, key: &K) -> (r: Result<bool, KVError>) {
        MemKVStore::contains_key(self, key)
    }

    fn delete<K: KeyString>(&mut self, key: &K) -> (r: Result<(), KVError>) {
        MemKVStore::delete(self, key)
    }
}

} // verus!
