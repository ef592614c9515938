use vstd::prelude::*;

use crate::codec::{decode, encoding};
use crate::errors::KVError;
use crate::value::{Val, Value};

verus! {

/// The embedded engine backend's reading side.  The engine itself — an
/// ordered, persistent byte store reached through an outside crate — owns
/// storage, locking and compaction; this layer only fixes what each of its
/// outcomes means.  `get` hands the fetched payload here; absence is
/// `Ok(None)`, a payload is decoded in full, and a payload that does not
/// decode is a decode error, never silently dropped.  The engine's
/// presence test is probabilistic (no false negatives, false positives
/// allowed), so its answer passes through untouched.
pub fn read_engine_value(fetched: Option<String>) -> (r: Result<Option<Value>, KVError>)
    ensures
        fetched is None ==> r == Ok::<Option<Value>, KVError>(None),
        fetched matches Some(p) ==> {
            &&& (forall|m: Val| m.wf() && p@ == encoding(m) ==> (r matches Ok(Some(w)) && w@ == m))
            &&& (r matches Ok(Some(w)) ==> p@ == encoding(w@) && w@.wf())
            &&& (r matches Err(e) ==> e is Decode)
        },
{
    match fetched {
        None => Ok(None),
        Some(p) => match decode(p.as_str()) {
            Ok(w) => Ok(Some(w)),
            Err(e) => Err(KVError::Decode(e)),
        },
    }
}

} // verus!
