//! The engine contract: what any key-value backend promises its callers.

use vstd::prelude::*;

use crate::error::KVError;

pub mod kvs;

verus! {

/// A key-value engine: a mapping from string keys to string values that
/// mutations update exactly as a reference map would (the engine contract the
/// request server relies on).
pub trait KvsEngine: Sized {
    /// The engine's internal invariant.
    spec fn wf(&self) -> bool;

    /// The visible key-value mapping.
    spec fn kv(&self) -> Map<Seq<char>, Seq<char>>;

    /// Sets the value of a string key to a string.
    fn set(&mut self, key: String, value: String) -> (r: Result<(), KVError>)
        requires
            old(self).wf(),
        ensures
            final(self).wf(),
            r is Ok,
            final(self).kv() == old(self).kv().insert(key@, value@),
    ;

    /// Gets the string value of a string key; `None` where it has none.
    fn get(&mut self, key: String) -> (r: Result<Option<String>, KVError>)
        requires
            old(self).wf(),
        ensures
            final(self).wf(),
            final(self).kv() == old(self).kv(),
            match r {
                Ok(Some(v)) => old(self).kv().contains_key(key@) && v@ == old(self).kv()[key@],
                Ok(None) => !old(self).kv().contains_key(key@),
                Err(_) => false,
            },
    ;

    /// Removes a key; errors with key-not-found where it is absent.
    fn remove(&mut self, key: String) -> (r: Result<(), KVError>)
        requires
            old(self).wf(),
        ensures
            final(self).wf(),
            old(self).kv().contains_key(key@) ==> r is Ok && final(self).kv() == old(
                self,
            ).kv().remove(key@),
            !old(self).kv().contains_key(key@) ==> r == Err::<(), KVError>(KVError::KeyNoExist)
                && final(self).kv() == old(self).kv(),
    ;
}

} // verus!
