//! The single-key value store.
//!
//! The service persists exactly one record, under one well-known key. The
//! store is modelled by that record: `put` overwrites it unconditionally
//! (last writer wins) and `get` returns the current value or reports
//! absence, which is distinct from any error. An externally provisioned
//! store may also fail outright; such failures belong to the hosting edge,
//! which surfaces them as its default failed-request response without
//! retrying, and they are not modelled here.

use vstd::prelude::*;
use crate::keywords::str_eq;

verus! {

/// The fixed logical key under which the record is stored.
pub open spec fn spec_store_key() -> Seq<char> {
    "latest_keywords"@
}

/// The fixed logical key under which the record is stored.
pub fn store_key() -> (r: String)
    ensures
        r@ == spec_store_key(),
{
    String::from_str("latest_keywords")
}

/// A key-value store holding at most the one record of this service.
pub struct KvStore {
    record: Option<String>,
}

impl View for KvStore {
    type V = Option<Seq<char>>;

    closed spec fn view(&self) -> Option<Seq<char>> {
        match self.record {
            Some(ref v) => Some(v@),
            None => None,
        }
    }
}

impl KvStore {
    /// A fresh store holding nothing.
    pub fn new() -> (s: KvStore)
        ensures
            s@ is None,
    {
        KvStore { record: None }
    }

    /// Stores `value` under `key`, replacing whatever was there. Only the
    /// fixed key is ever written by this service; a value put under any
    /// other key is not retained by this single-record store.
    pub fn put(&mut self, key: &str, value: String)
        ensures
            key@ == spec_store_key() ==> final(self)@ == Some(value@),
            key@ != spec_store_key() ==> final(self)@ == old(self)@,
    {
        let k = store_key();
        if str_eq(key, k.as_str()) {
            self.record = Some(value);
        }
    }

    /// Returns the value stored under `key`, or nothing when nothing has
    /// ever been written there.
    pub fn get(&self, key: &str) -> (r: Option<&String>)
        ensures
            match r {
                Some(v) => key@ == spec_store_key() && self@ == Some(v@),
                None => key@ != spec_store_key() || self@ is None,
            },
    {
        let k = store_key();
        if str_eq(key, k.as_str()) {
            self.record.as_ref()
        } else {
            None
        }
    }
}

} // verus!
