//! The key-value store that commands run against: an exact-match mapping
//! from text to text, with no eviction and no persistence.

use crate::ResponseStatus;
use vstd::hash_map::StringHashMap;
use vstd::prelude::*;
use vstd::string::StringExecFns;

verus! {

/// A mapping from keys to values, both text.
pub struct Database {
    data: StringHashMap<String>,
}

impl View for Database {
    type V = Map<Seq<char>, Seq<char>>;

    closed spec fn view(&self) -> Map<Seq<char>, Seq<char>> {
        self.data@.map_values(|v: String| v@)
    }
}

impl Database {
    /// An empty store.
    pub fn new() -> (db: Database)
        ensures
            db@ == Map::<Seq<char>, Seq<char>>::empty(),
    {
        let db = Database { data: StringHashMap::new() };
        assert(db@ =~= Map::<Seq<char>, Seq<char>>::empty());
        db
    }

    /// Stores `value` under `key`, replacing what was there. Always
    /// succeeds.
    pub fn set(&mut self, key: String, value: String) -> (status: ResponseStatus)
        ensures
            status == ResponseStatus::StatusOk,
            final(self)@ == old(self)@.insert(key@, value@),
    {
        let ghost k = key@;
        let ghost v = value@;
        self.data.insert(key, value);
        assert(self@ =~= old(self)@.insert(k, v));
        ResponseStatus::StatusOk
    }

    /// Looks `key` up. Where it is present its value is appended to `value`
    /// and the status is `StatusOk`; where it is absent `value` is left as it
    /// was and the status is `StatusNx`.
    pub fn get(&self, key: &str, value: &mut String) -> (status: ResponseStatus)
        ensures
            self@.contains_key(key@) ==> status == ResponseStatus::StatusOk && final(value)@ == old(
                value,
            )@ + self@[key@],
            !self@.contains_key(key@) ==> status == ResponseStatus::StatusNx && final(value)@
                == old(value)@,
    {
        match self.data.get(key) {
            Some(v) => {
                value.append(v.as_str());
                ResponseStatus::StatusOk
            },
            None => ResponseStatus::StatusNx,
        }
    }

    /// Removes `key` and its value. An absent key is no error: the store is
    /// then left as it was.
    pub fn del(&mut self, key: &str) -> (status: ResponseStatus)
        ensures
            status == ResponseStatus::StatusOk,
            final(self)@ == old(self)@.remove(key@),
    {
        self.data.remove(key);
        assert(self@ =~= old(self)@.remove(key@));
        ResponseStatus::StatusOk
    }
}

} // verus!
