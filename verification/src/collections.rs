//! A collection as named in the legacy configuration file: either a plain
//! set code, or a draft environment with an explicit card-search query.

use vstd::prelude::*;

verus! {

pub enum Collection {
    SetCode(String),
    Draft(String, String),
}

impl Collection {
    /// The key under which the collection is registered.
    pub fn key(&self) -> (k: &String)
        ensures
            k@ == self.spec_key(),
    {
        match self {
            Collection::SetCode(key) => key,
            Collection::Draft(key, _) => key,
        }
    }

    pub open spec fn spec_key(&self) -> Seq<char> {
        match self {
            Collection::SetCode(key) => key@,
            Collection::Draft(key, _) => key@,
        }
    }
}

} // verus!
