//! The hash remap table: an append-only mapping from original commit hash
//! to rewritten commit hash, held in a hash map. Entries exist only for
//! commits whose serialized content actually changed; absence of an entry
//! means the original hash is still valid.

use vstd::prelude::*;

verus! {

/// Append-only map from original commit hash to rewritten commit hash.
#[verifier::external_body]
pub struct RemapTable {
    map: rustc_hash::FxHashMap<u64, u64>,
}

/// The entries the remap table holds.
pub uninterp spec fn table_model(t: RemapTable) -> Map<u64, u64>;

impl RemapTable {
    /// Relies on `HashMap::default` (through `FxHashMap`): a freshly
    /// created map holds no entry.
    #[verifier::external_body]
    pub fn new() -> (r: RemapTable)
        ensures
            table_model(r).dom().finite(),
            table_model(r).len() == 0,
    {
        RemapTable { map: rustc_hash::FxHashMap::default() }
    }

    /// Relies on `HashMap::insert`: afterwards the map holds `new_hash`
    /// under `old_hash`; every other key is unaffected.
    #[verifier::external_body]
    pub fn insert(&mut self, old_hash: u64, new_hash: u64)
        ensures
            table_model(*final(self)) == table_model(*old(self)).insert(old_hash, new_hash),
    {
        self.map.insert(old_hash, new_hash);
    }

    /// Relies on `HashMap::get`: returns the value stored under `h`, if any.
    #[verifier::external_body]
    pub fn get(&self, h: u64) -> (r: Option<u64>)
        ensures
            r == (if table_model(*self).dom().contains(h) {
                Some(table_model(*self)[h])
            } else {
                None::<u64>
            }),
    {
        self.map.get(&h).copied()
    }
}

} // verus!
