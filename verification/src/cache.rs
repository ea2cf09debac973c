//! The pluggable cache for decompressed block payloads.

use vstd::prelude::*;

verus! {

/// A keyed store for decompressed block payloads, owned by the caller.
///
/// The key pairs a stream id with a block's stream offset.  An
/// implementation may drop entries at any time — the log never depends on a
/// hit — but it must not invent or alter one: `get` hands back only what an
/// earlier `put` stored under the same key.  `prio` hints that an entry is a
/// long-lived branch decode and should outlive ordinary leaves.
pub trait Cache {
    /// The entries currently held, as a map from key to payload bytes.
    /// Implementations written outside the verified world inherit the
    /// default; the contracts below are then trusted, not checked: a cache
    /// that answers a hit with bytes that differ from what was stored under
    /// that key is believed absolutely, and the log's retrieval guarantees
    /// fall with it.
    open spec fn contents(&self) -> Map<(u32, u64), Seq<u8>> {
        Map::empty()
    }

    /// Stores `value` under `key`; other entries may be evicted but none is
    /// altered.
    fn put(&mut self, key: (u32, u64), value: Vec<u8>, prio: bool)
        ensures
            forall|k: (u32, u64)| #[trigger] final(self).contents().dom().contains(k) ==> (k == key
                && final(self).contents()[k] == value@) || (k != key && old(
                self,
            ).contents().dom().contains(k) && final(self).contents()[k] == old(self).contents()[k]),
    ;

    /// Looks `key` up; entries may be evicted but none is altered.
    fn get(&mut self, key: (u32, u64)) -> (r: Option<Vec<u8>>)
        ensures
            forall|k: (u32, u64)| #[trigger] final(self).contents().dom().contains(k) ==> old(
                self,
            ).contents().dom().contains(k) && final(self).contents()[k] == old(self).contents()[k],
            r matches Some(v) ==> old(self).contents().contains_pair(key, v@),
    ;
}

/// A cache that stores nothing; every lookup misses.
pub struct NoCache;

impl Cache for NoCache {
    closed spec fn contents(&self) -> Map<(u32, u64), Seq<u8>> {
        Map::empty()
    }

    fn put(&mut self, key: (u32, u64), value: Vec<u8>, prio: bool) {
    }

    fn get(&mut self, key: (u32, u64)) -> (r: Option<Vec<u8>>) {
        None
    }
}

} // verus!
