//! A file-storage access-control and retrieval engine, together with the
//! generic filter/pagination engine that its listing endpoints use.
//!
//! Stored objects (files and groups) grant access through three independent
//! channels: direct ownership, an explicit per-object allow-list, and
//! membership in one or more groups. Every mutation is gated by a single
//! capability check, and every listing runs through one paginator.

use vstd::prelude::*;

pub mod access;
pub mod file;
pub mod group;
pub mod paginate;
pub mod strings;

verus! {

/// Allocates the identifier for the next record of a keyed table: one past
/// the number of records already stored.
pub fn generate_id<T>(map: &std::collections::HashMap<u64, T>) -> (r: u64)
    requires
        vstd::std_specs::hash::spec_hash_map_len(map) < u64::MAX,
    ensures
        r == vstd::std_specs::hash::spec_hash_map_len(map) + 1,
{
    (map.len() as u64) + 1
}

} // verus!
