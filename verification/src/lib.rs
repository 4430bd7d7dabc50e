//! Verified core of a bulk uid/gid migration tool.
//!
//! The library walks no directories itself: it holds the validated identity
//! mappings, the per-object decision logic for ownership changes, the POSIX
//! ACL document model with its qualifier rewrite, and the traversal planning.
//! A thin unverified shell performs the filesystem calls these decisions ask
//! for.

pub mod acl;
pub mod ctx;
pub mod files;
pub mod pairs;
pub mod run;
pub mod types;
pub mod util;

use vstd::prelude::*;

verus! {

/// Remaps one id through a mapping: the mapped value on a hit, the id itself
/// otherwise.
pub open spec fn remap_id(m: Map<u32, u32>, id: u32) -> u32 {
    if m.contains_key(id) {
        m[id]
    } else {
        id
    }
}

/// The views of a list of strings.
pub open spec fn views_of(strings: Seq<String>) -> Seq<Seq<char>> {
    strings.map_values(|p: String| p@)
}

} // verus!
