//! The immutable run configuration shared by every traversal task.

use crate::util::VerbosePrinter;
use std::collections::HashMap;
use vstd::prelude::*;

verus! {

/// Context structure for storing cross-application data. It is built once,
/// before the walk starts, and never mutated afterwards: every concurrent
/// task reads it through a shared reference.
#[derive(Debug)]
pub struct Ctx {
    /// If noop, nothing will be written, only processed.
    pub noop: bool,
    /// If skip_permissions, Unix owner and group ids are not modified.
    pub skip_permissions: bool,
    /// If skip_acls, POSIX ACLs are not modified.
    pub skip_acls: bool,
    /// Map of old:new uids. Example 57:219883.
    pub uidmap: HashMap<u32, u32>,
    /// Map of old:new gids. Example 57:219883.
    pub gidmap: HashMap<u32, u32>,
    /// Path suffixes pruned from traversal.
    pub ignore_paths: Vec<String>,
    /// The diagnostic printer.
    pub verbose_printer: VerbosePrinter,
}

} // verus!
