//! Small closed variant types shared across the library.

use vstd::prelude::*;

verus! {

/// Which identity axis an operation concerns.
#[derive(Clone, Copy, PartialEq, Eq, Structural, Debug)]
pub enum PermissionType {
    User,
    Group,
}

impl PermissionType {
    /// A human-readable name for diagnostics.
    pub fn label(&self) -> (r: &'static str)
        ensures
            *self == PermissionType::User ==> r@ == "User"@,
            *self == PermissionType::Group ==> r@ == "Group"@,
    {
        match self {
            PermissionType::User => "User",
            PermissionType::Group => "Group",
        }
    }
}

/// The two kinds of POSIX ACL.
#[derive(Clone, Copy, PartialEq, Eq, Structural, Debug)]
pub enum AclType {
    /// The Access ACL governs access to the object itself.
    Access,
    /// Default ACLs exist only on directories and govern inheritance.
    Default,
}

impl AclType {
    /// A human-readable name for diagnostics.
    pub fn label(&self) -> (r: &'static str)
        ensures
            *self == AclType::Access ==> r@ == "access"@,
            *self == AclType::Default ==> r@ == "default"@,
    {
        match self {
            AclType::Access => "access",
            AclType::Default => "default",
        }
    }
}

/// What a visited filesystem object is. A symbolic link has this kind even
/// when its target is a directory: link-ness is checked first.
#[derive(Clone, Copy, PartialEq, Eq, Structural, Debug)]
pub enum ObjectKind {
    File,
    Directory,
    Symlink,
}

} // verus!
