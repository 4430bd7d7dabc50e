//! Per-object ownership decisions: which owner or group changes an object
//! needs, and what a pending operation may actually touch.

use crate::acl::{map_of, mapping_ok};
use crate::ctx::Ctx;
use crate::remap_id;
use crate::types::{ObjectKind, PermissionType};
use vstd::prelude::*;

verus! {

/// This represents a single file permission change operation: one pending
/// owner or group change, produced only when a mapping hit occurs, and
/// consumed within the same object's processing.
#[derive(Debug)]
pub struct PermissionOperation {
    /// Either a User permission, or Group permission.
    pub ptype: PermissionType,
    /// The current id of the permission.
    pub current_id: u32,
    /// The new id for the permission.
    pub new_id: u32,
    /// Path to the object.
    pub path: String,
}

/// The ownership metadata of one filesystem object, fetched fresh per
/// visit and never cached across visits.
#[derive(Debug)]
pub struct ObjectMeta {
    /// What the object is; a symbolic link keeps this kind even when its
    /// target is a directory.
    pub kind: ObjectKind,
    /// The owning user id, read following links.
    pub uid: u32,
    /// The owning group id, read following links.
    pub gid: u32,
}

/// The id of `meta` on the given axis.
pub open spec fn id_of(meta: ObjectMeta, ptype: PermissionType) -> u32 {
    match ptype {
        PermissionType::User => meta.uid,
        PermissionType::Group => meta.gid,
    }
}

/// Inspects the object's metadata on one axis and returns a pending
/// operation exactly when the respective identity map contains the object's
/// current id.
pub fn get_permission_operation(
    ctx: &Ctx,
    meta: &ObjectMeta,
    path: &String,
    ptype: PermissionType,
) -> (r: Option<PermissionOperation>)
    ensures
        ({
            let m = map_of(ptype, ctx.uidmap@, ctx.gidmap@);
            let cur = id_of(*meta, ptype);
            match r {
                Some(op) => {
                    &&& m.contains_key(cur)
                    &&& op.ptype == ptype
                    &&& op.current_id == cur
                    &&& op.new_id == m[cur]
                    &&& op.path@ == path@
                },
                None => !m.contains_key(cur),
            }
        }),
{
    let current_id = match ptype {
        PermissionType::User => meta.uid,
        PermissionType::Group => meta.gid,
    };
    let new_id = match ptype {
        PermissionType::User => ctx.uidmap.get(&current_id),
        PermissionType::Group => ctx.gidmap.get(&current_id),
    };
    match new_id {
        Some(new_id) => Some(
            PermissionOperation {
                ptype,
                current_id,
                new_id: *new_id,
                path: path.clone(),
            },
        ),
        None => None,
    }
}

/// The pending operations one object needs: one per axis whose identity map
/// contains the object's current id, the uid axis first.
pub fn compute_operations(ctx: &Ctx, meta: &ObjectMeta, path: &String) -> (ops: Vec<
    PermissionOperation,
>)
    ensures
        ({
            let um = ctx.uidmap@;
            let gm = ctx.gidmap@;
            let uhit = um.contains_key(meta.uid);
            let ghit = gm.contains_key(meta.gid);
            &&& ops@.len() == (if uhit {
                1int
            } else {
                0int
            }) + (if ghit {
                1int
            } else {
                0int
            })
            &&& uhit ==> {
                let op = ops@[0];
                &&& op.ptype == PermissionType::User
                &&& op.current_id == meta.uid
                &&& op.new_id == um[meta.uid]
                &&& op.path@ == path@
            }
            &&& ghit ==> {
                let op = ops@[ops@.len() - 1];
                &&& op.ptype == PermissionType::Group
                &&& op.current_id == meta.gid
                &&& op.new_id == gm[meta.gid]
                &&& op.path@ == path@
            }
        }),
{
    let mut ops: Vec<PermissionOperation> = Vec::new();
    match get_permission_operation(ctx, meta, path, PermissionType::User) {
        Some(po) => ops.push(po),
        None => (),
    }
    match get_permission_operation(ctx, meta, path, PermissionType::Group) {
        Some(po) => ops.push(po),
        None => (),
    }
    ops
}

/// The one platform call a pending operation asks for: set the owning user
/// or group id of the object at `path`, following links as the OS-level
/// owner-change call does.
#[derive(Debug)]
pub struct OwnerChange {
    pub ptype: PermissionType,
    pub new_id: u32,
    pub path: String,
}

/// Decides what applying one pending operation may do: in noop mode nothing
/// (the caller only logs the intent), otherwise exactly the owner-change
/// call the operation describes. The call itself is made by the unverified
/// shell; a failure there is logged and never aborts the walk.
pub fn plan_owner_change(ctx: &Ctx, perm_op: &PermissionOperation) -> (r: Option<OwnerChange>)
    ensures
        ctx.noop ==> r is None,
        !ctx.noop ==> match r {
            Some(c) => c.ptype == perm_op.ptype && c.new_id == perm_op.new_id && c.path@
                == perm_op.path@,
            None => false,
        },
{
    if ctx.noop {
        None
    } else {
        Some(
            OwnerChange {
                ptype: perm_op.ptype,
                new_id: perm_op.new_id,
                path: perm_op.path.clone(),
            },
        )
    }
}

/// Law: remapping an id through a validated map is idempotent: once
/// remapped, an id no longer matches the map, so a second walk with the same
/// mapping finds nothing to change.
pub proof fn lemma_remap_idempotent(m: Map<u32, u32>, id: u32)
    requires
        mapping_ok(m),
    ensures
        m.contains_key(id) ==> !m.contains_key(remap_id(m, id)),
        remap_id(m, remap_id(m, id)) == remap_id(m, id),
{
}

} // verus!
