//! The traversal decisions of the tree walker: which paths are pruned, and
//! what the per-path state machine does at each visited object. The walk
//! itself — directory listing, metadata reads, and the concurrent fan-out —
//! is driven by the unverified shell, which consults these decisions.

use crate::acl::{mapping_ok, rewrite_doc, wf_entries, AclEntry};
use crate::ctx::Ctx;
use crate::remap_id;
use crate::types::ObjectKind;
use crate::views_of;
use vstd::prelude::*;

verus! {

/// `s` ends with `suffix`.
pub open spec fn ends_with(s: Seq<char>, suffix: Seq<char>) -> bool {
    s.len() >= suffix.len() && s.skip(s.len() - suffix.len() as int) == suffix
}

/// Some configured suffix ends the path.
pub open spec fn excluded_spec(path: Seq<char>, suffixes: Seq<Seq<char>>) -> bool {
    exists|i: int| 0 <= i < suffixes.len() && ends_with(path, #[trigger] suffixes[i])
}

/// Whether `s` ends with `suffix`, by characters.
fn str_ends_with(s: &str, suffix: &str) -> (r: bool)
    ensures
        r == ends_with(s@, suffix@),
{
    let n = s.unicode_len();
    let m = suffix.unicode_len();
    if m > n {
        return false;
    }
    let off = n - m;
    let ghost tail = s@.skip(off as int);
    let mut i: usize = 0;
    while i < m
        invariant
            i <= m,
            off == n - m,
            m <= n,
            n == s@.len(),
            m == suffix@.len(),
            tail == s@.skip(off as int),
            forall|j: int| 0 <= j < i ==> tail[j] == suffix@[j],
        decreases m - i,
    {
        let a = s.get_char(off + i);
        let b = suffix.get_char(i);
        proof {
            assert(tail[i as int] == s@[off + i]);
        }
        if a != b {
            proof {
                if ends_with(s@, suffix@) {
                    assert(tail[i as int] == suffix@[i as int]);
                }
            }
            return false;
        }
        i += 1;
    }
    proof {
        assert(tail =~= suffix@);
    }
    true
}

/// A path is pruned from traversal when its string form ends with any of the
/// configured suffixes. The check happens before any metadata fetch.
pub fn is_excluded(path: &String, ignore_paths: &Vec<String>) -> (r: bool)
    ensures
        r == excluded_spec(path@, views_of(ignore_paths@)),
{
    let mut i: usize = 0;
    while i < ignore_paths.len()
        invariant
            i <= ignore_paths@.len(),
            forall|j: int| 0 <= j < i ==> !ends_with(path@, views_of(ignore_paths@)[j]),
        decreases ignore_paths.len() - i,
    {
        if str_ends_with(path.as_str(), ignore_paths[i].as_str()) {
            proof {
                assert(ends_with(path@, views_of(ignore_paths@)[i as int]));
            }
            return true;
        }
        i += 1;
    }
    false
}

/// What the walker does at one visited path.
#[derive(Clone, Copy, PartialEq, Eq, Structural, Debug)]
pub struct VisitPlan {
    /// The path is pruned: nothing below is done and nothing is recursed.
    pub skipped: bool,
    /// Run the ownership step.
    pub process_permissions: bool,
    /// Read, rewrite and possibly write back the Access ACL.
    pub process_access_acl: bool,
    /// Read, rewrite and possibly write back the Default ACL.
    pub process_default_acl: bool,
    /// Expand the directory's children.
    pub recurse: bool,
}

/// The per-path state machine: an excluded path is skipped outright; a
/// symbolic link gets only the ownership step (which follows the link, as
/// the platform call does); ACLs are handled for files and directories
/// unless skipped, the Default ACL only for directories; only directories
/// are recursed into.
pub open spec fn visit_plan_spec(ctx: Ctx, path: Seq<char>, kind: ObjectKind) -> VisitPlan {
    let excluded = excluded_spec(path, views_of(ctx.ignore_paths@));
    VisitPlan {
        skipped: excluded,
        process_permissions: !excluded && !ctx.skip_permissions,
        process_access_acl: !excluded && !ctx.skip_acls && kind != ObjectKind::Symlink,
        process_default_acl: !excluded && !ctx.skip_acls && kind == ObjectKind::Directory,
        recurse: !excluded && kind == ObjectKind::Directory,
    }
}

/// What a visited object is, given what the platform says of it. Link-ness
/// is checked first and wins: a link to a directory is a symlink here.
pub fn classify_object(is_symlink: bool, is_dir: bool) -> (k: ObjectKind)
    ensures
        is_symlink ==> k == ObjectKind::Symlink,
        !is_symlink && is_dir ==> k == ObjectKind::Directory,
        !is_symlink && !is_dir ==> k == ObjectKind::File,
{
    if is_symlink {
        ObjectKind::Symlink
    } else if is_dir {
        ObjectKind::Directory
    } else {
        ObjectKind::File
    }
}

/// Decides everything the walker does at one path.
pub fn plan_visit(ctx: &Ctx, path: &String, kind: ObjectKind) -> (r: VisitPlan)
    ensures
        r == visit_plan_spec(*ctx, path@, kind),
{
    let excluded = is_excluded(path, &ctx.ignore_paths);
    if excluded {
        VisitPlan {
            skipped: true,
            process_permissions: false,
            process_access_acl: false,
            process_default_acl: false,
            recurse: false,
        }
    } else {
        let is_symlink = matches!(kind, ObjectKind::Symlink);
        let is_dir = matches!(kind, ObjectKind::Directory);
        VisitPlan {
            skipped: false,
            process_permissions: !ctx.skip_permissions,
            process_access_acl: !ctx.skip_acls && !is_symlink,
            process_default_acl: !ctx.skip_acls && is_dir,
            recurse: is_dir,
        }
    }
}

/// Law: a symbolic link never has an ACL read or written and never triggers
/// recursion, whatever the configuration, the mapping and the link's target
/// say.
pub proof fn lemma_symlink_untouched(ctx: Ctx, path: Seq<char>)
    ensures
        ({
            let plan = visit_plan_spec(ctx, path, ObjectKind::Symlink);
            &&& !plan.process_access_acl
            &&& !plan.process_default_acl
            &&& !plan.recurse
        }),
{
}

/// The identity metadata of one filesystem object, as one walk visit sees
/// and leaves it: its owner ids and the entry lists of its two ACLs.
pub struct ObjectState {
    pub uid: u32,
    pub gid: u32,
    pub access: Seq<AclEntry>,
    pub default_acl: Seq<AclEntry>,
}

/// What one visit leaves of one object's identity metadata, putting the
/// decisions above together: ownership is remapped and ACL qualifiers are
/// rewritten where the plan says so, and in noop mode, or for an excluded
/// path, nothing changes. Each object's outcome depends only on its own
/// state, so this is the whole per-object effect of a walk.
pub open spec fn visit_effect(ctx: Ctx, path: Seq<char>, kind: ObjectKind, st: ObjectState) -> ObjectState {
    let plan = visit_plan_spec(ctx, path, kind);
    if ctx.noop {
        st
    } else {
        ObjectState {
            uid: if plan.process_permissions {
                remap_id(ctx.uidmap@, st.uid)
            } else {
                st.uid
            },
            gid: if plan.process_permissions {
                remap_id(ctx.gidmap@, st.gid)
            } else {
                st.gid
            },
            access: if plan.process_access_acl {
                rewrite_doc(st.access, ctx.uidmap@, ctx.gidmap@)
            } else {
                st.access
            },
            default_acl: if plan.process_default_acl {
                rewrite_doc(st.default_acl, ctx.uidmap@, ctx.gidmap@)
            } else {
                st.default_acl
            },
        }
    }
}

/// Law: in noop mode a visit leaves every object exactly as it found it,
/// whatever the mapping holds; only the logging differs.
pub proof fn lemma_noop_changes_nothing(ctx: Ctx, path: Seq<char>, kind: ObjectKind, st: ObjectState)
    requires
        ctx.noop,
    ensures
        visit_effect(ctx, path, kind, st) == st,
{
}

/// Law: with a validated mapping, a second visit of an object leaves it as
/// the first visit left it. Visits touch no shared state and each object's
/// outcome depends only on its own metadata, so walking the same tree twice
/// with the same mapping leaves the tree as the first walk left it.
pub proof fn lemma_visit_idempotent(ctx: Ctx, path: Seq<char>, kind: ObjectKind, st: ObjectState)
    requires
        mapping_ok(ctx.uidmap@),
        mapping_ok(ctx.gidmap@),
        wf_entries(st.access),
        wf_entries(st.default_acl),
    ensures
        visit_effect(ctx, path, kind, visit_effect(ctx, path, kind, st)) == visit_effect(
            ctx,
            path,
            kind,
            st,
        ),
{
    if !ctx.noop {
        crate::files::lemma_remap_idempotent(ctx.uidmap@, st.uid);
        crate::files::lemma_remap_idempotent(ctx.gidmap@, st.gid);
        crate::acl::lemma_rewrite_idempotent(st.access, ctx.uidmap@, ctx.gidmap@);
        crate::acl::lemma_rewrite_idempotent(st.default_acl, ctx.uidmap@, ctx.gidmap@);
    }
}

} // verus!
