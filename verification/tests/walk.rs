use idremap::acl::{rewrite_acl, AclDocument, AclEntry, AclQualifier};
use idremap::ctx::Ctx;
use idremap::files::{compute_operations, get_permission_operation, plan_owner_change, ObjectMeta};
use idremap::run::{classify_object, is_excluded, plan_visit};
use idremap::types::{ObjectKind, PermissionType};
use idremap::util::VerbosePrinter;
use std::collections::HashMap;

fn scenario_ctx(noop: bool) -> Ctx {
    let mut uidmap: HashMap<u32, u32> = HashMap::new();
    uidmap.insert(5, 105);
    let mut gidmap: HashMap<u32, u32> = HashMap::new();
    gidmap.insert(7, 107);
    Ctx {
        noop,
        skip_permissions: false,
        skip_acls: false,
        uidmap,
        gidmap,
        ignore_paths: vec![".snapshots".to_string()],
        verbose_printer: VerbosePrinter::new(0),
    }
}

#[test]
fn classify_object_checks_links_first() {
    assert_eq!(classify_object(true, true), ObjectKind::Symlink);
    assert_eq!(classify_object(true, false), ObjectKind::Symlink);
    assert_eq!(classify_object(false, true), ObjectKind::Directory);
    assert_eq!(classify_object(false, false), ObjectKind::File);
}

#[test]
fn symlinks_get_no_acl_work_and_no_recursion() {
    let ctx = scenario_ctx(false);
    let path = "/data/link-to-dir".to_string();
    let plan = plan_visit(&ctx, &path, ObjectKind::Symlink);
    assert!(!plan.skipped);
    assert!(plan.process_permissions);
    assert!(!plan.process_access_acl);
    assert!(!plan.process_default_acl);
    assert!(!plan.recurse);
}

#[test]
fn directories_get_both_acl_kinds_and_recursion() {
    let ctx = scenario_ctx(false);
    let path = "/data/b".to_string();
    let plan = plan_visit(&ctx, &path, ObjectKind::Directory);
    assert!(!plan.skipped);
    assert!(plan.process_permissions);
    assert!(plan.process_access_acl);
    assert!(plan.process_default_acl);
    assert!(plan.recurse);
}

#[test]
fn files_get_only_the_access_acl() {
    let ctx = scenario_ctx(false);
    let path = "/data/a".to_string();
    let plan = plan_visit(&ctx, &path, ObjectKind::File);
    assert!(plan.process_access_acl);
    assert!(!plan.process_default_acl);
    assert!(!plan.recurse);
}

#[test]
fn skip_flags_gate_each_subsystem() {
    let mut ctx = scenario_ctx(false);
    ctx.skip_permissions = true;
    ctx.skip_acls = true;
    let path = "/data/b".to_string();
    let plan = plan_visit(&ctx, &path, ObjectKind::Directory);
    assert!(!plan.process_permissions);
    assert!(!plan.process_access_acl);
    assert!(!plan.process_default_acl);
    assert!(plan.recurse);
}

#[test]
fn excluded_suffix_prunes_the_path() {
    let ctx = scenario_ctx(false);
    let path = "/data/.snapshots".to_string();
    assert!(is_excluded(&path, &ctx.ignore_paths));
    let plan = plan_visit(&ctx, &path, ObjectKind::Directory);
    assert!(plan.skipped);
    assert!(!plan.process_permissions);
    assert!(!plan.process_access_acl);
    assert!(!plan.process_default_acl);
    assert!(!plan.recurse);
    let other = "/data/a".to_string();
    assert!(!is_excluded(&other, &ctx.ignore_paths));
}

#[test]
fn exclusion_matches_suffixes_only() {
    let suffixes = vec![".snapshots".to_string()];
    assert!(is_excluded(&"/x/foo.snapshots".to_string(), &suffixes));
    assert!(is_excluded(&".snapshots".to_string(), &suffixes));
    assert!(!is_excluded(&"/data/.snapshots2".to_string(), &suffixes));
    assert!(!is_excluded(&"/data/.snapshot".to_string(), &suffixes));
    assert!(!is_excluded(&"/data/a".to_string(), &Vec::new()));
}

#[test]
fn compute_operations_emits_one_entry_per_matching_axis() {
    let ctx = scenario_ctx(false);
    let path = "/data/c".to_string();
    let both = ObjectMeta { kind: ObjectKind::File, uid: 5, gid: 7 };
    let ops = compute_operations(&ctx, &both, &path);
    assert_eq!(ops.len(), 2);
    assert_eq!(ops[0].ptype, PermissionType::User);
    assert_eq!(ops[0].current_id, 5);
    assert_eq!(ops[0].new_id, 105);
    assert_eq!(ops[1].ptype, PermissionType::Group);
    assert_eq!(ops[1].current_id, 7);
    assert_eq!(ops[1].new_id, 107);
    let neither = ObjectMeta { kind: ObjectKind::File, uid: 1, gid: 2 };
    assert_eq!(compute_operations(&ctx, &neither, &path).len(), 0);
}

#[test]
fn get_permission_operation_misses_unmapped_ids() {
    let ctx = scenario_ctx(false);
    let path = "/data/a".to_string();
    let meta = ObjectMeta { kind: ObjectKind::File, uid: 6, gid: 7 };
    assert!(get_permission_operation(&ctx, &meta, &path, PermissionType::User).is_none());
    let op = get_permission_operation(&ctx, &meta, &path, PermissionType::Group).unwrap();
    assert_eq!(op.current_id, 7);
    assert_eq!(op.new_id, 107);
    assert_eq!(op.path, path);
}

#[test]
fn noop_mode_plans_no_owner_change() {
    let ctx = scenario_ctx(true);
    let path = "/data/a".to_string();
    let meta = ObjectMeta { kind: ObjectKind::File, uid: 5, gid: 0 };
    let ops = compute_operations(&ctx, &meta, &path);
    assert_eq!(ops.len(), 1);
    assert!(plan_owner_change(&ctx, &ops[0]).is_none());
}

#[test]
fn example_scenario_remaps_owner_group_and_default_acl() {
    let ctx = scenario_ctx(false);

    // /data/a: a file owned by uid 5 ends owned by uid 105.
    let a_path = "/data/a".to_string();
    let a_meta = ObjectMeta { kind: ObjectKind::File, uid: 5, gid: 0 };
    let a_plan = plan_visit(&ctx, &a_path, ObjectKind::File);
    assert!(!a_plan.skipped && a_plan.process_permissions);
    let a_ops = compute_operations(&ctx, &a_meta, &a_path);
    assert_eq!(a_ops.len(), 1);
    let change = plan_owner_change(&ctx, &a_ops[0]).unwrap();
    assert_eq!(change.ptype, PermissionType::User);
    assert_eq!(change.new_id, 105);
    assert_eq!(change.path, a_path);

    // /data/b: a directory owned by gid 7 ends owned by gid 107, and its
    // Default ACL entry Group(7) rwx ends as Group(107) rwx.
    let b_path = "/data/b".to_string();
    let b_meta = ObjectMeta { kind: ObjectKind::Directory, uid: 0, gid: 7 };
    let b_plan = plan_visit(&ctx, &b_path, ObjectKind::Directory);
    assert!(b_plan.process_default_acl && b_plan.recurse);
    let b_ops = compute_operations(&ctx, &b_meta, &b_path);
    assert_eq!(b_ops.len(), 1);
    let b_change = plan_owner_change(&ctx, &b_ops[0]).unwrap();
    assert_eq!(b_change.ptype, PermissionType::Group);
    assert_eq!(b_change.new_id, 107);
    let list = vec![AclEntry { qual: AclQualifier::Group(7), perm: 7 }];
    let mut default_acl = AclDocument::from_entries(&list);
    assert!(rewrite_acl(&ctx, &mut default_acl));
    assert_eq!(
        default_acl.entries(),
        vec![AclEntry { qual: AclQualifier::Group(107), perm: 7 }]
    );

    // /data/.snapshots: excluded, untouched, not recursed into.
    let s_path = "/data/.snapshots".to_string();
    let s_plan = plan_visit(&ctx, &s_path, ObjectKind::Directory);
    assert!(s_plan.skipped && !s_plan.recurse && !s_plan.process_permissions);
}
