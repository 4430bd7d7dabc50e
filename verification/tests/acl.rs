use idremap::acl::{rewrite_acl, set_acl_permission, AclDocument, AclEntry, AclQualifier};
use idremap::ctx::Ctx;
use idremap::types::PermissionType;
use idremap::util::VerbosePrinter;
use std::collections::HashMap;

fn ctx_with(noop: bool, uid_pairs: &[(u32, u32)], gid_pairs: &[(u32, u32)]) -> Ctx {
    let mut uidmap: HashMap<u32, u32> = HashMap::new();
    for (old, new) in uid_pairs {
        uidmap.insert(*old, *new);
    }
    let mut gidmap: HashMap<u32, u32> = HashMap::new();
    for (old, new) in gid_pairs {
        gidmap.insert(*old, *new);
    }
    Ctx {
        noop,
        skip_permissions: false,
        skip_acls: false,
        uidmap,
        gidmap,
        ignore_paths: Vec::new(),
        verbose_printer: VerbosePrinter::new(0),
    }
}

fn doc_of(entries: &[(AclQualifier, u32)]) -> AclDocument {
    let list: Vec<AclEntry> = entries
        .iter()
        .map(|(qual, perm)| AclEntry { qual: *qual, perm: *perm })
        .collect();
    AclDocument::from_entries(&list)
}

const RWX: u32 = 7;

#[test]
fn rewrite_preserves_permission_bits() {
    let ctx = ctx_with(false, &[(5, 99)], &[]);
    let mut doc = doc_of(&[(AclQualifier::User(5), RWX)]);
    let changed = rewrite_acl(&ctx, &mut doc);
    assert!(changed);
    let entries = doc.entries();
    assert_eq!(entries.len(), 1);
    assert_eq!(entries[0], AclEntry { qual: AclQualifier::User(99), perm: RWX });
}

#[test]
fn rewrite_leaves_other_qualifiers_untouched() {
    let ctx = ctx_with(false, &[(5, 99)], &[(3, 30)]);
    let mut doc = doc_of(&[
        (AclQualifier::UserObj, RWX),
        (AclQualifier::Group(3), 4),
        (AclQualifier::GroupObj, 5),
        (AclQualifier::Other, 0),
        (AclQualifier::Mask, RWX),
    ]);
    let changed = rewrite_acl(&ctx, &mut doc);
    assert!(changed);
    let entries = doc.entries();
    assert_eq!(entries.len(), 5);
    assert!(entries.contains(&AclEntry { qual: AclQualifier::UserObj, perm: RWX }));
    assert!(entries.contains(&AclEntry { qual: AclQualifier::Group(30), perm: 4 }));
    assert!(entries.contains(&AclEntry { qual: AclQualifier::GroupObj, perm: 5 }));
    assert!(entries.contains(&AclEntry { qual: AclQualifier::Other, perm: 0 }));
    assert!(entries.contains(&AclEntry { qual: AclQualifier::Mask, perm: RWX }));
    assert!(!entries.iter().any(|e| e.qual == AclQualifier::Group(3)));
}

#[test]
fn rewrite_without_matches_reports_no_change() {
    let ctx = ctx_with(false, &[(5, 99)], &[]);
    let mut doc = doc_of(&[(AclQualifier::User(6), RWX), (AclQualifier::Mask, 5)]);
    let before = doc.entries();
    let changed = rewrite_acl(&ctx, &mut doc);
    assert!(!changed);
    assert_eq!(doc.entries(), before);
}

#[test]
fn rewrite_in_noop_mode_changes_nothing() {
    let ctx = ctx_with(true, &[(5, 99)], &[(7, 70)]);
    let mut doc = doc_of(&[(AclQualifier::User(5), RWX), (AclQualifier::Group(7), 4)]);
    let before = doc.entries();
    let changed = rewrite_acl(&ctx, &mut doc);
    assert!(!changed);
    assert_eq!(doc.entries(), before);
}

#[test]
fn rewrite_twice_is_idempotent() {
    let ctx = ctx_with(false, &[(5, 99), (6, 60)], &[(7, 70)]);
    let mut doc = doc_of(&[
        (AclQualifier::UserObj, RWX),
        (AclQualifier::User(5), 6),
        (AclQualifier::User(6), 5),
        (AclQualifier::Group(7), 4),
        (AclQualifier::Other, 0),
    ]);
    let first = rewrite_acl(&ctx, &mut doc);
    assert!(first);
    let after_first = doc.entries();
    let second = rewrite_acl(&ctx, &mut doc);
    assert!(!second);
    assert_eq!(doc.entries(), after_first);
}

#[test]
fn set_acl_permission_rekeys_one_entry() {
    let ctx = ctx_with(false, &[], &[(7, 107)]);
    let mut doc = doc_of(&[(AclQualifier::Group(7), RWX)]);
    let entry = AclEntry { qual: AclQualifier::Group(7), perm: RWX };
    let changed = set_acl_permission(&ctx, &mut doc, 7, entry, PermissionType::Group);
    assert!(changed);
    let entries = doc.entries();
    assert_eq!(entries, vec![AclEntry { qual: AclQualifier::Group(107), perm: RWX }]);
}

#[test]
fn set_acl_permission_in_noop_mode_changes_nothing() {
    let ctx = ctx_with(true, &[(5, 99)], &[]);
    let mut doc = doc_of(&[(AclQualifier::User(5), RWX)]);
    let entry = AclEntry { qual: AclQualifier::User(5), perm: RWX };
    let changed = set_acl_permission(&ctx, &mut doc, 5, entry, PermissionType::User);
    assert!(!changed);
    assert_eq!(doc.entries(), vec![AclEntry { qual: AclQualifier::User(5), perm: RWX }]);
}

#[test]
fn document_set_updates_in_place_and_appends() {
    let mut doc = AclDocument::new();
    doc.set(AclQualifier::User(1), 4);
    doc.set(AclQualifier::User(2), 5);
    doc.set(AclQualifier::User(1), 6);
    let entries = doc.entries();
    assert_eq!(
        entries,
        vec![
            AclEntry { qual: AclQualifier::User(1), perm: 6 },
            AclEntry { qual: AclQualifier::User(2), perm: 5 },
        ]
    );
}

#[test]
fn document_remove_returns_the_old_bits() {
    let mut doc = doc_of(&[(AclQualifier::User(1), 4), (AclQualifier::User(2), 5)]);
    assert_eq!(doc.remove(AclQualifier::User(1)), Some(4));
    assert_eq!(doc.remove(AclQualifier::User(1)), None);
    assert_eq!(doc.entries(), vec![AclEntry { qual: AclQualifier::User(2), perm: 5 }]);
    assert_eq!(doc.len(), 1);
}

#[test]
fn from_entries_keeps_the_last_repeated_qualifier() {
    let list = vec![
        AclEntry { qual: AclQualifier::User(1), perm: 4 },
        AclEntry { qual: AclQualifier::User(1), perm: 6 },
    ];
    let doc = AclDocument::from_entries(&list);
    assert_eq!(doc.entries(), vec![AclEntry { qual: AclQualifier::User(1), perm: 6 }]);
}
