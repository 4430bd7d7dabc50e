//! The POSIX ACL document model and the qualifier rewrite at the heart of
//! the migration: entries naming a mapped user or group id are re-keyed to
//! the new id with their permission bits unchanged.

use crate::ctx::Ctx;
use crate::types::PermissionType;
use vstd::prelude::*;

verus! {

/// The subject of one ACL entry.
#[derive(Clone, Copy, PartialEq, Eq, Structural, Debug)]
pub enum AclQualifier {
    /// An unrecognized or corrupt entry, carried through untouched.
    Undefined,
    /// The owning user of the object.
    UserObj,
    /// The owning group of the object.
    GroupObj,
    /// Everyone not covered otherwise.
    Other,
    /// The user with this uid.
    User(u32),
    /// The group with this gid.
    Group(u32),
    /// The mask entry.
    Mask,
}

/// One ACL entry: a qualifier and its permission bits.
#[derive(Clone, Copy, PartialEq, Eq, Structural, Debug)]
pub struct AclEntry {
    pub qual: AclQualifier,
    pub perm: u32,
}

/// No two entries share a qualifier.
pub open spec fn wf_entries(s: Seq<AclEntry>) -> bool {
    forall|i: int, j: int| 0 <= i < j < s.len() ==> (#[trigger] s[i]).qual != (#[trigger] s[j]).qual
}

/// Some entry of `s` has qualifier `q`.
pub open spec fn has_qual(s: Seq<AclEntry>, q: AclQualifier) -> bool {
    exists|i: int| 0 <= i < s.len() && (#[trigger] s[i]).qual == q
}

/// The position of the entry with qualifier `q`.
pub open spec fn qual_index(s: Seq<AclEntry>, q: AclQualifier) -> int {
    choose|i: int| 0 <= i < s.len() && (#[trigger] s[i]).qual == q
}

/// What setting `q` to `perm` does to an entry list: updates the entry with
/// qualifier `q` in place if one exists, otherwise appends a new entry.
pub open spec fn seq_set(s: Seq<AclEntry>, q: AclQualifier, perm: u32) -> Seq<AclEntry> {
    if has_qual(s, q) {
        s.update(qual_index(s, q), AclEntry { qual: q, perm })
    } else {
        s.push(AclEntry { qual: q, perm })
    }
}

/// What removing `q` does to an entry list: drops the entry with qualifier
/// `q` if one exists.
pub open spec fn seq_remove(s: Seq<AclEntry>, q: AclQualifier) -> Seq<AclEntry> {
    if has_qual(s, q) {
        s.remove(qual_index(s, q))
    } else {
        s
    }
}

/// The entry list read as a finite map from qualifier to permission bits
/// (the last entry wins, though a well-formed list has no repeats).
pub open spec fn doc_map(s: Seq<AclEntry>) -> Map<AclQualifier, u32>
    decreases s.len(),
{
    if s.len() == 0 {
        Map::empty()
    } else {
        doc_map(s.drop_last()).insert(s.last().qual, s.last().perm)
    }
}

/// In a well-formed list the map view agrees with the entries: a qualifier
/// is a key exactly when an entry names it, and it maps to that entry's
/// permission bits.
pub proof fn lemma_doc_map_char(s: Seq<AclEntry>)
    requires
        wf_entries(s),
    ensures
        forall|q: AclQualifier|
            #![trigger doc_map(s).contains_key(q)]
            #![trigger has_qual(s, q)]
            doc_map(s).contains_key(q) <==> has_qual(s, q),
        forall|i: int| 0 <= i < s.len() ==> doc_map(s).contains_key((#[trigger] s[i]).qual)
            && doc_map(s)[s[i].qual] == s[i].perm,
    decreases s.len(),
{
    if s.len() > 0 {
        let s0 = s.drop_last();
        assert(wf_entries(s0));
        lemma_doc_map_char(s0);
        assert(doc_map(s) == doc_map(s0).insert(s.last().qual, s.last().perm));
        assert forall|q: AclQualifier| doc_map(s).contains_key(q) implies has_qual(s, q) by {
            if q == s.last().qual {
                assert((#[trigger] s[s.len() - 1]).qual == q);
            } else {
                assert(doc_map(s0).contains_key(q));
                assert(has_qual(s0, q));
                let i = choose|i: int| 0 <= i < s0.len() && (#[trigger] s0[i]).qual == q;
                assert(s0[i] == s[i]);
                assert((#[trigger] s[i]).qual == q);
            }
        }
        assert forall|q: AclQualifier| has_qual(s, q) implies doc_map(s).contains_key(q) by {
            let i = choose|i: int| 0 <= i < s.len() && (#[trigger] s[i]).qual == q;
            if i < s.len() - 1 {
                assert((#[trigger] s0[i]).qual == q);
            }
        }
        assert forall|i: int| 0 <= i < s.len() implies doc_map(s).contains_key(
            (#[trigger] s[i]).qual,
        ) && doc_map(s)[s[i].qual] == s[i].perm by {
            if i < s.len() - 1 {
                assert(s0[i] == s[i]);
                assert(s[i].qual != s.last().qual);
            }
        }
    }
}

/// Setting preserves well-formedness.
pub proof fn lemma_seq_set_wf(s: Seq<AclEntry>, q: AclQualifier, perm: u32)
    requires
        wf_entries(s),
    ensures
        wf_entries(seq_set(s, q, perm)),
        has_qual(seq_set(s, q, perm), q),
        forall|p: AclQualifier| p != q ==> (has_qual(seq_set(s, q, perm), p) <==> has_qual(s, p)),
{
    let r = seq_set(s, q, perm);
    if has_qual(s, q) {
        let k = qual_index(s, q);
        assert forall|i: int, j: int| 0 <= i < j < r.len() implies (#[trigger] r[i]).qual
            != (#[trigger] r[j]).qual by {
            assert(s[i].qual != s[j].qual);
        }
        assert((#[trigger] r[k]).qual == q);
        assert forall|p: AclQualifier| p != q && has_qual(r, p) implies has_qual(s, p) by {
            let i = choose|i: int| 0 <= i < r.len() && (#[trigger] r[i]).qual == p;
            assert((#[trigger] s[i]).qual == p);
        }
        assert forall|p: AclQualifier| p != q && has_qual(s, p) implies has_qual(r, p) by {
            let i = choose|i: int| 0 <= i < s.len() && (#[trigger] s[i]).qual == p;
            assert((#[trigger] r[i]).qual == p);
        }
    } else {
        assert forall|i: int, j: int| 0 <= i < j < r.len() implies (#[trigger] r[i]).qual
            != (#[trigger] r[j]).qual by {
            if j < r.len() - 1 {
                assert(s[i].qual != s[j].qual);
            } else {
                assert((#[trigger] s[i]).qual == s[i].qual);
            }
        }
        assert((#[trigger] r[r.len() - 1]).qual == q);
        assert forall|p: AclQualifier| p != q && has_qual(r, p) implies has_qual(s, p) by {
            let i = choose|i: int| 0 <= i < r.len() && (#[trigger] r[i]).qual == p;
            assert((#[trigger] s[i]).qual == p);
        }
        assert forall|p: AclQualifier| p != q && has_qual(s, p) implies has_qual(r, p) by {
            let i = choose|i: int| 0 <= i < s.len() && (#[trigger] s[i]).qual == p;
            assert((#[trigger] r[i]).qual == p);
        }
    }
}

/// Removal preserves well-formedness.
pub proof fn lemma_seq_remove_wf(s: Seq<AclEntry>, q: AclQualifier)
    requires
        wf_entries(s),
    ensures
        wf_entries(seq_remove(s, q)),
        !has_qual(seq_remove(s, q), q),
        forall|p: AclQualifier| p != q ==> (has_qual(seq_remove(s, q), p) <==> has_qual(s, p)),
{
    let r = seq_remove(s, q);
    if has_qual(s, q) {
        let k = qual_index(s, q);
        assert forall|i: int, j: int| 0 <= i < j < r.len() implies (#[trigger] r[i]).qual
            != (#[trigger] r[j]).qual by {
            let i0 = if i < k { i } else { i + 1 };
            let j0 = if j < k { j } else { j + 1 };
            assert(s[i0].qual != s[j0].qual);
        }
        assert forall|i: int| 0 <= i < r.len() implies (#[trigger] r[i]).qual != q by {
            let i0 = if i < k { i } else { i + 1 };
            assert(r[i] == s[i0]);
            assert(i0 != k);
            assert(s[i0].qual != s[k].qual);
        }
        assert forall|p: AclQualifier| p != q && has_qual(r, p) implies has_qual(s, p) by {
            let i = choose|i: int| 0 <= i < r.len() && (#[trigger] r[i]).qual == p;
            let i0 = if i < k { i } else { i + 1 };
            assert((#[trigger] s[i0]).qual == p);
        }
        assert forall|p: AclQualifier| p != q && has_qual(s, p) implies has_qual(r, p) by {
            let i = choose|i: int| 0 <= i < s.len() && (#[trigger] s[i]).qual == p;
            assert(i != k);
            let i1 = if i < k { i } else { i - 1 };
            assert((#[trigger] r[i1]).qual == p);
        }
    }
}

/// Setting acts on the map view as an insert.
pub proof fn lemma_doc_map_set(s: Seq<AclEntry>, q: AclQualifier, perm: u32)
    requires
        wf_entries(s),
    ensures
        doc_map(seq_set(s, q, perm)) == doc_map(s).insert(q, perm),
{
    let r = seq_set(s, q, perm);
    lemma_seq_set_wf(s, q, perm);
    lemma_doc_map_char(s);
    lemma_doc_map_char(r);
    assert forall|p: AclQualifier| #![auto] doc_map(r).contains_key(p) implies doc_map(
        s,
    ).insert(q, perm).contains_key(p) by {}
    assert forall|p: AclQualifier| #![auto] doc_map(s).insert(q, perm).contains_key(p) implies
        doc_map(r).contains_key(p) by {}
    assert forall|p: AclQualifier| #![auto] doc_map(r).contains_key(p) implies doc_map(r)[p]
        == doc_map(s).insert(q, perm)[p] by {
        if p == q {
            if has_qual(s, q) {
                let k = qual_index(s, q);
                assert(r[k].qual == q && r[k].perm == perm);
            } else {
                assert(r[r.len() - 1].qual == q && r[r.len() - 1].perm == perm);
            }
        } else {
            let i = choose|i: int| 0 <= i < r.len() && (#[trigger] r[i]).qual == p;
            if has_qual(s, q) {
                assert(i != qual_index(s, q));
                assert(r[i] == s[i]);
            } else {
                assert(i != r.len() - 1);
                assert(r[i] == s[i]);
            }
            assert(doc_map(s)[p] == s[i].perm);
        }
    }
    assert(doc_map(r) =~= doc_map(s).insert(q, perm));
}

/// Removal acts on the map view as a remove.
pub proof fn lemma_doc_map_remove(s: Seq<AclEntry>, q: AclQualifier)
    requires
        wf_entries(s),
    ensures
        doc_map(seq_remove(s, q)) == doc_map(s).remove(q),
{
    let r = seq_remove(s, q);
    lemma_seq_remove_wf(s, q);
    lemma_doc_map_char(s);
    lemma_doc_map_char(r);
    assert forall|p: AclQualifier| #![auto] doc_map(r).contains_key(p) implies doc_map(
        s,
    ).remove(q).contains_key(p) by {}
    assert forall|p: AclQualifier| #![auto] doc_map(s).remove(q).contains_key(p) implies doc_map(
        r,
    ).contains_key(p) by {}
    assert forall|p: AclQualifier| #![auto] doc_map(r).contains_key(p) implies doc_map(r)[p]
        == doc_map(s).remove(q)[p] by {
        let i = choose|i: int| 0 <= i < r.len() && (#[trigger] r[i]).qual == p;
        if has_qual(s, q) {
            let k = qual_index(s, q);
            let i0 = if i < k { i } else { i + 1 };
            assert(r[i] == s[i0]);
            assert(doc_map(s)[p] == s[i0].perm);
        }
    }
    assert(doc_map(r) =~= doc_map(s).remove(q));
}

/// The ordered entry list of one ACL (Access or Default) of one object,
/// read fresh, rewritten in place, and written back only if changed.
#[derive(Debug)]
pub struct AclDocument {
    entries: Vec<AclEntry>,
}

impl View for AclDocument {
    type V = Seq<AclEntry>;

    closed spec fn view(&self) -> Seq<AclEntry> {
        self.entries@
    }
}

impl AclDocument {
    /// No two entries share a qualifier.
    pub open spec fn wf(&self) -> bool {
        wf_entries(self@)
    }

    /// The empty document.
    pub fn new() -> (d: AclDocument)
        ensures
            d@ == Seq::<AclEntry>::empty(),
            d.wf(),
    {
        AclDocument { entries: Vec::new() }
    }

    /// A snapshot of the entries, in order.
    pub fn entries(&self) -> (r: Vec<AclEntry>)
        ensures
            r@ == self@,
    {
        let mut out: Vec<AclEntry> = Vec::new();
        let mut i: usize = 0;
        while i < self.entries.len()
            invariant
                i <= self.entries@.len(),
                out@ == self.entries@.take(i as int),
            decreases self.entries.len() - i,
        {
            out.push(self.entries[i]);
            proof {
                assert(self.entries@.take(i + 1) =~= self.entries@.take(i as int).push(
                    self.entries@[i as int],
                ));
            }
            i += 1;
        }
        proof {
            assert(self.entries@.take(self.entries@.len() as int) =~= self.entries@);
        }
        out
    }

    /// The number of entries.
    pub fn len(&self) -> (n: usize)
        ensures
            n == self@.len(),
    {
        self.entries.len()
    }

    /// The position of the entry with qualifier `q`, if any.
    fn find_index(&self, q: AclQualifier) -> (r: Option<usize>)
        ensures
            match r {
                Some(i) => i < self@.len() && self@[i as int].qual == q,
                None => !has_qual(self@, q),
            },
    {
        let mut i: usize = 0;
        while i < self.entries.len()
            invariant
                i <= self.entries@.len(),
                forall|j: int| 0 <= j < i ==> (#[trigger] self.entries@[j]).qual != q,
            decreases self.entries.len() - i,
        {
            if self.entries[i].qual == q {
                return Some(i);
            }
            i += 1;
        }
        None
    }

    /// Sets the permission bits for qualifier `q`: updates the entry naming
    /// `q` in place, or appends a new entry when none does.
    pub fn set(&mut self, q: AclQualifier, perm: u32)
        requires
            old(self).wf(),
        ensures
            final(self).wf(),
            final(self)@ == seq_set(old(self)@, q, perm),
    {
        proof {
            lemma_seq_set_wf(self@, q, perm);
        }
        match self.find_index(q) {
            Some(i) => {
                proof {
                    let k = qual_index(self@, q);
                    assert((#[trigger] self@[i as int]).qual == q);
                    assert(self@[k].qual == q);
                    assert(k == i as int);
                }
                self.entries.set(i, AclEntry { qual: q, perm });
            },
            None => {
                self.entries.push(AclEntry { qual: q, perm });
            },
        }
    }

    /// Removes the entry naming `q`, returning its permission bits when one
    /// was there.
    pub fn remove(&mut self, q: AclQualifier) -> (r: Option<u32>)
        requires
            old(self).wf(),
        ensures
            final(self).wf(),
            final(self)@ == seq_remove(old(self)@, q),
            match r {
                Some(perm) => has_qual(old(self)@, q) && perm == old(self)@[qual_index(
                    old(self)@,
                    q,
                )].perm,
                None => !has_qual(old(self)@, q),
            },
    {
        proof {
            lemma_seq_remove_wf(self@, q);
        }
        match self.find_index(q) {
            Some(i) => {
                proof {
                    let k = qual_index(self@, q);
                    assert((#[trigger] self@[i as int]).qual == q);
                    assert(self@[k].qual == q);
                    assert(k == i as int);
                }
                let e = self.entries.remove(i);
                Some(e.perm)
            },
            None => None,
        }
    }

    /// Builds a document from a list of entries read from the platform. A
    /// repeated qualifier keeps its last entry; a list without repeats is
    /// kept exactly as given.
    pub fn from_entries(list: &Vec<AclEntry>) -> (d: AclDocument)
        ensures
            d.wf(),
            doc_map(d@) == doc_map(list@),
            wf_entries(list@) ==> d@ == list@,
    {
        let mut d = AclDocument::new();
        let mut i: usize = 0;
        while i < list.len()
            invariant
                i <= list@.len(),
                d.wf(),
                doc_map(d@) == doc_map(list@.take(i as int)),
                wf_entries(list@) ==> d@ == list@.take(i as int),
            decreases list.len() - i,
        {
            let e = list[i];
            let ghost pre = d@;
            proof {
                assert(list@.take(i + 1).drop_last() =~= list@.take(i as int));
                assert(list@.take(i + 1).last() == list@[i as int]);
                lemma_doc_map_set(d@, e.qual, e.perm);
            }
            d.set(e.qual, e.perm);
            proof {
                if wf_entries(list@) {
                    assert(!has_qual(pre, e.qual)) by {
                        if has_qual(pre, e.qual) {
                            let j = choose|j: int|
                                0 <= j < pre.len() && (#[trigger] pre[j]).qual == e.qual;
                            assert(list@[j] == pre[j]);
                            assert(list@[j].qual == list@[i as int].qual);
                            assert(false);
                        }
                    }
                    assert(d@ =~= list@.take(i + 1));
                }
            }
            i += 1;
        }
        proof {
            assert(list@.take(list@.len() as int) =~= list@);
        }
        d
    }
}

/// The qualifier of kind `ptype` naming `id`.
pub open spec fn qual_of(ptype: PermissionType, id: u32) -> AclQualifier {
    match ptype {
        PermissionType::User => AclQualifier::User(id),
        PermissionType::Group => AclQualifier::Group(id),
    }
}

/// The identity map an entry kind is checked against.
pub open spec fn map_of(ptype: PermissionType, uidmap: Map<u32, u32>, gidmap: Map<u32, u32>) -> Map<
    u32,
    u32,
> {
    match ptype {
        PermissionType::User => uidmap,
        PermissionType::Group => gidmap,
    }
}

/// Whether an entry's qualifier names a mapped id.
pub open spec fn entry_matches(e: AclEntry, uidmap: Map<u32, u32>, gidmap: Map<u32, u32>) -> bool {
    match e.qual {
        AclQualifier::User(id) => uidmap.contains_key(id),
        AclQualifier::Group(id) => gidmap.contains_key(id),
        _ => false,
    }
}

/// What processing one snapshot entry does to the live document: a matching
/// User or Group entry is re-added under the new id with the same permission
/// bits, then removed under the old id; every other entry is left untouched.
pub open spec fn rewrite_step(
    doc: Seq<AclEntry>,
    e: AclEntry,
    uidmap: Map<u32, u32>,
    gidmap: Map<u32, u32>,
) -> Seq<AclEntry> {
    match e.qual {
        AclQualifier::User(id) => if uidmap.contains_key(id) {
            seq_remove(
                seq_set(doc, AclQualifier::User(uidmap[id]), e.perm),
                AclQualifier::User(id),
            )
        } else {
            doc
        },
        AclQualifier::Group(id) => if gidmap.contains_key(id) {
            seq_remove(
                seq_set(doc, AclQualifier::Group(gidmap[id]), e.perm),
                AclQualifier::Group(id),
            )
        } else {
            doc
        },
        _ => doc,
    }
}

/// The document after the first `k` entries of its snapshot have been
/// processed.
pub open spec fn rewrite_prefix(
    orig: Seq<AclEntry>,
    k: int,
    uidmap: Map<u32, u32>,
    gidmap: Map<u32, u32>,
) -> Seq<AclEntry>
    decreases k,
{
    if k <= 0 {
        orig
    } else {
        rewrite_step(rewrite_prefix(orig, k - 1, uidmap, gidmap), orig[k - 1], uidmap, gidmap)
    }
}

/// The document after a full rewrite pass over its own snapshot.
pub open spec fn rewrite_doc(
    orig: Seq<AclEntry>,
    uidmap: Map<u32, u32>,
    gidmap: Map<u32, u32>,
) -> Seq<AclEntry> {
    rewrite_prefix(orig, orig.len() as int, uidmap, gidmap)
}

/// Some entry of `s` names a mapped id.
pub open spec fn any_match(s: Seq<AclEntry>, uidmap: Map<u32, u32>, gidmap: Map<u32, u32>) -> bool {
    exists|i: int| 0 <= i < s.len() && entry_matches(#[trigger] s[i], uidmap, gidmap)
}

/// Whether a one-entry-longer prefix has a match.
proof fn lemma_any_match_take_step(
    s: Seq<AclEntry>,
    i: int,
    uidmap: Map<u32, u32>,
    gidmap: Map<u32, u32>,
)
    requires
        0 <= i < s.len(),
    ensures
        any_match(s.take(i + 1), uidmap, gidmap) == (any_match(s.take(i), uidmap, gidmap)
            || entry_matches(s[i], uidmap, gidmap)),
{
    let a = s.take(i);
    let b = s.take(i + 1);
    if any_match(b, uidmap, gidmap) {
        let j = choose|j: int| 0 <= j < b.len() && entry_matches(#[trigger] b[j], uidmap, gidmap);
        if j < i {
            assert(entry_matches(a[j], uidmap, gidmap));
        } else {
            assert(b[j] == s[i]);
        }
    }
    if any_match(a, uidmap, gidmap) {
        let j = choose|j: int| 0 <= j < a.len() && entry_matches(#[trigger] a[j], uidmap, gidmap);
        assert(entry_matches(b[j], uidmap, gidmap));
    }
    if entry_matches(s[i], uidmap, gidmap) {
        assert(entry_matches(b[i], uidmap, gidmap));
    }
}

/// Rewrites one snapshot entry of the live ACL document if its qualifier
/// names a mapped id: the new id is added with the entry's permission bits,
/// then the old id is removed. In noop mode, or when nothing matches, the
/// document is left untouched and the call reports no change.
pub fn set_acl_permission(
    ctx: &Ctx,
    acl: &mut AclDocument,
    current_id: u32,
    entry: AclEntry,
    ptype: PermissionType,
) -> (changed: bool)
    requires
        old(acl).wf(),
    ensures
        final(acl).wf(),
        ({
            let m = map_of(ptype, ctx.uidmap@, ctx.gidmap@);
            if m.contains_key(current_id) && !ctx.noop {
                &&& final(acl)@ == seq_remove(
                    seq_set(old(acl)@, qual_of(ptype, m[current_id]), entry.perm),
                    qual_of(ptype, current_id),
                )
                &&& changed
            } else {
                final(acl)@ == old(acl)@ && !changed
            }
        }),
{
    let new_id = match ptype {
        PermissionType::User => ctx.uidmap.get(&current_id),
        PermissionType::Group => ctx.gidmap.get(&current_id),
    };
    match new_id {
        Some(new_id) => {
            if ctx.noop {
                return false;
            }
            let nid = *new_id;
            match ptype {
                PermissionType::User => {
                    acl.set(AclQualifier::User(nid), entry.perm);
                    acl.remove(AclQualifier::User(current_id));
                },
                PermissionType::Group => {
                    acl.set(AclQualifier::Group(nid), entry.perm);
                    acl.remove(AclQualifier::Group(current_id));
                },
            }
            true
        },
        None => false,
    }
}

/// One rewrite pass over an ACL document: every entry of the snapshot whose
/// User or Group qualifier names a mapped id is re-keyed to the new id with
/// its permission bits kept. Returns whether anything was changed, so the
/// caller knows whether a write-back is due. In noop mode nothing is changed
/// and no change is reported.
pub fn rewrite_acl(ctx: &Ctx, acl: &mut AclDocument) -> (changed: bool)
    requires
        old(acl).wf(),
    ensures
        final(acl).wf(),
        ctx.noop ==> final(acl)@ == old(acl)@ && !changed,
        !ctx.noop ==> final(acl)@ == rewrite_doc(old(acl)@, ctx.uidmap@, ctx.gidmap@) && changed
            == any_match(old(acl)@, ctx.uidmap@, ctx.gidmap@),
{
    let ghost orig = acl@;
    let ghost um = ctx.uidmap@;
    let ghost gm = ctx.gidmap@;
    let snapshot = acl.entries();
    let mut changed = false;
    let mut i: usize = 0;
    while i < snapshot.len()
        invariant
            i <= snapshot@.len(),
            snapshot@ == orig,
            um == ctx.uidmap@,
            gm == ctx.gidmap@,
            acl.wf(),
            ctx.noop ==> acl@ == orig && !changed,
            !ctx.noop ==> acl@ == rewrite_prefix(orig, i as int, um, gm) && changed == any_match(
                orig.take(i as int),
                um,
                gm,
            ),
        decreases snapshot.len() - i,
    {
        let e = snapshot[i];
        let hit = match e.qual {
            AclQualifier::User(current_uid) => set_acl_permission(
                ctx,
                acl,
                current_uid,
                e,
                PermissionType::User,
            ),
            AclQualifier::Group(current_gid) => set_acl_permission(
                ctx,
                acl,
                current_gid,
                e,
                PermissionType::Group,
            ),
            _ => false,
        };
        if hit {
            changed = true;
        }
        proof {
            lemma_any_match_take_step(orig, i as int, um, gm);
        }
        i += 1;
    }
    proof {
        assert(orig.take(orig.len() as int) =~= orig);
    }
    changed
}

/// A validated identity map, as the pre-flight checks guarantee: no id maps
/// to itself, no two old ids share a new id, and no new id is itself an old
/// id.
pub open spec fn mapping_ok(m: Map<u32, u32>) -> bool {
    &&& forall|k: u32| #[trigger] m.contains_key(k) ==> !m.contains_key(m[k]) && m[k] != k
    &&& forall|k1: u32, k2: u32|
        #![trigger m[k1], m[k2]]
        m.contains_key(k1) && m.contains_key(k2) && k1 != k2 ==> m[k1] != m[k2]
}

/// Whether a qualifier names a mapped id.
pub open spec fn matching_qual(q: AclQualifier, um: Map<u32, u32>, gm: Map<u32, u32>) -> bool {
    match q {
        AclQualifier::User(id) => um.contains_key(id),
        AclQualifier::Group(id) => gm.contains_key(id),
        _ => false,
    }
}

/// In a well-formed list, the entry found for a qualifier is the one at any
/// position showing that qualifier.
proof fn lemma_qual_index_unique(s: Seq<AclEntry>, i: int)
    requires
        wf_entries(s),
        0 <= i < s.len(),
    ensures
        has_qual(s, s[i].qual),
        qual_index(s, s[i].qual) == i,
{
    let q = s[i].qual;
    assert((#[trigger] s[i]).qual == q);
    let j = qual_index(s, q);
    assert(0 <= j < s.len() && s[j].qual == q);
    if i != j {
        assert(s[i].qual != s[j].qual);
    }
}

/// A present qualifier is found at a valid position.
proof fn lemma_has_qual_index(s: Seq<AclEntry>, q: AclQualifier)
    requires
        has_qual(s, q),
    ensures
        0 <= qual_index(s, q) < s.len(),
        s[qual_index(s, q)].qual == q,
{
}

/// How a partial rewrite pass relates to the original document, for
/// validated maps: a qualifier naming a mapped id is still present exactly
/// when its entry has not been processed yet, and once the entry at some
/// position has been processed, the new id carries that entry's permission
/// bits.
proof fn lemma_rewrite_prefix_char(orig: Seq<AclEntry>, k: int, um: Map<u32, u32>, gm: Map<
    u32,
    u32,
>)
    requires
        wf_entries(orig),
        mapping_ok(um),
        mapping_ok(gm),
        0 <= k <= orig.len(),
    ensures
        wf_entries(rewrite_prefix(orig, k, um, gm)),
        forall|q: AclQualifier| #[trigger]
            matching_qual(q, um, gm) ==> (doc_map(rewrite_prefix(orig, k, um, gm)).contains_key(q)
                <==> (has_qual(orig, q) && qual_index(orig, q) >= k)),
        forall|id: u32|
            #![trigger um.contains_key(id)]
            um.contains_key(id) && has_qual(orig, AclQualifier::User(id)) && qual_index(
                orig,
                AclQualifier::User(id),
            ) < k ==> {
                let mk = doc_map(rewrite_prefix(orig, k, um, gm));
                &&& mk.contains_key(AclQualifier::User(um[id]))
                &&& mk[AclQualifier::User(um[id])] == doc_map(orig)[AclQualifier::User(id)]
            },
        forall|id: u32|
            #![trigger gm.contains_key(id)]
            gm.contains_key(id) && has_qual(orig, AclQualifier::Group(id)) && qual_index(
                orig,
                AclQualifier::Group(id),
            ) < k ==> {
                let mk = doc_map(rewrite_prefix(orig, k, um, gm));
                &&& mk.contains_key(AclQualifier::Group(gm[id]))
                &&& mk[AclQualifier::Group(gm[id])] == doc_map(orig)[AclQualifier::Group(id)]
            },
    decreases k,
{
    lemma_doc_map_char(orig);
    if k == 0 {
        assert forall|q: AclQualifier| #[trigger]
            matching_qual(q, um, gm) implies (doc_map(orig).contains_key(q) <==> (has_qual(orig, q)
            && qual_index(orig, q) >= 0)) by {
            if has_qual(orig, q) {
                lemma_has_qual_index(orig, q);
            }
        }
    } else {
        lemma_rewrite_prefix_char(orig, k - 1, um, gm);
        let r0 = rewrite_prefix(orig, k - 1, um, gm);
        let rk = rewrite_prefix(orig, k, um, gm);
        let e = orig[k - 1];
        lemma_qual_index_unique(orig, k - 1);
        if entry_matches(e, um, gm) {
            let ghost (q_old, q_new, my_map) = match e.qual {
                AclQualifier::User(id) => (
                    AclQualifier::User(id),
                    AclQualifier::User(um[id]),
                    um,
                ),
                AclQualifier::Group(id) => (
                    AclQualifier::Group(id),
                    AclQualifier::Group(gm[id]),
                    gm,
                ),
                _ => (AclQualifier::Mask, AclQualifier::Mask, um),
            };
            assert(rk == seq_remove(seq_set(r0, q_new, e.perm), q_old));
            lemma_seq_set_wf(r0, q_new, e.perm);
            lemma_doc_map_set(r0, q_new, e.perm);
            lemma_seq_remove_wf(seq_set(r0, q_new, e.perm), q_old);
            lemma_doc_map_remove(seq_set(r0, q_new, e.perm), q_old);
            assert(doc_map(rk) == doc_map(r0).insert(q_new, e.perm).remove(q_old));
            // the new qualifier is not itself a mapped id, and differs from
            // the removed one
            assert(!matching_qual(q_new, um, gm));
            assert(q_new != q_old);
            assert(matching_qual(q_old, um, gm));
            assert forall|q: AclQualifier| #[trigger]
                matching_qual(q, um, gm) implies (doc_map(rk).contains_key(q) <==> (has_qual(
                orig,
                q,
            ) && qual_index(orig, q) >= k)) by {
                if q == q_old {
                    assert(!doc_map(rk).contains_key(q));
                    assert(qual_index(orig, q) == k - 1);
                } else {
                    assert(q != q_new);
                    assert(doc_map(rk).contains_key(q) == doc_map(r0).contains_key(q));
                    if has_qual(orig, q) && qual_index(orig, q) == k - 1 {
                        lemma_has_qual_index(orig, q);
                        assert(q == e.qual);
                        assert(false);
                    }
                }
            }
            assert forall|id: u32|
                um.contains_key(id) && has_qual(orig, AclQualifier::User(id)) && qual_index(
                    orig,
                    AclQualifier::User(id),
                ) < k implies {
                let mk = doc_map(rk);
                &&& mk.contains_key(AclQualifier::User(um[id]))
                &&& mk[AclQualifier::User(um[id])] == doc_map(orig)[AclQualifier::User(id)]
            } by {
                let qt = AclQualifier::User(um[id]);
                lemma_has_qual_index(orig, AclQualifier::User(id));
                if qual_index(orig, AclQualifier::User(id)) == k - 1 {
                    assert(e.qual == AclQualifier::User(id));
                    assert(q_new == qt);
                    assert(doc_map(orig)[AclQualifier::User(id)] == e.perm);
                    assert(qt != q_old);
                } else {
                    // processed earlier: carried through this step
                    assert(qual_index(orig, AclQualifier::User(id)) < k - 1);
                    assert(qt != q_new) by {
                        match e.qual {
                            AclQualifier::User(eid) => {
                                if um[id] == um[eid] {
                                    if id != eid {
                                        assert(false);
                                    } else {
                                        lemma_qual_index_unique(orig, k - 1);
                                        assert(false);
                                    }
                                }
                            },
                            _ => {},
                        }
                    }
                    assert(qt != q_old) by {
                        match e.qual {
                            AclQualifier::User(eid) => {
                                assert(!um.contains_key(um[id]));
                            },
                            _ => {},
                        }
                    }
                }
            }
            assert forall|id: u32|
                gm.contains_key(id) && has_qual(orig, AclQualifier::Group(id)) && qual_index(
                    orig,
                    AclQualifier::Group(id),
                ) < k implies {
                let mk = doc_map(rk);
                &&& mk.contains_key(AclQualifier::Group(gm[id]))
                &&& mk[AclQualifier::Group(gm[id])] == doc_map(orig)[AclQualifier::Group(id)]
            } by {
                let qt = AclQualifier::Group(gm[id]);
                lemma_has_qual_index(orig, AclQualifier::Group(id));
                if qual_index(orig, AclQualifier::Group(id)) == k - 1 {
                    assert(e.qual == AclQualifier::Group(id));
                    assert(q_new == qt);
                    assert(doc_map(orig)[AclQualifier::Group(id)] == e.perm);
                    assert(qt != q_old);
                } else {
                    assert(qual_index(orig, AclQualifier::Group(id)) < k - 1);
                    assert(qt != q_new) by {
                        match e.qual {
                            AclQualifier::Group(eid) => {
                                if gm[id] == gm[eid] {
                                    if id != eid {
                                        assert(false);
                                    } else {
                                        lemma_qual_index_unique(orig, k - 1);
                                        assert(false);
                                    }
                                }
                            },
                            _ => {},
                        }
                    }
                    assert(qt != q_old) by {
                        match e.qual {
                            AclQualifier::Group(eid) => {
                                assert(!gm.contains_key(gm[id]));
                            },
                            _ => {},
                        }
                    }
                }
            }
        } else {
            assert(rk == r0);
            assert forall|q: AclQualifier| #[trigger]
                matching_qual(q, um, gm) implies (doc_map(rk).contains_key(q) <==> (has_qual(
                orig,
                q,
            ) && qual_index(orig, q) >= k)) by {
                if has_qual(orig, q) && qual_index(orig, q) == k - 1 {
                    lemma_has_qual_index(orig, q);
                    assert(q == e.qual);
                    assert(false);
                }
            }
            assert forall|id: u32|
                um.contains_key(id) && has_qual(orig, AclQualifier::User(id)) && qual_index(
                    orig,
                    AclQualifier::User(id),
                ) < k implies {
                let mk = doc_map(rk);
                &&& mk.contains_key(AclQualifier::User(um[id]))
                &&& mk[AclQualifier::User(um[id])] == doc_map(orig)[AclQualifier::User(id)]
            } by {
                lemma_has_qual_index(orig, AclQualifier::User(id));
                if qual_index(orig, AclQualifier::User(id)) == k - 1 {
                    assert(e.qual == AclQualifier::User(id));
                    assert(entry_matches(e, um, gm));
                    assert(false);
                }
            }
            assert forall|id: u32|
                gm.contains_key(id) && has_qual(orig, AclQualifier::Group(id)) && qual_index(
                    orig,
                    AclQualifier::Group(id),
                ) < k implies {
                let mk = doc_map(rk);
                &&& mk.contains_key(AclQualifier::Group(gm[id]))
                &&& mk[AclQualifier::Group(gm[id])] == doc_map(orig)[AclQualifier::Group(id)]
            } by {
                lemma_has_qual_index(orig, AclQualifier::Group(id));
                if qual_index(orig, AclQualifier::Group(id)) == k - 1 {
                    assert(e.qual == AclQualifier::Group(id));
                    assert(entry_matches(e, um, gm));
                    assert(false);
                }
            }
        }
    }
}

/// A document without matching entries is left exactly as it is by a rewrite
/// pass.
proof fn lemma_rewrite_no_match_identity(s: Seq<AclEntry>, k: int, um: Map<u32, u32>, gm: Map<
    u32,
    u32,
>)
    requires
        0 <= k <= s.len(),
        !any_match(s, um, gm),
    ensures
        rewrite_prefix(s, k, um, gm) == s,
    decreases k,
{
    if k > 0 {
        lemma_rewrite_no_match_identity(s, k - 1, um, gm);
        assert(!entry_matches(s[k - 1], um, gm));
    }
}

/// Law: one full rewrite pass with validated maps leaves no entry naming a
/// mapped id, so a second pass over the result changes nothing. Running the
/// walk twice therefore leaves every ACL as the first run left it.
pub proof fn lemma_rewrite_idempotent(orig: Seq<AclEntry>, um: Map<u32, u32>, gm: Map<u32, u32>)
    requires
        wf_entries(orig),
        mapping_ok(um),
        mapping_ok(gm),
    ensures
        !any_match(rewrite_doc(orig, um, gm), um, gm),
        rewrite_doc(rewrite_doc(orig, um, gm), um, gm) == rewrite_doc(orig, um, gm),
{
    let r = rewrite_doc(orig, um, gm);
    lemma_rewrite_prefix_char(orig, orig.len() as int, um, gm);
    lemma_doc_map_char(r);
    assert(!any_match(r, um, gm)) by {
        if any_match(r, um, gm) {
            let i = choose|i: int|
                0 <= i < r.len() && entry_matches(#[trigger] r[i], um, gm);
            let q = r[i].qual;
            assert(matching_qual(q, um, gm));
            assert(has_qual(r, q)) by {
                assert((#[trigger] r[i]).qual == q);
            }
            assert(doc_map(r).contains_key(q));
            assert(qual_index(orig, q) >= orig.len());
            lemma_has_qual_index(orig, q);
            assert(false);
        }
    }
    lemma_rewrite_no_match_identity(r, r.len() as int, um, gm);
}

/// Law: the rewrite preserves permission bits. For an entry whose qualifier
/// names a mapped id with permission bits `p`, the rewritten document holds
/// the new id with exactly `p`, and no longer holds the old id. `ptype`
/// selects the axis: a User entry against the uid map or a Group entry
/// against the gid map.
pub proof fn lemma_rewrite_preserves_perm(
    orig: Seq<AclEntry>,
    um: Map<u32, u32>,
    gm: Map<u32, u32>,
    ptype: PermissionType,
    id: u32,
)
    requires
        wf_entries(orig),
        mapping_ok(um),
        mapping_ok(gm),
        map_of(ptype, um, gm).contains_key(id),
        has_qual(orig, qual_of(ptype, id)),
    ensures
        ({
            let r = rewrite_doc(orig, um, gm);
            let new_id = map_of(ptype, um, gm)[id];
            &&& !has_qual(r, qual_of(ptype, id))
            &&& has_qual(r, qual_of(ptype, new_id))
            &&& doc_map(r)[qual_of(ptype, new_id)] == doc_map(orig)[qual_of(ptype, id)]
        }),
{
    let r = rewrite_doc(orig, um, gm);
    let q = qual_of(ptype, id);
    let new_id = map_of(ptype, um, gm)[id];
    let qt = qual_of(ptype, new_id);
    lemma_rewrite_prefix_char(orig, orig.len() as int, um, gm);
    lemma_doc_map_char(r);
    lemma_has_qual_index(orig, q);
    assert(matching_qual(q, um, gm));
    assert(qual_index(orig, q) < orig.len());
    assert(doc_map(r).contains_key(qt) && doc_map(r)[qt] == doc_map(orig)[q]);
    assert(!doc_map(r).contains_key(q));
}

} // verus!
