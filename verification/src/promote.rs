//! Promotion: turning what a scan saw, and what it could not read, into the new
//! baseline and the changes that lead to it.
//!
//! Absence proves deletion only where the path could have been read. A path
//! below one that could not be read is held as `unreadable`: it gets no change
//! row, and keeps the facts last known about it.

use vstd::prelude::*;

use crate::paths::{lemma_ascending_distinct, PathTable};
use crate::rows::{
    copy_bytes, error_views, same_bytes, same_optional_text, Change, ChangeKind, ChangeView,
    ErrorRow, ErrorView, Facts, FactsView, FileRow, FileView, FingerprintView, Presence,
    StageEntry, F_ADDED, F_HASH, F_MIME, F_MTIME, F_PRESENCE, F_SIZE,
};
use crate::walk::{is_unreadable_code, unreadable_code};

verus! {

/// `path` is `top`, or lies below it. Whole segments are compared: a name that
/// merely begins with the same bytes is not below.
pub open spec fn at_or_below(path: Seq<u8>, top: Seq<u8>) -> bool {
    path == top || (path.len() > top.len() && path.take(top.len() as int) == top
        && path[top.len() as int] == 0x2f)
}

/// This problem leaves the contents at and below its path unknown. The base is
/// not covered here: a problem on the base stops promotion altogether.
pub open spec fn hides(e: ErrorView, path: Seq<u8>) -> bool {
    &&& unreadable_code(e.code)
    &&& e.rel matches Some(top) && top.len() > 0 && at_or_below(path, top)
}

/// Some problem of the scan leaves `path` unknown.
pub open spec fn shielded_by(errors: Seq<ErrorView>, path: Seq<u8>) -> bool {
    exists|i: int| 0 <= i < errors.len() && hides(#[trigger] errors[i], path)
}

/// The fields in which two observations differ, as bits.
pub open spec fn difference(old: FingerprintView, new: FingerprintView) -> i64 {
    ((if old.size_bytes != new.size_bytes {
        F_SIZE as int
    } else {
        0
    }) + (if old.mtime_ns != new.mtime_ns {
        F_MTIME as int
    } else {
        0
    }) + (if old.mime_type != new.mime_type {
        F_MIME as int
    } else {
        0
    }) + (if old.content_hash != new.content_hash {
        F_HASH as int
    } else {
        0
    })) as i64
}

/// The baseline row of a file just seen.
pub open spec fn present_row(facts: FactsView, scan_id: i64) -> FileView {
    FileView {
        facts,
        presence: Presence::Present,
        metadata_from_scan_id: scan_id,
        deleted_in_scan_id: None,
    }
}

/// The change recorded for a path that was seen. Coming back from `unreadable`
/// is not itself a change.
pub open spec fn seen_change(
    path: Seq<u8>,
    prior: Option<FileView>,
    facts: FactsView,
) -> Option<ChangeView> {
    let new = facts.fingerprint();
    match prior {
        None => Some(
            ChangeView {
                path,
                kind: ChangeKind::Added,
                field_mask: F_ADDED,
                old: None,
                new: Some(new),
            },
        ),
        Some(f) => {
            let old = f.facts.fingerprint();
            if f.presence == Presence::Deleted {
                Some(
                    ChangeView {
                        path,
                        kind: ChangeKind::Added,
                        field_mask: F_ADDED,
                        old: Some(old),
                        new: Some(new),
                    },
                )
            } else if old != new {
                Some(
                    ChangeView {
                        path,
                        kind: ChangeKind::Updated,
                        field_mask: difference(old, new),
                        old: Some(old),
                        new: Some(new),
                    },
                )
            } else {
                None
            }
        },
    }
}

/// The row written for a path that was seen; none when the baseline already
/// says the same, so that an unchanged path keeps the scan that supplied it.
pub open spec fn seen_write(
    prior: Option<FileView>,
    facts: FactsView,
    scan_id: i64,
) -> Option<FileView> {
    match prior {
        Some(f) => if f.presence == Presence::Present && f.facts.fingerprint()
            == facts.fingerprint() {
            None
        } else {
            Some(present_row(facts, scan_id))
        },
        None => Some(present_row(facts, scan_id)),
    }
}

/// The change recorded for a path that was not seen.
pub open spec fn unseen_change(path: Seq<u8>, f: FileView, shielded: bool) -> Option<ChangeView> {
    if f.presence == Presence::Deleted || shielded {
        None
    } else {
        Some(
            ChangeView {
                path,
                kind: ChangeKind::Deleted,
                field_mask: F_PRESENCE,
                old: Some(f.facts.fingerprint()),
                new: None,
            },
        )
    }
}

/// The row written for a path that was not seen.
pub open spec fn unseen_write(f: FileView, shielded: bool, scan_id: i64) -> Option<FileView> {
    if f.presence == Presence::Deleted {
        None
    } else if shielded {
        Some(FileView { presence: Presence::Unreadable, ..f })
    } else {
        Some(
            FileView {
                presence: Presence::Deleted,
                deleted_in_scan_id: Some(scan_id),
                ..f
            },
        )
    }
}

/// Everything promotion decides from: the baseline, what the scan saw, and the
/// problems it met.
pub struct Evidence {
    pub prior: Map<Seq<u8>, FileView>,
    pub seen: Map<Seq<u8>, FactsView>,
    pub errors: Seq<ErrorView>,
    pub scan_id: i64,
}

/// A row to be written at a path.
pub struct WriteView {
    pub path: Seq<u8>,
    pub row: FileView,
}

impl Evidence {
    pub open spec fn prior_at(self, p: Seq<u8>) -> Option<FileView> {
        if self.prior.contains_key(p) {
            Some(self.prior[p])
        } else {
            None
        }
    }

    /// The change recorded at `p`, if any.
    pub open spec fn change(self, p: Seq<u8>) -> Option<ChangeView> {
        if self.seen.contains_key(p) {
            seen_change(p, self.prior_at(p), self.seen[p])
        } else if self.prior.contains_key(p) {
            unseen_change(p, self.prior[p], shielded_by(self.errors, p))
        } else {
            None
        }
    }

    /// The row written at `p`, if any.
    pub open spec fn write(self, p: Seq<u8>) -> Option<FileView> {
        if self.seen.contains_key(p) {
            seen_write(self.prior_at(p), self.seen[p], self.scan_id)
        } else if self.prior.contains_key(p) {
            unseen_write(self.prior[p], shielded_by(self.errors, p), self.scan_id)
        } else {
            None
        }
    }

    /// The baseline after promotion.
    pub open spec fn after(self) -> Map<Seq<u8>, FileView> {
        Map::new(
            |p: Seq<u8>| self.prior.contains_key(p) || self.seen.contains_key(p),
            |p: Seq<u8>|
                match self.write(p) {
                    Some(row) => row,
                    None => self.prior[p],
                },
        )
    }

    /// `p` was not seen and is held as unreadable.
    pub open spec fn held(self, p: Seq<u8>) -> bool {
        &&& self.prior.contains_key(p)
        &&& !self.seen.contains_key(p)
        &&& self.prior[p].presence != Presence::Deleted
        &&& shielded_by(self.errors, p)
    }

    /// The change at a path, where it is of this kind.
    pub open spec fn change_of(self, kind: ChangeKind) -> spec_fn(Seq<u8>) -> Option<ChangeView> {
        |p: Seq<u8>|
            match self.change(p) {
                Some(c) => if c.kind == kind {
                    Some(c)
                } else {
                    None
                },
                None => None,
            }
    }

    /// The row written at a path that was seen.
    pub open spec fn write_seen(self) -> spec_fn(Seq<u8>) -> Option<WriteView> {
        |p: Seq<u8>|
            match self.write(p) {
                Some(row) => if self.seen.contains_key(p) {
                    Some(WriteView { path: p, row })
                } else {
                    None
                },
                None => None,
            }
    }

    /// The row written at a path that was not seen.
    pub open spec fn write_unseen(self) -> spec_fn(Seq<u8>) -> Option<WriteView> {
        |p: Seq<u8>|
            match self.write(p) {
                Some(row) => if self.seen.contains_key(p) {
                    None
                } else {
                    Some(WriteView { path: p, row })
                },
                None => None,
            }
    }
}

/// A baseline with rows written over it.
pub open spec fn overlay(
    prior: Map<Seq<u8>, FileView>,
    writes: Seq<WriteView>,
) -> Map<Seq<u8>, FileView>
    decreases writes.len(),
{
    if writes.len() == 0 {
        prior
    } else {
        overlay(prior, writes.drop_last()).insert(writes.last().path, writes.last().row)
    }
}

/// The paths that a baseline holds as present.
pub open spec fn present_paths(files: Map<Seq<u8>, FileView>) -> Set<Seq<u8>> {
    Set::new(|p: Seq<u8>| files.contains_key(p) && files[p].presence == Presence::Present)
}

/// The rows of a baseline table.
pub open spec fn baseline(files: Map<Seq<u8>, FileRow>) -> Map<Seq<u8>, FileView> {
    files.map_values(|f: FileRow| f@)
}

/// What the complete entries of a staging table say.
pub open spec fn sighted(staged: Map<Seq<u8>, StageEntry>) -> Map<Seq<u8>, FactsView> {
    Map::new(
        |p: Seq<u8>| staged.contains_key(p) && staged[p].complete,
        |p: Seq<u8>| staged[p].facts@,
    )
}

pub open spec fn evidence(
    files: Map<Seq<u8>, FileRow>,
    staged: Map<Seq<u8>, StageEntry>,
    errors: Seq<ErrorRow>,
    scan_id: i64,
) -> Evidence {
    Evidence {
        prior: baseline(files),
        seen: sighted(staged),
        errors: error_views(errors),
        scan_id,
    }
}

/// A row to be written at a path.
#[derive(Debug)]
pub struct FileWrite {
    pub path: Vec<u8>,
    pub row: FileRow,
}

impl View for FileWrite {
    type V = WriteView;

    open spec fn view(&self) -> WriteView {
        WriteView { path: self.path@, row: self.row@ }
    }
}

pub open spec fn change_views(changes: Seq<Change>) -> Seq<ChangeView> {
    changes.map_values(|c: Change| c@)
}

pub open spec fn write_views(writes: Seq<FileWrite>) -> Seq<WriteView> {
    writes.map_values(|w: FileWrite| w@)
}

/// What promotion does to the catalogue, and the counts it reports.
#[derive(Debug)]
pub struct Promotion {
    pub added: Vec<Change>,
    pub updated: Vec<Change>,
    pub deleted: Vec<Change>,
    pub writes: Vec<FileWrite>,
    /// Rows held as unreadable.
    pub unreadable: usize,
    /// Rows present once the writes are made.
    pub present: usize,
    /// Paths seen that gave no change row.
    pub unchanged: usize,
}

impl Evidence {
    /// `r` is what follows from this evidence: the changes and the writes for the
    /// paths that were seen stand in the order of `staged`, the others in the
    /// order of `prior`.
    pub open spec fn decided(self, staged: Seq<Seq<u8>>, prior: Seq<Seq<u8>>, r: Promotion) -> bool {
        &&& change_views(r.added@) == staged.filter_map(self.change_of(ChangeKind::Added))
        &&& change_views(r.updated@) == staged.filter_map(self.change_of(ChangeKind::Updated))
        &&& change_views(r.deleted@) == prior.filter_map(self.change_of(ChangeKind::Deleted))
        &&& write_views(r.writes@) == staged.filter_map(self.write_seen()) + prior.filter_map(
            self.write_unseen(),
        )
        &&& overlay(self.prior, write_views(r.writes@)) == self.after()
        &&& r.unreadable == prior.filter(|p: Seq<u8>| self.held(p)).len()
        &&& self.seen.dom().finite()
        &&& r.present == present_paths(self.after()).len()
        &&& r.added@.len() + r.updated@.len() + r.unchanged == self.seen.dom().len()
    }
}

/// Whether `path` is unknown because of some problem of the scan.
pub fn shielded(path: &[u8], errors: &Vec<ErrorRow>) -> (r: bool)
    ensures
        r == shielded_by(error_views(errors@), path@),
{
    let mut i: usize = 0;
    while i < errors.len()
        invariant
            i <= errors@.len(),
            forall|k: int| 0 <= k < i ==> !hides(#[trigger] error_views(errors@)[k], path@),
        decreases errors.len() - i,
    {
        let e = &errors[i];
        assert(error_views(errors@)[i as int] == e@);
        if is_unreadable_code(e.code.as_str()) {
            if let Some(top) = &e.rel {
                if top.len() > 0 && is_at_or_below(path, top.as_slice()) {
                    assert(hides(error_views(errors@)[i as int], path@));
                    return true;
                }
            }
        }
        i = i + 1;
    }
    false
}

fn is_at_or_below(path: &[u8], top: &[u8]) -> (r: bool)
    ensures
        r == at_or_below(path@, top@),
{
    if path.len() < top.len() {
        return false;
    }
    let mut i: usize = 0;
    while i < top.len()
        invariant
            i <= top@.len() <= path@.len(),
            forall|k: int| 0 <= k < i ==> path@[k] == top@[k],
        decreases top.len() - i,
    {
        if path[i] != top[i] {
            assert(path@.take(top@.len() as int)[i as int] != top@[i as int]);
            return false;
        }
        i = i + 1;
    }
    assert(path@.take(top@.len() as int) =~= top@);
    if path.len() == top.len() {
        assert(path@ =~= top@);
        return true;
    }
    path[top.len()] == 0x2f
}

fn field_mask(old: &Facts, new: &Facts) -> (mask: i64)
    ensures
        mask == difference(old@.fingerprint(), new@.fingerprint()),
        mask == 0 <==> old@.fingerprint() == new@.fingerprint(),
{
    let mut mask: i64 = 0;
    if old.size_bytes != new.size_bytes {
        mask = mask + F_SIZE;
    }
    if old.mtime_ns != new.mtime_ns {
        mask = mask + F_MTIME;
    }
    if !same_optional_text(&old.mime_type, &new.mime_type) {
        mask = mask + F_MIME;
    }
    if !same_bytes(old.content_hash.as_slice(), new.content_hash.as_slice()) {
        mask = mask + F_HASH;
    }
    mask
}

fn settle_seen(path: &[u8], prior: Option<&FileRow>, facts: &Facts, scan_id: i64) -> (r: (
    Option<Change>,
    Option<FileRow>,
))
    ensures
        ({
            let p = match prior {
                Some(f) => Some(f@),
                None => None,
            };
            &&& seen_change(path@, p, facts@) == (match r.0 {
                Some(c) => Some(c@),
                None => None,
            })
            &&& seen_write(p, facts@, scan_id) == (match r.1 {
                Some(w) => Some(w@),
                None => None,
            })
        }),
{
    let row = FileRow {
        facts: facts.copy(),
        presence: Presence::Present,
        metadata_from_scan_id: scan_id,
        deleted_in_scan_id: None,
    };
    match prior {
        None => (
            Some(
                Change {
                    path: copy_bytes(path),
                    kind: ChangeKind::Added,
                    field_mask: F_ADDED,
                    old: None,
                    new: Some(facts.fingerprint()),
                },
            ),
            Some(row),
        ),
        Some(f) => {
            if f.presence == Presence::Deleted {
                return (
                    Some(
                        Change {
                            path: copy_bytes(path),
                            kind: ChangeKind::Added,
                            field_mask: F_ADDED,
                            old: Some(f.facts.fingerprint()),
                            new: Some(facts.fingerprint()),
                        },
                    ),
                    Some(row),
                );
            }
            let mask: i64 = field_mask(&f.facts, facts);
            if mask != 0 {
                (
                    Some(
                        Change {
                            path: copy_bytes(path),
                            kind: ChangeKind::Updated,
                            field_mask: mask,
                            old: Some(f.facts.fingerprint()),
                            new: Some(facts.fingerprint()),
                        },
                    ),
                    Some(row),
                )
            } else if f.presence == Presence::Unreadable {
                (None, Some(row))
            } else {
                (None, None)
            }
        },
    }
}

proof fn lemma_seen(staged: Map<Seq<u8>, StageEntry>, p: Seq<u8>)
    ensures
        sighted(staged).contains_key(p) <==> (staged.contains_key(p) && staged[p].complete),
        sighted(staged).contains_key(p) ==> sighted(staged)[p] == staged[p].facts@,
{
}

/// The paths that were seen: their changes, and the rows they need.
fn promote_seen(
    files: &PathTable<FileRow>,
    staged: &PathTable<StageEntry>,
    errors: Ghost<Seq<ErrorRow>>,
    scan_id: i64,
) -> (r: (Vec<Change>, Vec<Change>, Vec<FileWrite>, usize))
    ensures
        ({
            let e = evidence(files@, staged@, errors@, scan_id);
            &&& change_views(r.0@) == staged.paths().filter_map(e.change_of(ChangeKind::Added))
            &&& change_views(r.1@) == staged.paths().filter_map(e.change_of(ChangeKind::Updated))
            &&& write_views(r.2@) == staged.paths().filter_map(e.write_seen())
            &&& r.3 == staged.paths().filter(|p: Seq<u8>| e.seen.contains_key(p)).len()
            &&& r.0@.len() + r.1@.len() <= r.3
        }),
{
    let n: usize = staged.len();
    let ghost e = evidence(files@, staged@, errors@, scan_id);
    let ghost paths = staged.paths();
    let ghost live = |p: Seq<u8>| e.seen.contains_key(p);
    let ghost is_added = e.change_of(ChangeKind::Added);
    let ghost is_updated = e.change_of(ChangeKind::Updated);
    let ghost is_written = e.write_seen();
    let mut added: Vec<Change> = Vec::new();
    let mut updated: Vec<Change> = Vec::new();
    let mut writes: Vec<FileWrite> = Vec::new();
    let mut seen: usize = 0;
    let mut i: usize = 0;
    proof {
        reveal(Seq::filter);
    }
    assert(change_views(added@) =~= paths.take(0).filter_map(is_added));
    assert(change_views(updated@) =~= paths.take(0).filter_map(is_updated));
    assert(write_views(writes@) =~= paths.take(0).filter_map(is_written));
    while i < n
        invariant
            i <= n,
            n == paths.len(),
            paths == staged.paths(),
            e == evidence(files@, staged@, errors@, scan_id),
            live == (|p: Seq<u8>| e.seen.contains_key(p)),
            is_added == e.change_of(ChangeKind::Added),
            is_updated == e.change_of(ChangeKind::Updated),
            is_written == e.write_seen(),
            change_views(added@) == paths.take(i as int).filter_map(is_added),
            change_views(updated@) == paths.take(i as int).filter_map(is_updated),
            write_views(writes@) == paths.take(i as int).filter_map(is_written),
            seen == paths.take(i as int).filter(live).len(),
            seen <= i,
            added@.len() + updated@.len() <= seen,
        decreases n - i,
    {
        let path = staged.path(i);
        let entry = staged.row(i);
        let ghost p = paths[i as int];
        let ghost added0 = added@;
        let ghost updated0 = updated@;
        let ghost writes0 = writes@;
        proof {
            lemma_seen(staged@, p);
            paths.lemma_filter_map_take_succ(is_added, i as int);
            paths.lemma_filter_map_take_succ(is_updated, i as int);
            paths.lemma_filter_map_take_succ(is_written, i as int);
            assert(paths.take(i + 1) =~= paths.take(i as int).push(p));
            Seq::lemma_filter_len_push(paths.take(i as int), live, p);
        }
        if entry.complete {
            let prior = files.get(path.as_slice());
            proof {
                assert(e.prior_at(p) == (match prior {
                    Some(f) => Some(f@),
                    None => None,
                }));
            }
            let (change, row) = settle_seen(path.as_slice(), prior, &entry.facts, scan_id);
            match change {
                Some(c) => {
                    match c.kind {
                        ChangeKind::Added => {
                            added.push(c);
                        },
                        _ => {
                            updated.push(c);
                        },
                    }
                },
                None => {},
            }
            match row {
                Some(row) => {
                    writes.push(FileWrite { path: copy_bytes(path.as_slice()), row });
                },
                None => {},
            }
            seen = seen + 1;
        }
        assert(change_views(added@) =~= paths.take(i + 1).filter_map(is_added));
        assert(change_views(updated@) =~= paths.take(i + 1).filter_map(is_updated));
        assert(write_views(writes@) =~= paths.take(i + 1).filter_map(is_written));
        i = i + 1;
    }
    assert(paths.take(n as int) =~= paths);
    (added, updated, writes, seen)
}

/// The paths that were not seen: held where nothing could be read, gone
/// everywhere else.
fn promote_unseen(
    files: &PathTable<FileRow>,
    staged: &PathTable<StageEntry>,
    errors: &Vec<ErrorRow>,
    scan_id: i64,
) -> (r: (Vec<Change>, Vec<FileWrite>, usize))
    ensures
        ({
            let e = evidence(files@, staged@, errors@, scan_id);
            &&& change_views(r.0@) == files.paths().filter_map(e.change_of(ChangeKind::Deleted))
            &&& write_views(r.1@) == files.paths().filter_map(e.write_unseen())
            &&& r.2 == files.paths().filter(|p: Seq<u8>| e.held(p)).len()
        }),
{
    let n: usize = files.len();
    let ghost e = evidence(files@, staged@, errors@, scan_id);
    let ghost paths = files.paths();
    let ghost is_held = |p: Seq<u8>| e.held(p);
    let ghost is_deleted = e.change_of(ChangeKind::Deleted);
    let ghost is_written = e.write_unseen();
    let mut deleted: Vec<Change> = Vec::new();
    let mut writes: Vec<FileWrite> = Vec::new();
    let mut held: usize = 0;
    let mut i: usize = 0;
    proof {
        reveal(Seq::filter);
    }
    assert(change_views(deleted@) =~= paths.take(0).filter_map(is_deleted));
    assert(write_views(writes@) =~= paths.take(0).filter_map(is_written));
    while i < n
        invariant
            i <= n,
            n == paths.len(),
            paths == files.paths(),
            e == evidence(files@, staged@, errors@, scan_id),
            is_held == (|p: Seq<u8>| e.held(p)),
            is_deleted == e.change_of(ChangeKind::Deleted),
            is_written == e.write_unseen(),
            change_views(deleted@) == paths.take(i as int).filter_map(is_deleted),
            write_views(writes@) == paths.take(i as int).filter_map(is_written),
            held == paths.take(i as int).filter(is_held).len(),
            held <= i,
        decreases n - i,
    {
        let path = files.path(i);
        let f = files.row(i);
        let ghost p = paths[i as int];
        let ghost deleted0 = deleted@;
        let ghost writes0 = writes@;
        proof {
            lemma_seen(staged@, p);
            assert(e.prior.contains_key(p) && e.prior[p] == f@);
            paths.lemma_filter_map_take_succ(is_deleted, i as int);
            paths.lemma_filter_map_take_succ(is_written, i as int);
            assert(paths.take(i + 1) =~= paths.take(i as int).push(p));
            Seq::lemma_filter_len_push(paths.take(i as int), is_held, p);
        }
        let was_seen: bool = match staged.get(path.as_slice()) {
            Some(entry) => entry.complete,
            None => false,
        };
        if !was_seen && f.presence != Presence::Deleted {
            if shielded(path.as_slice(), errors) {
                held = held + 1;
                writes.push(
                    FileWrite {
                        path: copy_bytes(path.as_slice()),
                        row: FileRow {
                            facts: f.facts.copy(),
                            presence: Presence::Unreadable,
                            metadata_from_scan_id: f.metadata_from_scan_id,
                            deleted_in_scan_id: f.deleted_in_scan_id,
                        },
                    },
                );
            } else {
                deleted.push(
                    Change {
                        path: copy_bytes(path.as_slice()),
                        kind: ChangeKind::Deleted,
                        field_mask: F_PRESENCE,
                        old: Some(f.facts.fingerprint()),
                        new: None,
                    },
                );
                writes.push(
                    FileWrite {
                        path: copy_bytes(path.as_slice()),
                        row: FileRow {
                            facts: f.facts.copy(),
                            presence: Presence::Deleted,
                            metadata_from_scan_id: f.metadata_from_scan_id,
                            deleted_in_scan_id: Some(scan_id),
                        },
                    },
                );
            }
        }
        assert(change_views(deleted@) =~= paths.take(i + 1).filter_map(is_deleted));
        assert(write_views(writes@) =~= paths.take(i + 1).filter_map(is_written));
        i = i + 1;
    }
    assert(paths.take(n as int) =~= paths);
    (deleted, writes, held)
}

proof fn lemma_overlay_split(
    prior: Map<Seq<u8>, FileView>,
    a: Seq<WriteView>,
    b: Seq<WriteView>,
)
    ensures
        overlay(prior, a + b) == overlay(overlay(prior, a), b),
    decreases b.len(),
{
    if b.len() == 0 {
        assert(a + b =~= a);
    } else {
        assert((a + b).drop_last() =~= a + b.drop_last());
        lemma_overlay_split(prior, a, b.drop_last());
    }
}

proof fn lemma_overlay_each(
    prior: Map<Seq<u8>, FileView>,
    paths: Seq<Seq<u8>>,
    f: spec_fn(Seq<u8>) -> Option<WriteView>,
)
    requires
        forall|p: Seq<u8>| #[trigger] f(p) matches Some(w) ==> w.path == p,
    ensures
        forall|q: Seq<u8>|
            overlay(prior, paths.filter_map(f)).contains_key(q) <==> (prior.contains_key(q) || (
            paths.contains(q) && #[trigger] f(q) is Some)),
        forall|q: Seq<u8>| #[trigger]
            overlay(prior, paths.filter_map(f)).contains_key(q) ==> overlay(
                prior,
                paths.filter_map(f),
            )[q] == (if paths.contains(q) && f(q) is Some {
                f(q)->0.row
            } else {
                prior[q]
            }),
    decreases paths.len(),
{
    if paths.len() > 0 {
        let rest = paths.drop_last();
        let last = paths.last();
        lemma_overlay_each(prior, rest, f);
        assert forall|q: Seq<u8>| paths.contains(q) <==> (rest.contains(q) || q == last) by {
            if paths.contains(q) && q != last {
                let k = paths.index_of(q);
                assert(rest[k] == q);
            }
            if rest.contains(q) {
                let k = rest.index_of(q);
                assert(paths[k] == q);
            }
            assert(paths[paths.len() - 1] == last);
        }
        match f(last) {
            Some(w) => {
                let all = paths.filter_map(f);
                assert(all.drop_last() =~= rest.filter_map(f));
                assert(all.last() == w);
            },
            None => {},
        }
    }
}

/// Distinct paths that satisfy a condition, counted in order or as a set.
pub proof fn lemma_count_paths(paths: Seq<Seq<u8>>, pred: spec_fn(Seq<u8>) -> bool)
    requires
        paths.no_duplicates(),
    ensures
        Set::new(|p: Seq<u8>| paths.contains(p) && pred(p)).finite(),
        Set::new(|p: Seq<u8>| paths.contains(p) && pred(p)).len() == paths.filter(pred).len(),
    decreases paths.len(),
{
    reveal(Seq::filter);
    let chosen = Set::new(|p: Seq<u8>| paths.contains(p) && pred(p));
    if paths.len() == 0 {
        assert(chosen =~= Set::empty());
    } else {
        let rest = paths.drop_last();
        let last = paths.last();
        lemma_count_paths(rest, pred);
        let before = Set::new(|p: Seq<u8>| rest.contains(p) && pred(p));
        assert(!rest.contains(last));
        assert forall|q: Seq<u8>| paths.contains(q) <==> (rest.contains(q) || q == last) by {
            if paths.contains(q) && q != last {
                let k = paths.index_of(q);
                assert(rest[k] == q);
            }
            if rest.contains(q) {
                let k = rest.index_of(q);
                assert(paths[k] == q);
            }
            assert(paths[paths.len() - 1] == last);
        }
        if pred(last) {
            assert(chosen =~= before.insert(last));
        } else {
            assert(chosen =~= before);
        }
    }
}

/// After promotion the present paths are exactly the ones the scan saw.
pub proof fn law_present_is_what_was_seen(e: Evidence)
    ensures
        present_paths(e.after()) == e.seen.dom(),
{
    assert(present_paths(e.after()) =~= e.seen.dom());
}

/// Decides every path of the baseline and of the scan.
///
/// The changes and the writes for paths that were seen come in byte order of
/// the staged paths, the others in byte order of the baseline's.
pub fn promote(
    files: &PathTable<FileRow>,
    staged: &PathTable<StageEntry>,
    errors: &Vec<ErrorRow>,
    scan_id: i64,
) -> (r: Promotion)
    ensures
        evidence(files@, staged@, errors@, scan_id).decided(staged.paths(), files.paths(), r),
{
    let ghost e = evidence(files@, staged@, errors@, scan_id);
    let (added, updated, mut writes, seen) = promote_seen(
        files,
        staged,
        Ghost(errors@),
        scan_id,
    );
    let (deleted, mut marks, unreadable) = promote_unseen(files, staged, errors, scan_id);
    let ghost for_seen = writes@;
    let ghost for_unseen = marks@;
    let n: usize = staged.len();
    let m: usize = files.len();
    writes.append(&mut marks);
    proof {
        let live = |p: Seq<u8>| e.seen.contains_key(p);
        assert(write_views(writes@) =~= write_views(for_seen) + write_views(for_unseen));
        lemma_overlay_split(e.prior, write_views(for_seen), write_views(for_unseen));
        lemma_overlay_each(e.prior, staged.paths(), e.write_seen());
        lemma_overlay_each(
            overlay(e.prior, write_views(for_seen)),
            files.paths(),
            e.write_unseen(),
        );
        let result = overlay(e.prior, write_views(writes@));
        assert forall|p: Seq<u8>| #[trigger]
            result.contains_key(p) == e.after().contains_key(p) by {
            lemma_seen(staged@, p);
            assert(e.write_seen()(p) is Some <==> (e.seen.contains_key(p) && e.write(p) is Some));
            assert(e.write_unseen()(p) is Some <==> (!e.seen.contains_key(p) && e.write(
                p,
            ) is Some));
        }
        assert forall|p: Seq<u8>| #[trigger] result.contains_key(p) implies result[p]
            == e.after()[p] by {
            lemma_seen(staged@, p);
            assert(e.after().contains_key(p));
            assert(e.write_seen()(p) is Some <==> (e.seen.contains_key(p) && e.write(p) is Some));
            assert(e.write_unseen()(p) is Some <==> (!e.seen.contains_key(p) && e.write(
                p,
            ) is Some));
        }
        assert(result =~= e.after());
        lemma_ascending_distinct(staged.paths());
        lemma_count_paths(staged.paths(), live);
        assert(Set::new(|p: Seq<u8>| staged.paths().contains(p) && live(p))
            =~= e.seen.dom());
        law_present_is_what_was_seen(e);
    }
    let unchanged: usize = seen - (added.len() + updated.len());
    Promotion { added, updated, deleted, writes, unreadable, present: seen, unchanged }
}

/// A path is unknown exactly when a problem of the scan, of whatever stage and in
/// whatever words, lies on it or on a directory above it, and is of a kind that
/// leaves contents unknown. The base does not count here.
pub proof fn law_a_problem_shields_what_lies_below(errors: Seq<ErrorRow>, path: Seq<u8>)
    ensures
        shielded_by(error_views(errors), path) <==> exists|i: int|
            #![trigger errors[i]]
            0 <= i < errors.len() && {
                &&& errors[i].code@ == "permission_denied"@ || errors[i].code@ == "io_error"@
                    || errors[i].code@ == "invalid_data"@ || errors[i].code@
                    == "resource_exhausted"@
                &&& errors[i].rel matches Some(top) && top@.len() > 0 && (path == top@ || (
                path.len() > top@.len() && path.take(top@.len() as int) == top@ && path[
                    top@.len() as int
                ] == 0x2f))
            },
{
    let views = error_views(errors);
    assert(forall|i: int| 0 <= i < errors.len() ==> #[trigger] views[i] == errors[i]@);
    if shielded_by(views, path) {
        let i = choose|i: int| 0 <= i < views.len() && hides(#[trigger] views[i], path);
        assert(views[i] == errors[i]@);
    }
    assert forall|i: int|
        #![trigger errors[i]]
        0 <= i < errors.len() && {
            &&& errors[i].code@ == "permission_denied"@ || errors[i].code@ == "io_error"@
                || errors[i].code@ == "invalid_data"@ || errors[i].code@ == "resource_exhausted"@
            &&& errors[i].rel matches Some(top) && top@.len() > 0 && (path == top@ || (path.len()
                > top@.len() && path.take(top@.len() as int) == top@ && path[top@.len() as int]
                == 0x2f))
        } implies shielded_by(views, path) by {
        assert(views[i] == errors[i]@);
        assert(hides(views[i], path));
    }
}

/// What promotion decides from is what it is given: the rows of the baseline, the
/// complete entries of the staging, every problem, and the number of the scan.
pub proof fn law_evidence_is_what_is_given(
    files: Map<Seq<u8>, FileRow>,
    staged: Map<Seq<u8>, StageEntry>,
    errors: Seq<ErrorRow>,
    scan_id: i64,
    p: Seq<u8>,
)
    ensures
        ({
            let e = evidence(files, staged, errors, scan_id);
            &&& e.scan_id == scan_id
            &&& e.errors == error_views(errors)
            &&& e.prior.contains_key(p) <==> files.contains_key(p)
            &&& files.contains_key(p) ==> e.prior[p] == files[p]@
            &&& e.seen.contains_key(p) <==> staged.contains_key(p) && staged[p].complete
            &&& e.seen.contains_key(p) ==> e.seen[p] == staged[p].facts@
        }),
{
}

/// A path that was seen and that the baseline holds as present or unreadable is
/// recorded as updated exactly when its size, its modification time, its type or its
/// hash is another, with the old and the new ones beside it and one bit for each that
/// differs. Nothing else is recorded of it.
pub proof fn law_updated_means_a_compared_field_differs(e: Evidence, p: Seq<u8>)
    requires
        e.prior.contains_key(p),
        e.prior[p].presence != Presence::Deleted,
        e.seen.contains_key(p),
    ensures
        ({
            let old = e.prior[p].facts;
            let new = e.seen[p];
            let differs = old.size_bytes != new.size_bytes || old.mtime_ns != new.mtime_ns
                || old.mime_type != new.mime_type || old.content_hash != new.content_hash;
            &&& e.change(p) is Some <==> differs
            &&& e.change(p) matches Some(c) ==> {
                &&& c.kind == ChangeKind::Updated
                &&& c.path == p
                &&& c.field_mask == (if old.size_bytes != new.size_bytes {
                    1int
                } else {
                    0
                }) + (if old.mtime_ns != new.mtime_ns {
                    2int
                } else {
                    0
                }) + (if old.mime_type != new.mime_type {
                    4int
                } else {
                    0
                }) + (if old.content_hash != new.content_hash {
                    8int
                } else {
                    0
                })
                &&& c.old matches Some(f) && f.size_bytes == old.size_bytes && f.mtime_ns
                    == old.mtime_ns && f.mime_type == old.mime_type && f.content_hash
                    == old.content_hash
                &&& c.new matches Some(f) && f.size_bytes == new.size_bytes && f.mtime_ns
                    == new.mtime_ns && f.mime_type == new.mime_type && f.content_hash
                    == new.content_hash
            }
        }),
{
}

/// A path that was seen and that the baseline does not hold, or holds as deleted, is
/// recorded as added, with every bit set, with what was seen, and with what was known
/// of the deleted file.
pub proof fn law_added_means_it_was_not_there(e: Evidence, p: Seq<u8>)
    requires
        e.seen.contains_key(p),
        !e.prior.contains_key(p) || e.prior[p].presence == Presence::Deleted,
    ensures
        e.change(p) matches Some(c) && {
            &&& c.kind == ChangeKind::Added
            &&& c.path == p
            &&& c.field_mask == 31
            &&& c.new matches Some(f) && f.size_bytes == e.seen[p].size_bytes && f.mtime_ns
                == e.seen[p].mtime_ns && f.mime_type == e.seen[p].mime_type && f.content_hash
                == e.seen[p].content_hash
            &&& c.old is Some <==> e.prior.contains_key(p)
            &&& c.old matches Some(f) ==> f.size_bytes == e.prior[p].facts.size_bytes && f.mtime_ns
                == e.prior[p].facts.mtime_ns && f.mime_type == e.prior[p].facts.mime_type
                && f.content_hash == e.prior[p].facts.content_hash
        },
{
}

/// A path that was not seen is recorded as deleted exactly when the baseline holds it
/// as present or unreadable and it could have been seen. The change keeps what was
/// known of the file.
pub proof fn law_deleted_means_it_could_have_been_seen(e: Evidence, p: Seq<u8>)
    requires
        !e.seen.contains_key(p),
    ensures
        e.change(p) is Some <==> e.prior.contains_key(p) && e.prior[p].presence != Presence::Deleted
            && !shielded_by(e.errors, p),
        e.change(p) matches Some(c) ==> {
            &&& c.kind == ChangeKind::Deleted
            &&& c.path == p
            &&& c.field_mask == 16
            &&& c.new is None
            &&& c.old matches Some(f) && f.size_bytes == e.prior[p].facts.size_bytes && f.mtime_ns
                == e.prior[p].facts.mtime_ns && f.mime_type == e.prior[p].facts.mime_type
                && f.content_hash == e.prior[p].facts.content_hash
        },
{
}

/// The baseline after promotion, path by path. What was seen is present, as it was
/// seen and supplied by this scan, or as it was held where nothing compared differs.
/// What was not seen keeps its facts: it is held as unreadable where it could not
/// have been seen, deleted by this scan where it could, and stays deleted where it was.
pub proof fn law_baseline_after_promotion(e: Evidence, p: Seq<u8>)
    ensures
        e.after().contains_key(p) <==> e.prior.contains_key(p) || e.seen.contains_key(p),
        e.seen.contains_key(p) ==> {
            let row = e.after()[p];
            let kept = e.prior.contains_key(p) && e.prior[p].presence == Presence::Present
                && e.prior[p].facts.size_bytes == e.seen[p].size_bytes
                && e.prior[p].facts.mtime_ns == e.seen[p].mtime_ns && e.prior[p].facts.mime_type
                == e.seen[p].mime_type && e.prior[p].facts.content_hash == e.seen[p].content_hash;
            &&& kept ==> row == e.prior[p]
            &&& !kept ==> row.presence == Presence::Present && row.facts == e.seen[p]
                && row.metadata_from_scan_id == e.scan_id && row.deleted_in_scan_id is None
        },
        e.prior.contains_key(p) && !e.seen.contains_key(p) ==> {
            let row = e.after()[p];
            &&& row.facts == e.prior[p].facts
            &&& row.metadata_from_scan_id == e.prior[p].metadata_from_scan_id
            &&& e.prior[p].presence == Presence::Deleted ==> row == e.prior[p]
            &&& e.prior[p].presence != Presence::Deleted && shielded_by(e.errors, p)
                ==> row.presence == Presence::Unreadable && row.deleted_in_scan_id
                == e.prior[p].deleted_in_scan_id
            &&& e.prior[p].presence != Presence::Deleted && !shielded_by(e.errors, p)
                ==> row.presence == Presence::Deleted && row.deleted_in_scan_id == Some(e.scan_id)
        },
{
}

proof fn lemma_picked<B>(paths: Seq<Seq<u8>>, f: spec_fn(Seq<u8>) -> Option<B>, b: B)
    ensures
        paths.filter_map(f).contains(b) <==> exists|i: int|
            0 <= i < paths.len() && f(#[trigger] paths[i]) == Some(b),
    decreases paths.len(),
{
    if paths.len() > 0 {
        let rest = paths.drop_last();
        let all = paths.filter_map(f);
        let before = rest.filter_map(f);
        lemma_picked(rest, f, b);
        assert(forall|i: int| 0 <= i < rest.len() ==> #[trigger] rest[i] == paths[i]);
        assert(paths[paths.len() - 1] == paths.last());
        assert(all == (match f(paths.last()) {
            Some(x) => before.push(x),
            None => before,
        }));
        if all.contains(b) {
            let k = all.index_of(b);
            if k < before.len() {
                assert(before[k] == b);
                let i = choose|i: int| 0 <= i < rest.len() && f(#[trigger] rest[i]) == Some(b);
                assert(f(paths[i]) == Some(b));
            } else {
                assert(f(paths[paths.len() - 1]) == Some(b));
            }
        }
        if exists|i: int| 0 <= i < paths.len() && f(#[trigger] paths[i]) == Some(b) {
            let i = choose|i: int| 0 <= i < paths.len() && f(#[trigger] paths[i]) == Some(b);
            if i < rest.len() {
                assert(f(rest[i]) == Some(b));
                let k = before.index_of(b);
                assert(all[k] == b);
            } else {
                assert(all.last() == b);
            }
        }
    }
}

/// The change rows of a promotion are exactly the changes of its paths, each under
/// its kind: of the paths that were staged, the added and the updated ones, and of
/// the baseline's, the deleted ones.
pub proof fn law_change_rows_are_the_changes(
    e: Evidence,
    staged: Seq<Seq<u8>>,
    prior: Seq<Seq<u8>>,
    r: Promotion,
    c: ChangeView,
)
    requires
        e.decided(staged, prior, r),
    ensures
        change_views(r.added@).contains(c) <==> c.kind == ChangeKind::Added && exists|i: int|
            0 <= i < staged.len() && e.change(#[trigger] staged[i]) == Some(c),
        change_views(r.updated@).contains(c) <==> c.kind == ChangeKind::Updated && exists|i: int|
            0 <= i < staged.len() && e.change(#[trigger] staged[i]) == Some(c),
        change_views(r.deleted@).contains(c) <==> c.kind == ChangeKind::Deleted && exists|i: int|
            0 <= i < prior.len() && e.change(#[trigger] prior[i]) == Some(c),
{
    lemma_picked(staged, e.change_of(ChangeKind::Added), c);
    lemma_picked(staged, e.change_of(ChangeKind::Updated), c);
    lemma_picked(prior, e.change_of(ChangeKind::Deleted), c);
    lemma_of_kind(e, staged, ChangeKind::Added, c);
    lemma_of_kind(e, staged, ChangeKind::Updated, c);
    lemma_of_kind(e, prior, ChangeKind::Deleted, c);
}

proof fn lemma_of_kind(e: Evidence, paths: Seq<Seq<u8>>, kind: ChangeKind, c: ChangeView)
    ensures
        (exists|i: int| 0 <= i < paths.len() && e.change_of(kind)(#[trigger] paths[i]) == Some(c))
            <==> c.kind == kind && exists|i: int|
            0 <= i < paths.len() && e.change(#[trigger] paths[i]) == Some(c),
{
    if c.kind == kind && exists|i: int|
        0 <= i < paths.len() && e.change(#[trigger] paths[i]) == Some(c) {
        let i = choose|i: int| 0 <= i < paths.len() && e.change(#[trigger] paths[i]) == Some(c);
        assert(e.change_of(kind)(paths[i]) == Some(c));
    }
    if exists|i: int| 0 <= i < paths.len() && e.change_of(kind)(#[trigger] paths[i]) == Some(c) {
        let i = choose|i: int|
            0 <= i < paths.len() && e.change_of(kind)(#[trigger] paths[i]) == Some(c);
        assert(e.change(paths[i]) == Some(c));
    }
}

/// What a promotion reports: a file that was seen is added, updated or unchanged, the
/// files present are those that were seen, the writes lead to the new baseline, and
/// the rows held as unreadable are those of the baseline that were not seen, were not
/// deleted, and could not have been seen.
pub proof fn law_promotion_counts_every_path_once(
    e: Evidence,
    staged: Seq<Seq<u8>>,
    prior: Seq<Seq<u8>>,
    r: Promotion,
)
    requires
        e.decided(staged, prior, r),
    ensures
        r.added@.len() + r.updated@.len() + r.unchanged == e.seen.dom().len(),
        r.present == e.seen.dom().len(),
        overlay(e.prior, write_views(r.writes@)) == e.after(),
        r.unreadable == prior.filter(
            |p: Seq<u8>|
                e.prior.contains_key(p) && !e.seen.contains_key(p) && e.prior[p].presence
                    != Presence::Deleted && shielded_by(e.errors, p),
        ).len(),
{
    law_present_is_what_was_seen(e);
    assert((|p: Seq<u8>| e.held(p)) =~= (|p: Seq<u8>|
        e.prior.contains_key(p) && !e.seen.contains_key(p) && e.prior[p].presence
            != Presence::Deleted && shielded_by(e.errors, p)));
}

/// A file of the baseline that a promotion did not see, below or at a path that could
/// not be read, gets no change row of any kind, and is written back with every fact
/// it had, as unreadable.
pub proof fn law_unread_file_is_held(
    files: Map<Seq<u8>, FileRow>,
    staged: Map<Seq<u8>, StageEntry>,
    errors: Seq<ErrorRow>,
    scan_id: i64,
    staged_paths: Seq<Seq<u8>>,
    file_paths: Seq<Seq<u8>>,
    r: Promotion,
    p: Seq<u8>,
    i: int,
)
    requires
        evidence(files, staged, errors, scan_id).decided(staged_paths, file_paths, r),
        files.contains_key(p),
        files[p].presence != Presence::Deleted,
        !(staged.contains_key(p) && staged[p].complete),
        0 <= i < errors.len(),
        errors[i].code@ == "permission_denied"@ || errors[i].code@ == "io_error"@ || errors[i].code@
            == "invalid_data"@ || errors[i].code@ == "resource_exhausted"@,
        errors[i].rel matches Some(top) && top@.len() > 0 && (p == top@ || (p.len() > top@.len()
            && p.take(top@.len() as int) == top@ && p[top@.len() as int] == 0x2f)),
    ensures
        forall|k: int| 0 <= k < r.added@.len() ==> (#[trigger] r.added@[k]).path@ != p,
        forall|k: int| 0 <= k < r.updated@.len() ==> (#[trigger] r.updated@[k]).path@ != p,
        forall|k: int| 0 <= k < r.deleted@.len() ==> (#[trigger] r.deleted@[k]).path@ != p,
        overlay(baseline(files), write_views(r.writes@)).contains_key(p),
        ({
            let row = overlay(baseline(files), write_views(r.writes@))[p];
            &&& row.presence == Presence::Unreadable
            &&& row.facts == files[p].facts@
            &&& row.metadata_from_scan_id == files[p].metadata_from_scan_id
        }),
{
    let e = evidence(files, staged, errors, scan_id);
    law_a_problem_shields_what_lies_below(errors, p);
    assert(errors[i] == errors[i]);
    law_deleted_means_it_could_have_been_seen(e, p);
    law_baseline_after_promotion(e, p);
    assert(e.change(p) is None);
    assert forall|k: int| 0 <= k < r.added@.len() implies (#[trigger] r.added@[k]).path@ != p by {
        let c = r.added@[k]@;
        assert(change_views(r.added@)[k] == c);
        assert(change_views(r.added@).contains(c));
        law_change_rows_are_the_changes(e, staged_paths, file_paths, r, c);
        lemma_change_names_its_path(e);
    }
    assert forall|k: int| 0 <= k < r.updated@.len() implies (#[trigger] r.updated@[k]).path@
        != p by {
        let c = r.updated@[k]@;
        assert(change_views(r.updated@)[k] == c);
        assert(change_views(r.updated@).contains(c));
        law_change_rows_are_the_changes(e, staged_paths, file_paths, r, c);
        lemma_change_names_its_path(e);
    }
    assert forall|k: int| 0 <= k < r.deleted@.len() implies (#[trigger] r.deleted@[k]).path@
        != p by {
        let c = r.deleted@[k]@;
        assert(change_views(r.deleted@)[k] == c);
        assert(change_views(r.deleted@).contains(c));
        law_change_rows_are_the_changes(e, staged_paths, file_paths, r, c);
        lemma_change_names_its_path(e);
    }
}

proof fn lemma_change_names_its_path(e: Evidence)
    ensures
        forall|q: Seq<u8>| (#[trigger] e.change(q)) matches Some(c) ==> c.path == q,
{
}

/// Rows written over a baseline: the last one written at a path stands there, and a
/// path that none is written at keeps its row.
pub proof fn law_last_write_stands(prior: Map<Seq<u8>, FileView>, writes: Seq<WriteView>, w: WriteView)
    ensures
        overlay(prior, Seq::empty()) == prior,
        overlay(prior, writes.push(w)).contains_key(w.path),
        overlay(prior, writes.push(w))[w.path] == w.row,
        forall|q: Seq<u8>|
            q != w.path ==> (#[trigger] overlay(prior, writes.push(w)).contains_key(q) <==> overlay(
                prior,
                writes,
            ).contains_key(q)) && overlay(prior, writes.push(w))[q] == overlay(prior, writes)[q],
{
    assert(writes.push(w).drop_last() =~= writes);
}

/// Changes and writes show one by one, in order, each with its path and its row.
pub proof fn law_changes_and_writes_show_one_by_one(
    changes: Seq<Change>,
    writes: Seq<FileWrite>,
    files: Map<Seq<u8>, FileView>,
    p: Seq<u8>,
)
    ensures
        change_views(changes).len() == changes.len(),
        forall|i: int|
            0 <= i < changes.len() ==> #[trigger] change_views(changes)[i] == changes[i]@,
        write_views(writes).len() == writes.len(),
        forall|i: int|
            0 <= i < writes.len() ==> (#[trigger] write_views(writes)[i]).path == writes[i].path@
                && write_views(writes)[i].row == writes[i].row@,
        present_paths(files).contains(p) <==> files.contains_key(p) && files[p].presence
            == Presence::Present,
{
}

/// Some row of the list is of this path.
pub open spec fn speaks_of(changes: Seq<Change>, p: Seq<u8>) -> bool {
    exists|k: int| 0 <= k < changes.len() && (#[trigger] changes[k]).path@ == p
}

proof fn lemma_spoken_of(
    e: Evidence,
    paths: Seq<Seq<u8>>,
    kind: ChangeKind,
    changes: Seq<Change>,
    p: Seq<u8>,
)
    requires
        change_views(changes) == paths.filter_map(e.change_of(kind)),
    ensures
        speaks_of(changes, p) <==> paths.contains(p) && (e.change(p) matches Some(c) && c.kind
            == kind),
        forall|k: int|
            0 <= k < changes.len() && (#[trigger] changes[k]).path@ == p ==> e.change(p) == Some(
                changes[k]@,
            ),
{
    let views = change_views(changes);
    lemma_change_names_its_path(e);
    assert forall|k: int| 0 <= k < changes.len() && (#[trigger] changes[k]).path@
        == p implies e.change(p) == Some(changes[k]@) && paths.contains(p) && changes[k].kind
        == kind by {
        let c = changes[k]@;
        assert(views[k] == c);
        assert(views.contains(c));
        lemma_picked(paths, e.change_of(kind), c);
        let i = choose|i: int|
            0 <= i < paths.len() && e.change_of(kind)(#[trigger] paths[i]) == Some(c);
        assert(e.change(paths[i]) == Some(c));
    }
    if paths.contains(p) && (e.change(p) matches Some(c) && c.kind == kind) {
        let c = e.change(p)->0;
        let i = paths.index_of(p);
        assert(e.change_of(kind)(paths[i]) == Some(c));
        lemma_picked(paths, e.change_of(kind), c);
        let k = views.index_of(c);
        assert(views[k] == changes[k]@);
        assert(changes[k].path@ == p);
    }
}

/// A promotion, as it is carried out: of a file that is staged and that the baseline
/// holds as present or unreadable there is an update exactly when the size, the time,
/// the type or the hash differs, with the bits of what differs, and with the old and
/// the new size, time and hash. There is neither an addition nor a deletion of it.
pub proof fn law_updates_of_a_promotion(
    files: Map<Seq<u8>, FileRow>,
    staged: Map<Seq<u8>, StageEntry>,
    errors: Seq<ErrorRow>,
    scan_id: i64,
    staged_paths: Seq<Seq<u8>>,
    file_paths: Seq<Seq<u8>>,
    r: Promotion,
    p: Seq<u8>,
)
    requires
        evidence(files, staged, errors, scan_id).decided(staged_paths, file_paths, r),
        staged_paths.contains(p),
        staged.contains_key(p),
        staged[p].complete,
        files.contains_key(p),
        files[p].presence != Presence::Deleted,
    ensures
        ({
            let old = files[p].facts;
            let new = staged[p].facts;
            let same_type = match (old.mime_type, new.mime_type) {
                (Some(a), Some(b)) => a@ == b@,
                (None, None) => true,
                _ => false,
            };
            &&& !speaks_of(r.added@, p)
            &&& !speaks_of(r.deleted@, p)
            &&& speaks_of(r.updated@, p) <==> old.size_bytes != new.size_bytes || old.mtime_ns
                != new.mtime_ns || !same_type || old.content_hash@ != new.content_hash@
            &&& forall|k: int|
                0 <= k < r.updated@.len() && (#[trigger] r.updated@[k]).path@ == p ==> {
                    let c = r.updated@[k];
                    &&& c.kind == ChangeKind::Updated
                    &&& c.field_mask == (if old.size_bytes != new.size_bytes {
                        1int
                    } else {
                        0
                    }) + (if old.mtime_ns != new.mtime_ns {
                        2int
                    } else {
                        0
                    }) + (if !same_type {
                        4int
                    } else {
                        0
                    }) + (if old.content_hash@ != new.content_hash@ {
                        8int
                    } else {
                        0
                    })
                    &&& c.old matches Some(f) && f.size_bytes == old.size_bytes && f.mtime_ns
                        == old.mtime_ns && f.content_hash@ == old.content_hash@
                    &&& c.new matches Some(f) && f.size_bytes == new.size_bytes && f.mtime_ns
                        == new.mtime_ns && f.content_hash@ == new.content_hash@
                }
        }),
{
    let e = evidence(files, staged, errors, scan_id);
    law_evidence_is_what_is_given(files, staged, errors, scan_id, p);
    law_updated_means_a_compared_field_differs(e, p);
    lemma_spoken_of(e, staged_paths, ChangeKind::Added, r.added@, p);
    lemma_spoken_of(e, staged_paths, ChangeKind::Updated, r.updated@, p);
    lemma_spoken_of(e, file_paths, ChangeKind::Deleted, r.deleted@, p);
}

/// Of a file that is staged and that the baseline does not hold, or holds as deleted,
/// there is an addition, and neither an update nor a deletion.
pub proof fn law_additions_of_a_promotion(
    files: Map<Seq<u8>, FileRow>,
    staged: Map<Seq<u8>, StageEntry>,
    errors: Seq<ErrorRow>,
    scan_id: i64,
    staged_paths: Seq<Seq<u8>>,
    file_paths: Seq<Seq<u8>>,
    r: Promotion,
    p: Seq<u8>,
)
    requires
        evidence(files, staged, errors, scan_id).decided(staged_paths, file_paths, r),
        staged_paths.contains(p),
        staged.contains_key(p),
        staged[p].complete,
        !files.contains_key(p) || files[p].presence == Presence::Deleted,
    ensures
        speaks_of(r.added@, p),
        !speaks_of(r.updated@, p),
        !speaks_of(r.deleted@, p),
        forall|k: int|
            0 <= k < r.added@.len() && (#[trigger] r.added@[k]).path@ == p ==> {
                let c = r.added@[k];
                &&& c.kind == ChangeKind::Added
                &&& c.field_mask == 31
                &&& c.new matches Some(f) && f.size_bytes == staged[p].facts.size_bytes
                    && f.mtime_ns == staged[p].facts.mtime_ns && f.content_hash@
                    == staged[p].facts.content_hash@
                &&& c.old is Some <==> files.contains_key(p)
            },
{
    let e = evidence(files, staged, errors, scan_id);
    law_evidence_is_what_is_given(files, staged, errors, scan_id, p);
    law_added_means_it_was_not_there(e, p);
    lemma_spoken_of(e, staged_paths, ChangeKind::Added, r.added@, p);
    lemma_spoken_of(e, staged_paths, ChangeKind::Updated, r.updated@, p);
    lemma_spoken_of(e, file_paths, ChangeKind::Deleted, r.deleted@, p);
}

/// Of a file of the baseline that is not staged there is a deletion exactly when it
/// was not deleted already and no problem leaves it unknown, and neither an addition
/// nor an update.
pub proof fn law_deletions_of_a_promotion(
    files: Map<Seq<u8>, FileRow>,
    staged: Map<Seq<u8>, StageEntry>,
    errors: Seq<ErrorRow>,
    scan_id: i64,
    staged_paths: Seq<Seq<u8>>,
    file_paths: Seq<Seq<u8>>,
    r: Promotion,
    p: Seq<u8>,
)
    requires
        evidence(files, staged, errors, scan_id).decided(staged_paths, file_paths, r),
        file_paths.contains(p),
        files.contains_key(p),
        !(staged.contains_key(p) && staged[p].complete),
    ensures
        !speaks_of(r.added@, p),
        !speaks_of(r.updated@, p),
        speaks_of(r.deleted@, p) <==> files[p].presence != Presence::Deleted && !shielded_by(
            error_views(errors),
            p,
        ),
        forall|k: int|
            0 <= k < r.deleted@.len() && (#[trigger] r.deleted@[k]).path@ == p ==> {
                let c = r.deleted@[k];
                &&& c.kind == ChangeKind::Deleted
                &&& c.field_mask == 16
                &&& c.new is None
                &&& c.old matches Some(f) && f.size_bytes == files[p].facts.size_bytes
                    && f.mtime_ns == files[p].facts.mtime_ns && f.content_hash@
                    == files[p].facts.content_hash@
            },
{
    let e = evidence(files, staged, errors, scan_id);
    law_evidence_is_what_is_given(files, staged, errors, scan_id, p);
    law_deleted_means_it_could_have_been_seen(e, p);
    lemma_spoken_of(e, staged_paths, ChangeKind::Added, r.added@, p);
    lemma_spoken_of(e, staged_paths, ChangeKind::Updated, r.updated@, p);
    lemma_spoken_of(e, file_paths, ChangeKind::Deleted, r.deleted@, p);
}

proof fn lemma_picked_in_order<B>(
    paths: Seq<Seq<u8>>,
    f: spec_fn(Seq<u8>) -> Option<B>,
    of: spec_fn(B) -> Seq<u8>,
    pred: spec_fn(Seq<u8>) -> bool,
)
    requires
        forall|p: Seq<u8>| (#[trigger] f(p)) matches Some(b) ==> of(b) == p,
        forall|p: Seq<u8>| (#[trigger] f(p)) is Some <==> pred(p),
    ensures
        paths.filter_map(f).map_values(of) == paths.filter(pred),
    decreases paths.len(),
{
    reveal(Seq::filter);
    if paths.len() > 0 {
        let rest = paths.drop_last();
        let last = paths.last();
        lemma_picked_in_order(rest, f, of, pred);
        let before = rest.filter_map(f);
        assert(paths.filter_map(f) == (match f(last) {
            Some(x) => before.push(x),
            None => before,
        }));
        assert(pred(last) == (f(last) is Some));
        if let Some(x) = f(last) {
            assert(before.push(x).map_values(of) =~= before.map_values(of).push(of(x)));
        }
    } else {
        assert(paths.filter_map(f).map_values(of) =~= Seq::<Seq<u8>>::empty());
    }
}

/// The change rows of a promotion stand in the order of its paths, one for each path
/// that changed in that way, and so do the rows it writes: first those of the paths
/// that were seen, then those of the baseline's that were not.
pub proof fn law_promotion_keeps_the_order_of_paths(
    e: Evidence,
    staged: Seq<Seq<u8>>,
    prior: Seq<Seq<u8>>,
    r: Promotion,
)
    requires
        e.decided(staged, prior, r),
    ensures
        change_views(r.added@).map_values(|c: ChangeView| c.path) == staged.filter(
            |p: Seq<u8>| e.change(p) matches Some(c) && c.kind == ChangeKind::Added,
        ),
        change_views(r.updated@).map_values(|c: ChangeView| c.path) == staged.filter(
            |p: Seq<u8>| e.change(p) matches Some(c) && c.kind == ChangeKind::Updated,
        ),
        change_views(r.deleted@).map_values(|c: ChangeView| c.path) == prior.filter(
            |p: Seq<u8>| e.change(p) matches Some(c) && c.kind == ChangeKind::Deleted,
        ),
        write_views(r.writes@).map_values(|w: WriteView| w.path) == staged.filter(
            |p: Seq<u8>| e.write(p) is Some && e.seen.contains_key(p),
        ) + prior.filter(|p: Seq<u8>| e.write(p) is Some && !e.seen.contains_key(p)),
{
    let of = |c: ChangeView| c.path;
    let at = |w: WriteView| w.path;
    lemma_change_names_its_path(e);
    lemma_picked_in_order(
        staged,
        e.change_of(ChangeKind::Added),
        of,
        |p: Seq<u8>| e.change(p) matches Some(c) && c.kind == ChangeKind::Added,
    );
    lemma_picked_in_order(
        staged,
        e.change_of(ChangeKind::Updated),
        of,
        |p: Seq<u8>| e.change(p) matches Some(c) && c.kind == ChangeKind::Updated,
    );
    lemma_picked_in_order(
        prior,
        e.change_of(ChangeKind::Deleted),
        of,
        |p: Seq<u8>| e.change(p) matches Some(c) && c.kind == ChangeKind::Deleted,
    );
    lemma_picked_in_order(
        staged,
        e.write_seen(),
        at,
        |p: Seq<u8>| e.write(p) is Some && e.seen.contains_key(p),
    );
    lemma_picked_in_order(
        prior,
        e.write_unseen(),
        at,
        |p: Seq<u8>| e.write(p) is Some && !e.seen.contains_key(p),
    );
    let first = staged.filter_map(e.write_seen());
    let second = prior.filter_map(e.write_unseen());
    assert((first + second).map_values(at) =~= first.map_values(at) + second.map_values(at));
}

/// A row is written exactly where the new baseline differs from the old one, or a
/// path is held as unreadable again: it is the row that stands there afterwards.
pub proof fn law_rows_are_written_where_they_change(e: Evidence, p: Seq<u8>)
    ensures
        e.write(p) matches Some(row) ==> e.after().contains_key(p) && e.after()[p] == row,
        e.write(p) is None && e.after().contains_key(p) ==> e.prior.contains_key(p) && e.after()[p]
            == e.prior[p],
        e.seen.contains_key(p) && e.prior.contains_key(p) && e.prior[p].presence
            == Presence::Unreadable ==> e.write(p) is Some,
{
}

} // verus!
