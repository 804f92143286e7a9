//! The rows a catalogue is made of.

use vstd::prelude::*;

use crate::text::same_text;

verus! {

/// `field_mask` bits of a change row.
pub const F_SIZE: i64 = 1;
pub const F_MTIME: i64 = 2;
pub const F_MIME: i64 = 4;
pub const F_HASH: i64 = 8;
pub const F_PRESENCE: i64 = 16;
/// Every bit: nothing about an added path was known before.
pub const F_ADDED: i64 = 31;

/// The characters of an optional text.
pub open spec fn text_of(t: Option<String>) -> Option<Seq<char>> {
    match t {
        Some(s) => Some(s@),
        None => None,
    }
}

pub fn copy_text(t: &Option<String>) -> (r: Option<String>)
    ensures
        r == *t,
{
    match t {
        Some(s) => Some(s.clone()),
        None => None,
    }
}

pub fn copy_bytes(b: &[u8]) -> (r: Vec<u8>)
    ensures
        r@ == b@,
{
    let mut r: Vec<u8> = Vec::new();
    r.extend_from_slice(b);
    assert(r@ =~= b@);
    r
}

/// Whether two optional texts are equal, absence being equal to absence alone.
pub fn same_optional_text(a: &Option<String>, b: &Option<String>) -> (r: bool)
    ensures
        r == (text_of(*a) == text_of(*b)),
{
    match (a, b) {
        (Some(x), Some(y)) => *x == *y,
        (None, None) => true,
        _ => false,
    }
}

/// Whether two byte strings are equal.
pub fn same_bytes(a: &[u8], b: &[u8]) -> (r: bool)
    ensures
        r == (a@ == b@),
{
    if a.len() != b.len() {
        return false;
    }
    let mut i: usize = 0;
    while i < a.len()
        invariant
            i <= a@.len(),
            a@.len() == b@.len(),
            forall|k: int| 0 <= k < i ==> a@[k] == b@[k],
        decreases a.len() - i,
    {
        if a[i] != b[i] {
            assert(a@[i as int] != b@[i as int]);
            return false;
        }
        i = i + 1;
    }
    assert(a@ =~= b@);
    true
}

/// What is known about a path in the baseline.
#[derive(Debug, Clone, Copy, PartialEq, Eq, Structural)]
pub enum Presence {
    /// Seen by the last completed scan.
    Present,
    /// Not seen, under a path that could not be read: nothing is known.
    Unreadable,
    /// Not seen where it could have been: gone.
    Deleted,
}

impl Presence {
    /// The word that stands for this presence in the catalogue.
    pub open spec fn word(self) -> Seq<char> {
        match self {
            Presence::Present => "present"@,
            Presence::Unreadable => "unreadable"@,
            Presence::Deleted => "deleted"@,
        }
    }

    pub fn as_str(&self) -> (r: &'static str)
        ensures
            r@ == self.word(),
    {
        match self {
            Presence::Present => "present",
            Presence::Unreadable => "unreadable",
            Presence::Deleted => "deleted",
        }
    }

    /// The presence that a word stands for.
    pub fn from_word(word: &str) -> (r: Option<Presence>)
        ensures
            match r {
                Some(p) => word@ == p.word(),
                None => forall|p: Presence| word@ != #[trigger] p.word(),
            },
    {
        if same_text(word, "present") {
            Some(Presence::Present)
        } else if same_text(word, "unreadable") {
            Some(Presence::Unreadable)
        } else if same_text(word, "deleted") {
            Some(Presence::Deleted)
        } else {
            None
        }
    }
}

/// What one observation of a file says about it.
#[derive(Debug)]
pub struct Facts {
    pub parent: Option<String>,
    pub name: String,
    pub extension: Option<String>,
    pub size_bytes: i64,
    pub mtime_ns: i64,
    pub created_ns: Option<i64>,
    pub mime_type: Option<String>,
    pub mime_source: String,
    pub content_hash: Vec<u8>,
    pub hash_status: String,
}

#[verifier::ext_equal]
pub struct FactsView {
    pub parent: Option<Seq<char>>,
    pub name: Seq<char>,
    pub extension: Option<Seq<char>>,
    pub size_bytes: i64,
    pub mtime_ns: i64,
    pub created_ns: Option<i64>,
    pub mime_type: Option<Seq<char>>,
    pub mime_source: Seq<char>,
    pub content_hash: Seq<u8>,
    pub hash_status: Seq<char>,
}

impl View for Facts {
    type V = FactsView;

    open spec fn view(&self) -> FactsView {
        FactsView {
            parent: text_of(self.parent),
            name: self.name@,
            extension: text_of(self.extension),
            size_bytes: self.size_bytes,
            mtime_ns: self.mtime_ns,
            created_ns: self.created_ns,
            mime_type: text_of(self.mime_type),
            mime_source: self.mime_source@,
            content_hash: self.content_hash@,
            hash_status: self.hash_status@,
        }
    }
}

impl FactsView {
    /// The four fields that change detection compares.
    pub open spec fn fingerprint(self) -> FingerprintView {
        FingerprintView {
            size_bytes: self.size_bytes,
            mtime_ns: self.mtime_ns,
            mime_type: self.mime_type,
            content_hash: self.content_hash,
        }
    }
}

impl Facts {
    pub fn copy(&self) -> (r: Facts)
        ensures
            r@ == self@,
    {
        Facts {
            parent: copy_text(&self.parent),
            name: self.name.clone(),
            extension: copy_text(&self.extension),
            size_bytes: self.size_bytes,
            mtime_ns: self.mtime_ns,
            created_ns: self.created_ns,
            mime_type: copy_text(&self.mime_type),
            mime_source: self.mime_source.clone(),
            content_hash: copy_bytes(self.content_hash.as_slice()),
            hash_status: self.hash_status.clone(),
        }
    }

    pub fn fingerprint(&self) -> (r: Fingerprint)
        ensures
            r@ == self@.fingerprint(),
    {
        Fingerprint {
            size_bytes: self.size_bytes,
            mtime_ns: self.mtime_ns,
            mime_type: copy_text(&self.mime_type),
            content_hash: copy_bytes(self.content_hash.as_slice()),
        }
    }
}

/// The fields that change detection compares and a change row keeps.
#[derive(Debug)]
pub struct Fingerprint {
    pub size_bytes: i64,
    pub mtime_ns: i64,
    pub mime_type: Option<String>,
    pub content_hash: Vec<u8>,
}

#[verifier::ext_equal]
pub struct FingerprintView {
    pub size_bytes: i64,
    pub mtime_ns: i64,
    pub mime_type: Option<Seq<char>>,
    pub content_hash: Seq<u8>,
}

impl View for Fingerprint {
    type V = FingerprintView;

    open spec fn view(&self) -> FingerprintView {
        FingerprintView {
            size_bytes: self.size_bytes,
            mtime_ns: self.mtime_ns,
            mime_type: text_of(self.mime_type),
            content_hash: self.content_hash@,
        }
    }
}

/// A file observed by the scan in progress. Only a complete entry counts.
#[derive(Debug)]
pub struct StageEntry {
    pub facts: Facts,
    pub complete: bool,
}

/// A file the baseline knows of.
#[derive(Debug)]
pub struct FileRow {
    pub facts: Facts,
    pub presence: Presence,
    /// The scan that supplied the facts.
    pub metadata_from_scan_id: i64,
    pub deleted_in_scan_id: Option<i64>,
}

#[verifier::ext_equal]
pub struct FileView {
    pub facts: FactsView,
    pub presence: Presence,
    pub metadata_from_scan_id: i64,
    pub deleted_in_scan_id: Option<i64>,
}

impl View for FileRow {
    type V = FileView;

    open spec fn view(&self) -> FileView {
        FileView {
            facts: self.facts@,
            presence: self.presence,
            metadata_from_scan_id: self.metadata_from_scan_id,
            deleted_in_scan_id: self.deleted_in_scan_id,
        }
    }
}

#[derive(Debug, Clone, Copy, PartialEq, Eq, Structural)]
pub enum ChangeKind {
    Added,
    Updated,
    Deleted,
}

impl ChangeKind {
    /// The word that stands for this kind in the catalogue.
    pub open spec fn word(self) -> Seq<char> {
        match self {
            ChangeKind::Added => "added"@,
            ChangeKind::Updated => "updated"@,
            ChangeKind::Deleted => "deleted"@,
        }
    }

    pub fn as_str(&self) -> (r: &'static str)
        ensures
            r@ == self.word(),
    {
        match self {
            ChangeKind::Added => "added",
            ChangeKind::Updated => "updated",
            ChangeKind::Deleted => "deleted",
        }
    }
}

/// One change that a completed scan records about one path.
#[derive(Debug)]
pub struct Change {
    pub path: Vec<u8>,
    pub kind: ChangeKind,
    pub field_mask: i64,
    pub old: Option<Fingerprint>,
    pub new: Option<Fingerprint>,
}

#[verifier::ext_equal]
pub struct ChangeView {
    pub path: Seq<u8>,
    pub kind: ChangeKind,
    pub field_mask: i64,
    pub old: Option<FingerprintView>,
    pub new: Option<FingerprintView>,
}

pub open spec fn fingerprint_of(c: Option<Fingerprint>) -> Option<FingerprintView> {
    match c {
        Some(c) => Some(c@),
        None => None,
    }
}

impl View for Change {
    type V = ChangeView;

    open spec fn view(&self) -> ChangeView {
        ChangeView {
            path: self.path@,
            kind: self.kind,
            field_mask: self.field_mask,
            old: fingerprint_of(self.old),
            new: fingerprint_of(self.new),
        }
    }
}

/// A problem met during a scan. `rel` is absent when no path was involved, and
/// empty when the path is the base itself.
#[derive(Debug)]
pub struct ErrorRow {
    pub rel: Option<Vec<u8>>,
    pub stage: String,
    pub code: String,
    pub message: String,
}

#[verifier::ext_equal]
pub struct ErrorView {
    pub rel: Option<Seq<u8>>,
    pub stage: Seq<char>,
    pub code: Seq<char>,
    pub message: Seq<char>,
}

pub open spec fn bytes_of(b: Option<Vec<u8>>) -> Option<Seq<u8>> {
    match b {
        Some(v) => Some(v@),
        None => None,
    }
}

impl View for ErrorRow {
    type V = ErrorView;

    open spec fn view(&self) -> ErrorView {
        ErrorView {
            rel: bytes_of(self.rel),
            stage: self.stage@,
            code: self.code@,
            message: self.message@,
        }
    }
}

/// The rows of a problem list, in order.
pub open spec fn error_views(errors: Seq<ErrorRow>) -> Seq<ErrorView> {
    errors.map_values(|e: ErrorRow| e@)
}

/// The bits of a change row, one for each field, and all of them for an addition.
pub proof fn law_field_bits()
    ensures
        F_SIZE == 1,
        F_MTIME == 2,
        F_MIME == 4,
        F_HASH == 8,
        F_PRESENCE == 16,
        F_ADDED == 31,
{
}

/// The words of the catalogue for what is known about a path, no two alike.
pub proof fn law_presence_words(a: Presence, b: Presence)
    ensures
        Presence::Present.word() == "present"@,
        Presence::Unreadable.word() == "unreadable"@,
        Presence::Deleted.word() == "deleted"@,
        a.word() == b.word() ==> a == b,
{
    reveal_strlit("present");
    reveal_strlit("unreadable");
    reveal_strlit("deleted");
    assert("present"@.len() == 7 && "present"@[0] == 'p');
    assert("unreadable"@.len() == 10);
    assert("deleted"@.len() == 7 && "deleted"@[0] == 'd');
}

/// The words of the catalogue for the kinds of change, no two alike.
pub proof fn law_change_words(a: ChangeKind, b: ChangeKind)
    ensures
        ChangeKind::Added.word() == "added"@,
        ChangeKind::Updated.word() == "updated"@,
        ChangeKind::Deleted.word() == "deleted"@,
        a.word() == b.word() ==> a == b,
{
    reveal_strlit("added");
    reveal_strlit("updated");
    reveal_strlit("deleted");
    assert("added"@.len() == 5);
    assert("updated"@.len() == 7 && "updated"@[0] == 'u');
    assert("deleted"@.len() == 7 && "deleted"@[0] == 'd');
}

/// An optional text shows its characters, and its absence as absence; so does an
/// optional byte string.
pub proof fn law_options_show_what_they_hold(t: String, b: Vec<u8>, c: Fingerprint)
    ensures
        text_of(Some(t)) == Some(t@),
        text_of(None) is None,
        bytes_of(Some(b)) == Some(b@),
        bytes_of(None) is None,
        fingerprint_of(Some(c)) == Some(c@),
        fingerprint_of(None) is None,
{
}

/// What is said of a file shows in full, and so do the four fields of it that are
/// compared.
pub proof fn law_facts_show_in_full(f: Facts, g: Fingerprint)
    ensures
        f@.parent == text_of(f.parent),
        f@.name == f.name@,
        f@.extension == text_of(f.extension),
        f@.size_bytes == f.size_bytes,
        f@.mtime_ns == f.mtime_ns,
        f@.created_ns == f.created_ns,
        f@.mime_type == text_of(f.mime_type),
        f@.mime_source == f.mime_source@,
        f@.content_hash == f.content_hash@,
        f@.hash_status == f.hash_status@,
        f@.fingerprint().size_bytes == f.size_bytes,
        f@.fingerprint().mtime_ns == f.mtime_ns,
        f@.fingerprint().mime_type == text_of(f.mime_type),
        f@.fingerprint().content_hash == f.content_hash@,
        g@.size_bytes == g.size_bytes,
        g@.mtime_ns == g.mtime_ns,
        g@.mime_type == text_of(g.mime_type),
        g@.content_hash == g.content_hash@,
{
}

/// Rows of the baseline, change rows and problems show in full.
pub proof fn law_rows_show_in_full(f: FileRow, c: Change, e: ErrorRow)
    ensures
        f@.facts == f.facts@,
        f@.presence == f.presence,
        f@.metadata_from_scan_id == f.metadata_from_scan_id,
        f@.deleted_in_scan_id == f.deleted_in_scan_id,
        c@.path == c.path@,
        c@.kind == c.kind,
        c@.field_mask == c.field_mask,
        c@.old == fingerprint_of(c.old),
        c@.new == fingerprint_of(c.new),
        e@.rel == bytes_of(e.rel),
        e@.stage == e.stage@,
        e@.code == e.code@,
        e@.message == e.message@,
{
}

/// Problems show one by one, in order.
pub proof fn law_problems_show_one_by_one(errors: Seq<ErrorRow>)
    ensures
        error_views(errors).len() == errors.len(),
        forall|i: int|
            0 <= i < errors.len() ==> #[trigger] error_views(errors)[i] == errors[i]@,
{
}

} // verus!
