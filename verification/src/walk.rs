//! Traversal and the three inclusion policies.
//!
//! The walk is a dialogue. [`Walker::run`] is told what the filesystem answered
//! and says what to do next; whoever drives it opens directories, reads entries,
//! stats them and passes messages on. One directory is open at a time: its
//! subdirectories are only remembered until its listing has ended, so the depth
//! of a tree costs no descriptors.

use std::collections::HashSet;

use vstd::prelude::*;
use vstd::string::*;

use crate::config::{Config, Policy};
use crate::rows::{bytes_of, copy_bytes};
use crate::text::same_text;

verus! {

/// The codes that mean a path's contents are unknown, rather than known-absent.
/// This is the only distinction promotion cares about below the base: an
/// unreadable path leaves the baseline under it untrustworthy and so shields it,
/// while a path that merely vanished leaves nothing in doubt.
pub const UNREADABLE_CODES: [&'static str; 4] = [
    "permission_denied",
    "io_error",
    "invalid_data",
    "resource_exhausted",
];

/// `code` is one of [`UNREADABLE_CODES`].
pub open spec fn unreadable_code(code: Seq<char>) -> bool {
    ||| code == "permission_denied"@
    ||| code == "io_error"@
    ||| code == "invalid_data"@
    ||| code == "resource_exhausted"@
}

/// Whether `code` means that a path's contents are unknown.
pub fn is_unreadable_code(code: &str) -> (r: bool)
    ensures
        r == unreadable_code(code@),
{
    let mut i: usize = 0;
    while i < 4
        invariant
            i <= 4,
            forall|k: int| 0 <= k < i ==> code@ != (#[trigger] UNREADABLE_CODES@[k])@,
        decreases 4 - i,
    {
        if same_text(code, UNREADABLE_CODES[i]) {
            return true;
        }
        i = i + 1;
    }
    assert(UNREADABLE_CODES@[0]@ == "permission_denied"@);
    assert(UNREADABLE_CODES@[1]@ == "io_error"@);
    assert(UNREADABLE_CODES@[2]@ == "invalid_data"@);
    assert(UNREADABLE_CODES@[3]@ == "resource_exhausted"@);
    false
}

/// What kind of failure the operating system reported.
#[derive(Debug, Clone, Copy, PartialEq, Eq, Structural)]
pub enum FailureKind {
    NotFound,
    PermissionDenied,
    InvalidData,
    Other,
}

/// A failed filesystem operation.
#[derive(Debug)]
pub struct IoFailure {
    pub raw_os_error: Option<i32>,
    pub kind: FailureKind,
    pub message: String,
}

#[verifier::ext_equal]
pub struct FailureView {
    pub raw_os_error: Option<i32>,
    pub kind: FailureKind,
    pub message: Seq<char>,
}

impl View for IoFailure {
    type V = FailureView;

    open spec fn view(&self) -> FailureView {
        FailureView {
            raw_os_error: self.raw_os_error,
            kind: self.kind,
            message: self.message@,
        }
    }
}

/// `rustix`'s `Errno::MFILE` and `Errno::NFILE` as raw error numbers: the process,
/// and the system, out of descriptors. They are 24 and 23 on Linux.
#[verifier::external_body]
fn descriptor_errors() -> (r: (i32, i32))
    ensures
        r.0 == 24,
        r.1 == 23,
{
    (rustix::io::Errno::MFILE.raw_os_error(), rustix::io::Errno::NFILE.raw_os_error())
}

/// The code a failure is recorded under. Running out of descriptors is nothing
/// about the path; it has a code of its own because it is the only unreadable one
/// that a rerun can clear with nothing on disk having changed.
pub open spec fn code_of(e: FailureView) -> Seq<char> {
    if e.raw_os_error == Some(24i32) || e.raw_os_error == Some(23i32) {
        "resource_exhausted"@
    } else {
        match e.kind {
            FailureKind::NotFound => "not_found"@,
            FailureKind::PermissionDenied => "permission_denied"@,
            FailureKind::InvalidData => "invalid_data"@,
            FailureKind::Other => "io_error"@,
        }
    }
}

pub fn error_code(e: &IoFailure) -> (r: &'static str)
    ensures
        r@ == code_of(e@),
{
    let (process_full, system_full) = descriptor_errors();
    if let Some(raw) = e.raw_os_error {
        if raw == process_full || raw == system_full {
            return "resource_exhausted";
        }
    }
    match e.kind {
        FailureKind::NotFound => "not_found",
        FailureKind::PermissionDenied => "permission_denied",
        FailureKind::InvalidData => "invalid_data",
        FailureKind::Other => "io_error",
    }
}

/// A timestamp as a catalogue holds it, from its distance to the epoch in
/// nanoseconds. A time before the epoch, or none at all, has no such distance.
pub fn system_time_ns(since_epoch: Option<u128>) -> (r: Option<i64>)
    ensures
        r == (match since_epoch {
            Some(ns) => Some(ns as i64),
            None => None,
        }),
{
    match since_epoch {
        Some(ns) => Some(
            #[verifier::truncate]
            (ns as i64),
        ),
        None => None,
    }
}

/// What an entry is.
#[derive(Debug, Clone, Copy, PartialEq, Eq, Structural)]
pub enum EntryKind {
    File,
    Dir,
    Symlink,
    /// Sockets, FIFOs and devices: not eligible.
    Other,
}

/// What stat says of an entry. Times are nanoseconds since the epoch.
#[derive(Debug, Clone, Copy, PartialEq, Eq, Structural)]
pub struct Meta {
    pub kind: EntryKind,
    pub dev: u64,
    pub ino: u64,
    pub len: u64,
    pub modified: Option<u128>,
    pub created: Option<u128>,
}

/// A regular file the walk found eligible.
#[derive(Debug)]
pub struct Observed {
    pub path: Vec<u8>,
    pub rel: Vec<u8>,
    pub size_bytes: i64,
    pub mtime_ns: i64,
    pub created_ns: Option<i64>,
}

#[verifier::ext_equal]
pub struct ObservedView {
    pub path: Seq<u8>,
    pub rel: Seq<u8>,
    pub size_bytes: i64,
    pub mtime_ns: i64,
    pub created_ns: Option<i64>,
}

impl View for Observed {
    type V = ObservedView;

    open spec fn view(&self) -> ObservedView {
        ObservedView {
            path: self.path@,
            rel: self.rel@,
            size_bytes: self.size_bytes,
            mtime_ns: self.mtime_ns,
            created_ns: self.created_ns,
        }
    }
}

/// What the walk passes on.
#[derive(Debug)]
pub enum WalkMsg {
    Item(Observed),
    Error { rel: Option<Vec<u8>>, code: &'static str, message: String },
}

#[verifier::ext_equal]
pub enum MsgView {
    Item(ObservedView),
    Error { rel: Option<Seq<u8>>, code: Seq<char>, message: Seq<char> },
}

impl View for WalkMsg {
    type V = MsgView;

    open spec fn view(&self) -> MsgView {
        match *self {
            WalkMsg::Item(o) => MsgView::Item(o@),
            WalkMsg::Error { rel, code, message } => MsgView::Error {
                rel: bytes_of(rel),
                code: code@,
                message: message@,
            },
        }
    }
}

/// The message for a failure at a path.
pub open spec fn complaint(rel: Seq<u8>, e: FailureView) -> MsgView {
    MsgView::Error { rel: Some(rel), code: code_of(e), message: e.message }
}

fn complain(rel: Vec<u8>, e: IoFailure) -> (r: WalkMsg)
    ensures
        r@ == complaint(rel@, e@),
{
    let code = error_code(&e);
    WalkMsg::Error { rel: Some(rel), code, message: e.message }
}

/// The message for a base that cannot be examined at all. It travels as a
/// problem on the empty relative path, like a failed listing of the base: that is
/// what keeps an unread base from passing for an empty tree.
pub fn unstatable_base(e: &IoFailure) -> (r: WalkMsg)
    ensures
        r@ == (MsgView::Error {
            rel: Some(Seq::<u8>::empty()),
            code: code_of(e@),
            message: "cannot stat base: "@ + e.message@,
        }),
{
    let mut message = "cannot stat base: ".to_owned();
    message.append(e.message.as_str());
    let rel: Vec<u8> = Vec::new();
    assert(rel@ =~= Seq::<u8>::empty());
    WalkMsg::Error { rel: Some(rel), code: error_code(e), message }
}

/// Every count the scan keeps. The walk fills the discovery and exclusion half,
/// the hash workers the reuse half. A count past the largest value wraps.
#[derive(Debug, Clone, Copy, PartialEq, Eq, Structural)]
pub struct Counters {
    pub hidden: u64,
    pub mount: u64,
    pub symlink: u64,
    pub discovered_files: u64,
    pub discovered_bytes: u64,
    pub hashed: u64,
    pub hashed_bytes: u64,
    pub reused_stage: u64,
    pub reused_baseline: u64,
    pub changed_during_hash: u64,
    /// Directories whose listing failed. Counted apart from every other error
    /// because it is the only one that hides an unknown quantity: nothing
    /// downstream can count files that were never enumerated.
    pub unreadable_dirs: u64,
}

pub open spec fn no_counts() -> Counters {
    Counters {
        hidden: 0,
        mount: 0,
        symlink: 0,
        discovered_files: 0,
        discovered_bytes: 0,
        hashed: 0,
        hashed_bytes: 0,
        reused_stage: 0,
        reused_baseline: 0,
        changed_during_hash: 0,
        unreadable_dirs: 0,
    }
}

impl Default for Counters {
    fn default() -> (r: Counters)
        ensures
            r == no_counts(),
    {
        Counters {
            hidden: 0,
            mount: 0,
            symlink: 0,
            discovered_files: 0,
            discovered_bytes: 0,
            hashed: 0,
            hashed_bytes: 0,
            reused_stage: 0,
            reused_baseline: 0,
            changed_during_hash: 0,
            unreadable_dirs: 0,
        }
    }
}

/// The counts of two parts of a scan, taken together.
pub open spec fn summed(a: Counters, b: Counters) -> Counters {
    Counters {
        hidden: a.hidden.wrapping_add(b.hidden),
        mount: a.mount.wrapping_add(b.mount),
        symlink: a.symlink.wrapping_add(b.symlink),
        discovered_files: a.discovered_files.wrapping_add(b.discovered_files),
        discovered_bytes: a.discovered_bytes.wrapping_add(b.discovered_bytes),
        hashed: a.hashed.wrapping_add(b.hashed),
        hashed_bytes: a.hashed_bytes.wrapping_add(b.hashed_bytes),
        reused_stage: a.reused_stage.wrapping_add(b.reused_stage),
        reused_baseline: a.reused_baseline.wrapping_add(b.reused_baseline),
        changed_during_hash: a.changed_during_hash.wrapping_add(b.changed_during_hash),
        unreadable_dirs: a.unreadable_dirs.wrapping_add(b.unreadable_dirs),
    }
}

impl Counters {
    /// These counts and another part's.
    pub fn with(&self, other: &Counters) -> (r: Counters)
        ensures
            r == summed(*self, *other),
    {
        Counters {
            hidden: self.hidden.wrapping_add(other.hidden),
            mount: self.mount.wrapping_add(other.mount),
            symlink: self.symlink.wrapping_add(other.symlink),
            discovered_files: self.discovered_files.wrapping_add(other.discovered_files),
            discovered_bytes: self.discovered_bytes.wrapping_add(other.discovered_bytes),
            hashed: self.hashed.wrapping_add(other.hashed),
            hashed_bytes: self.hashed_bytes.wrapping_add(other.hashed_bytes),
            reused_stage: self.reused_stage.wrapping_add(other.reused_stage),
            reused_baseline: self.reused_baseline.wrapping_add(other.reused_baseline),
            changed_during_hash: self.changed_during_hash.wrapping_add(other.changed_during_hash),
            unreadable_dirs: self.unreadable_dirs.wrapping_add(other.unreadable_dirs),
        }
    }
}

/// A directory whose descent waits until its parent's listing has ended.
pub struct Pending {
    rel: Vec<u8>,
    dev: u64,
    ino: u64,
}

#[verifier::ext_equal]
pub struct PendingView {
    pub rel: Seq<u8>,
    pub dev: u64,
    pub ino: u64,
}

impl View for Pending {
    type V = PendingView;

    closed spec fn view(&self) -> PendingView {
        PendingView { rel: self.rel@, dev: self.dev, ino: self.ino }
    }
}

/// One number for the identity of a directory.
pub open spec fn identity(dev: u64, ino: u64) -> u128 {
    (dev * 0x1_0000_0000_0000_0000 + ino) as u128
}

/// Two directories have the same number exactly when they are the same one.
pub proof fn lemma_identity(dev1: u64, ino1: u64, dev2: u64, ino2: u64)
    ensures
        identity(dev1, ino1) == identity(dev2, ino2) <==> (dev1 == dev2 && ino1 == ino2),
{
}

fn identify(dev: u64, ino: u64) -> (r: u128)
    ensures
        r == identity(dev, ino),
{
    (dev as u128) * 0x1_0000_0000_0000_0000 + (ino as u128)
}

/// What the walk is waiting for.
#[derive(Debug, Clone, Copy, PartialEq, Eq, Structural)]
pub enum Phase {
    /// Nothing has been asked for yet.
    Idle,
    /// A directory is being opened.
    Opening,
    /// The next entry of the open directory is being read.
    Listing,
    /// An entry is being examined.
    Stating,
    /// The target of a link is being examined.
    Following,
    /// A message is being passed on; the listing goes on after it.
    Reporting,
    /// A message is being passed on; no directory is open.
    Leaving,
    Done,
}

/// What the filesystem, or whoever takes the messages, answered.
#[derive(Debug)]
pub enum WalkEvent {
    Start,
    Opened,
    Name(Vec<u8>),
    End,
    Meta(Meta),
    Failed(IoFailure),
    /// Whether the message was taken.
    Sent(bool),
}

#[verifier::ext_equal]
pub enum EventView {
    Start,
    Opened,
    Name(Seq<u8>),
    End,
    Meta(Meta),
    Failed(FailureView),
    Sent(bool),
}

impl View for WalkEvent {
    type V = EventView;

    open spec fn view(&self) -> EventView {
        match *self {
            WalkEvent::Start => EventView::Start,
            WalkEvent::Opened => EventView::Opened,
            WalkEvent::Name(n) => EventView::Name(n@),
            WalkEvent::End => EventView::End,
            WalkEvent::Meta(m) => EventView::Meta(m),
            WalkEvent::Failed(e) => EventView::Failed(e@),
            WalkEvent::Sent(ok) => EventView::Sent(ok),
        }
    }
}

/// What to do next. Paths are relative to the base.
#[derive(Debug)]
pub enum WalkAction {
    /// Open this directory. None is open when this is asked for.
    Open(Vec<u8>),
    /// Read the next entry of the open directory.
    Next,
    /// Examine this entry without following a link.
    Stat(Vec<u8>),
    /// Examine what this link points at.
    Follow(Vec<u8>),
    /// Pass this message on.
    Send(WalkMsg),
    Finish,
}

#[verifier::ext_equal]
pub enum ActionView {
    Open(Seq<u8>),
    Next,
    Stat(Seq<u8>),
    Follow(Seq<u8>),
    Send(MsgView),
    Finish,
}

impl View for WalkAction {
    type V = ActionView;

    open spec fn view(&self) -> ActionView {
        match *self {
            WalkAction::Open(p) => ActionView::Open(p@),
            WalkAction::Next => ActionView::Next,
            WalkAction::Stat(p) => ActionView::Stat(p@),
            WalkAction::Follow(p) => ActionView::Follow(p@),
            WalkAction::Send(m) => ActionView::Send(m@),
            WalkAction::Finish => ActionView::Finish,
        }
    }
}

/// A name inside a directory.
pub open spec fn child(dir: Seq<u8>, name: Seq<u8>) -> Seq<u8> {
    if dir.len() == 0 {
        name
    } else {
        dir.push(0x2f) + name
    }
}

/// A relative path put under the base.
pub open spec fn under(base: Seq<u8>, rel: Seq<u8>) -> Seq<u8> {
    if base.len() == 0 || base.last() == 0x2f {
        base + rel
    } else {
        base.push(0x2f) + rel
    }
}

fn name_inside(dir: &[u8], name: Vec<u8>) -> (r: Vec<u8>)
    ensures
        r@ == child(dir@, name@),
{
    if dir.len() == 0 {
        return name;
    }
    let mut r = copy_bytes(dir);
    r.push(0x2f);
    r.extend_from_slice(name.as_slice());
    assert(r@ =~= child(dir@, name@));
    r
}

fn path_under(base: &Vec<u8>, rel: &[u8]) -> (r: Vec<u8>)
    ensures
        r@ == under(base@, rel@),
{
    let mut r = copy_bytes(base.as_slice());
    if base.len() > 0 && base[base.len() - 1] != 0x2f {
        r.push(0x2f);
    }
    r.extend_from_slice(rel);
    assert(r@ =~= under(base@, rel@));
    r
}

/// Where a walk stands.
#[verifier::ext_equal]
pub struct WalkState {
    pub base: Seq<u8>,
    pub policy: Policy,
    pub base_dev: u64,
    /// Directories entered so far, when links are followed.
    pub visited: Set<u128>,
    /// Directories still to enter, the next one last.
    pub stack: Seq<PendingView>,
    /// Subdirectories found in the listing in progress.
    pub level: Seq<PendingView>,
    /// The directory being opened or listed.
    pub dir: Seq<u8>,
    /// The entry being examined.
    pub entry: Seq<u8>,
    pub phase: Phase,
    pub counts: Counters,
    /// Nobody takes messages any more.
    pub gone: bool,
}

pub open spec fn finished(s: WalkState) -> (WalkState, ActionView) {
    (WalkState { phase: Phase::Done, ..s }, ActionView::Finish)
}

/// Enters the next directory that may be entered: on the base's filesystem, when
/// mounts are skipped, and never entered before, when links are followed.
pub open spec fn descend(s: WalkState) -> (WalkState, ActionView)
    decreases s.stack.len(),
{
    if s.stack.len() == 0 {
        finished(s)
    } else {
        let top = s.stack.last();
        let rest = WalkState { stack: s.stack.drop_last(), ..s };
        if s.policy.skip_mount_boundaries && top.dev != s.base_dev {
            descend(
                WalkState {
                    counts: Counters { mount: s.counts.mount.wrapping_add(1), ..s.counts },
                    ..rest
                },
            )
        } else if s.policy.follow_symlinks && s.visited.contains(identity(top.dev, top.ino)) {
            descend(rest)
        } else {
            (
                WalkState {
                    visited: if s.policy.follow_symlinks {
                        s.visited.insert(identity(top.dev, top.ino))
                    } else {
                        s.visited
                    },
                    dir: top.rel,
                    phase: Phase::Opening,
                    ..rest
                },
                ActionView::Open(top.rel),
            )
        }
    }
}

/// Goes on to the next directory, unless the walk is to stop.
pub open spec fn leave(s: WalkState, stop: bool) -> (WalkState, ActionView) {
    if stop {
        finished(s)
    } else {
        descend(s)
    }
}

/// The counts after a listing failed, in whole or in part.
pub open spec fn gap_counted(c: Counters, e: FailureView) -> Counters {
    if unreadable_code(code_of(e)) {
        Counters { unreadable_dirs: c.unreadable_dirs.wrapping_add(1), ..c }
    } else {
        c
    }
}

/// The observation of an eligible file.
pub open spec fn observation(base: Seq<u8>, rel: Seq<u8>, m: Meta) -> ObservedView {
    ObservedView {
        path: under(base, rel),
        rel,
        size_bytes: m.len as i64,
        mtime_ns: match m.modified {
            Some(ns) => ns as i64,
            None => 0,
        },
        created_ns: match m.created {
            Some(ns) => Some(ns as i64),
            None => None,
        },
    }
}

/// A regular file was found. The mount policy applies however it was reached.
pub open spec fn file_found(s: WalkState, m: Meta) -> (WalkState, ActionView) {
    let back = WalkState { phase: Phase::Listing, ..s };
    if s.policy.skip_mount_boundaries && m.dev != s.base_dev {
        (
            WalkState {
                counts: Counters { mount: s.counts.mount.wrapping_add(1), ..s.counts },
                ..back
            },
            ActionView::Next,
        )
    } else {
        (
            WalkState {
                phase: Phase::Reporting,
                counts: Counters {
                    discovered_files: s.counts.discovered_files.wrapping_add(1),
                    discovered_bytes: s.counts.discovered_bytes.wrapping_add(
                        (m.len as i64) as u64,
                    ),
                    ..s.counts
                },
                ..s
            },
            ActionView::Send(MsgView::Item(observation(s.base, s.entry, m))),
        )
    }
}

/// A directory was found: it is remembered, in the order of the listing.
pub open spec fn dir_found(s: WalkState, m: Meta) -> (WalkState, ActionView) {
    (
        WalkState {
            phase: Phase::Listing,
            level: s.level.push(PendingView { rel: s.entry, dev: m.dev, ino: m.ino }),
            ..s
        },
        ActionView::Next,
    )
}

/// What follows from one answer.
pub open spec fn step(s: WalkState, e: EventView, cancelled: bool) -> (WalkState, ActionView) {
    let stop = cancelled || s.gone;
    match (s.phase, e) {
        (Phase::Idle, EventView::Start) => if stop {
            finished(s)
        } else {
            (
                WalkState { dir: Seq::empty(), phase: Phase::Opening, ..s },
                ActionView::Open(Seq::empty()),
            )
        },
        (Phase::Opening, EventView::Opened) => (
            WalkState { phase: Phase::Listing, ..s },
            ActionView::Next,
        ),
        (Phase::Opening, EventView::Failed(f)) => (
            WalkState { phase: Phase::Leaving, counts: gap_counted(s.counts, f), ..s },
            ActionView::Send(complaint(s.dir, f)),
        ),
        (Phase::Listing, EventView::Name(name)) => if stop {
            finished(s)
        } else if s.policy.skip_hidden && name.len() > 0 && name[0] == 0x2e {
            (
                WalkState {
                    counts: Counters { hidden: s.counts.hidden.wrapping_add(1), ..s.counts },
                    ..s
                },
                ActionView::Next,
            )
        } else {
            (
                WalkState { phase: Phase::Stating, entry: child(s.dir, name), ..s },
                ActionView::Stat(child(s.dir, name)),
            )
        },
        (Phase::Listing, EventView::Failed(f)) => if stop {
            finished(s)
        } else {
            (
                WalkState { phase: Phase::Reporting, counts: gap_counted(s.counts, f), ..s },
                ActionView::Send(complaint(s.dir, f)),
            )
        },
        (Phase::Listing, EventView::End) => leave(
            WalkState { stack: s.stack + s.level.reverse(), level: Seq::empty(), ..s },
            stop,
        ),
        (Phase::Stating, EventView::Meta(m)) => match m.kind {
            EntryKind::Symlink => if s.policy.follow_symlinks {
                (WalkState { phase: Phase::Following, ..s }, ActionView::Follow(s.entry))
            } else {
                (
                    WalkState {
                        phase: Phase::Listing,
                        counts: Counters { symlink: s.counts.symlink.wrapping_add(1), ..s.counts },
                        ..s
                    },
                    ActionView::Next,
                )
            },
            EntryKind::Dir => dir_found(s, m),
            EntryKind::File => file_found(s, m),
            EntryKind::Other => (WalkState { phase: Phase::Listing, ..s }, ActionView::Next),
        },
        (Phase::Following, EventView::Meta(m)) => match m.kind {
            EntryKind::Dir => dir_found(s, m),
            EntryKind::File => file_found(s, m),
            _ => (WalkState { phase: Phase::Listing, ..s }, ActionView::Next),
        },
        (Phase::Stating, EventView::Failed(f)) => (
            WalkState { phase: Phase::Reporting, ..s },
            ActionView::Send(complaint(s.entry, f)),
        ),
        (Phase::Following, EventView::Failed(f)) => (
            WalkState { phase: Phase::Reporting, ..s },
            ActionView::Send(complaint(s.entry, f)),
        ),
        (Phase::Reporting, EventView::Sent(ok)) => (
            WalkState { phase: Phase::Listing, gone: s.gone || !ok, ..s },
            ActionView::Next,
        ),
        (Phase::Leaving, EventView::Sent(ok)) => leave(
            WalkState { gone: s.gone || !ok, ..s },
            stop || !ok,
        ),
        _ => finished(s),
    }
}

/// A walk in progress.
pub struct Walker {
    base: Vec<u8>,
    policy: Policy,
    base_dev: u64,
    visited: HashSet<u128>,
    stack: Vec<Pending>,
    level: Vec<Pending>,
    dir: Vec<u8>,
    entry: Vec<u8>,
    phase: Phase,
    counts: Counters,
    gone: bool,
}

pub open spec fn pending_views(p: Seq<Pending>) -> Seq<PendingView> {
    p.map_values(|d: Pending| d@)
}

impl View for Walker {
    type V = WalkState;

    closed spec fn view(&self) -> WalkState {
        WalkState {
            base: self.base@,
            policy: self.policy,
            base_dev: self.base_dev,
            visited: self.visited@,
            stack: pending_views(self.stack@),
            level: pending_views(self.level@),
            dir: self.dir@,
            entry: self.entry@,
            phase: self.phase,
            counts: self.counts,
            gone: self.gone,
        }
    }
}

impl Walker {
    /// A walk of `base`, which lies on the filesystem `base_dev`.
    pub fn new(base: Vec<u8>, config: &Config, base_dev: u64) -> (r: Walker)
        ensures
            r@ == (WalkState {
                base: base@,
                policy: config@.policy,
                base_dev,
                visited: Set::empty(),
                stack: Seq::empty(),
                level: Seq::empty(),
                dir: Seq::empty(),
                entry: Seq::empty(),
                phase: Phase::Idle,
                counts: no_counts(),
                gone: false,
            }),
    {
        broadcast use vstd::std_specs::hash::group_hash_axioms;

        let r = Walker {
            base,
            policy: config.policy(),
            base_dev,
            visited: HashSet::new(),
            stack: Vec::new(),
            level: Vec::new(),
            dir: Vec::new(),
            entry: Vec::new(),
            phase: Phase::Idle,
            counts: Counters::default(),
            gone: false,
        };
        assert(pending_views(r.stack@) =~= Seq::empty());
        assert(pending_views(r.level@) =~= Seq::empty());
        assert(r.visited@ =~= Set::empty());
        assert(r.dir@ =~= Seq::empty());
        assert(r.entry@ =~= Seq::empty());
        r
    }

    /// The counts so far.
    pub fn counts(&self) -> (r: Counters)
        ensures
            r == self@.counts,
    {
        self.counts
    }

    /// Whether the walk is to stop.
    fn should_stop(&self, cancelled: bool) -> (r: bool)
        ensures
            r == (cancelled || self@.gone),
    {
        cancelled || self.gone
    }

    /// Takes an answer in and says what to do next. An answer to something that
    /// was not asked ends the walk.
    pub fn run(&mut self, event: WalkEvent, cancelled: bool) -> (r: WalkAction)
        ensures
            (final(self)@, r@) == step(old(self)@, event@, cancelled),
    {
        let stop: bool = self.should_stop(cancelled);
        match (self.phase, event) {
            (Phase::Idle, WalkEvent::Start) => {
                if stop {
                    return self.finish();
                }
                self.dir = Vec::new();
                self.phase = Phase::Opening;
                let top: Vec<u8> = Vec::new();
                assert(top@ =~= Seq::<u8>::empty());
                assert(self.dir@ =~= Seq::<u8>::empty());
                WalkAction::Open(top)
            },
            (Phase::Opening, WalkEvent::Opened) => {
                self.phase = Phase::Listing;
                WalkAction::Next
            },
            (Phase::Opening, WalkEvent::Failed(e)) => {
                self.phase = Phase::Leaving;
                self.unlistable(e)
            },
            (Phase::Listing, WalkEvent::Name(name)) => {
                if stop {
                    return self.finish();
                }
                if self.policy.skip_hidden && name.len() > 0 && name[0] == 0x2e {
                    self.counts.hidden = self.counts.hidden.wrapping_add(1);
                    return WalkAction::Next;
                }
                self.entry = name_inside(self.dir.as_slice(), name);
                self.phase = Phase::Stating;
                WalkAction::Stat(copy_bytes(self.entry.as_slice()))
            },
            (Phase::Listing, WalkEvent::Failed(e)) => {
                if stop {
                    return self.finish();
                }
                self.phase = Phase::Reporting;
                self.unlistable(e)
            },
            (Phase::Listing, WalkEvent::End) => {
                self.unfold_level();
                self.leave(stop)
            },
            (Phase::Stating, WalkEvent::Meta(m)) => {
                match m.kind {
                    EntryKind::Symlink => {
                        if self.policy.follow_symlinks {
                            self.phase = Phase::Following;
                            return WalkAction::Follow(copy_bytes(self.entry.as_slice()));
                        }
                        self.counts.symlink = self.counts.symlink.wrapping_add(1);
                        self.phase = Phase::Listing;
                        WalkAction::Next
                    },
                    EntryKind::Dir => self.visit_dir(&m),
                    EntryKind::File => self.visit_file(&m),
                    EntryKind::Other => {
                        self.phase = Phase::Listing;
                        WalkAction::Next
                    },
                }
            },
            (Phase::Following, WalkEvent::Meta(m)) => {
                match m.kind {
                    EntryKind::Dir => self.visit_dir(&m),
                    EntryKind::File => self.visit_file(&m),
                    _ => {
                        self.phase = Phase::Listing;
                        WalkAction::Next
                    },
                }
            },
            (Phase::Stating, WalkEvent::Failed(e)) => {
                self.phase = Phase::Reporting;
                WalkAction::Send(complain(copy_bytes(self.entry.as_slice()), e))
            },
            (Phase::Following, WalkEvent::Failed(e)) => {
                self.phase = Phase::Reporting;
                WalkAction::Send(complain(copy_bytes(self.entry.as_slice()), e))
            },
            (Phase::Reporting, WalkEvent::Sent(ok)) => {
                self.gone = self.gone || !ok;
                self.phase = Phase::Listing;
                WalkAction::Next
            },
            (Phase::Leaving, WalkEvent::Sent(ok)) => {
                self.gone = self.gone || !ok;
                self.leave(stop || !ok)
            },
            _ => self.finish(),
        }
    }

    fn finish(&mut self) -> (r: WalkAction)
        ensures
            (final(self)@, r@) == finished(old(self)@),
    {
        self.phase = Phase::Done;
        WalkAction::Finish
    }

    /// A listing that failed, in whole or in part. Tallied on top of the ordinary
    /// problem, so that a scan can say how much of the tree it never saw.
    fn unlistable(&mut self, e: IoFailure) -> (r: WalkAction)
        ensures
            final(self)@ == (WalkState {
                counts: gap_counted(old(self)@.counts, e@),
                ..old(self)@
            }),
            r@ == ActionView::Send(complaint(old(self)@.dir, e@)),
    {
        if is_unreadable_code(error_code(&e)) {
            self.counts.unreadable_dirs = self.counts.unreadable_dirs.wrapping_add(1);
        }
        WalkAction::Send(complain(copy_bytes(self.dir.as_slice()), e))
    }

    fn visit_dir(&mut self, m: &Meta) -> (r: WalkAction)
        ensures
            (final(self)@, r@) == dir_found(old(self)@, *m),
    {
        let found = Pending { rel: copy_bytes(self.entry.as_slice()), dev: m.dev, ino: m.ino };
        self.level.push(found);
        assert(pending_views(self.level@) =~= pending_views(old(self).level@).push(found@));
        self.phase = Phase::Listing;
        WalkAction::Next
    }

    fn visit_file(&mut self, m: &Meta) -> (r: WalkAction)
        ensures
            (final(self)@, r@) == file_found(old(self)@, *m),
    {
        if self.policy.skip_mount_boundaries && m.dev != self.base_dev {
            self.counts.mount = self.counts.mount.wrapping_add(1);
            self.phase = Phase::Listing;
            return WalkAction::Next;
        }
        self.phase = Phase::Reporting;
        self.emit(m)
    }

    fn emit(&mut self, m: &Meta) -> (r: WalkAction)
        ensures
            final(self)@ == (WalkState {
                counts: Counters {
                    discovered_files: old(self)@.counts.discovered_files.wrapping_add(1),
                    discovered_bytes: old(self)@.counts.discovered_bytes.wrapping_add(
                        (m.len as i64) as u64,
                    ),
                    ..old(self)@.counts
                },
                ..old(self)@
            }),
            r@ == ActionView::Send(MsgView::Item(observation(old(self)@.base, old(self)@.entry, *m))),
    {
        let size: i64 = #[verifier::truncate]
        (m.len as i64);
        self.counts.discovered_files = self.counts.discovered_files.wrapping_add(1);
        self.counts.discovered_bytes = self.counts.discovered_bytes.wrapping_add(
            #[verifier::truncate]
            (size as u64),
        );
        let mtime_ns: i64 = match system_time_ns(m.modified) {
            Some(ns) => ns,
            None => 0,
        };
        WalkAction::Send(
            WalkMsg::Item(
                Observed {
                    path: path_under(&self.base, self.entry.as_slice()),
                    rel: copy_bytes(self.entry.as_slice()),
                    size_bytes: size,
                    mtime_ns,
                    created_ns: system_time_ns(m.created),
                },
            ),
        )
    }

    /// Moves the subdirectories of a finished listing to the stack, the first of
    /// them on top.
    fn unfold_level(&mut self)
        ensures
            final(self)@ == (WalkState {
                stack: old(self)@.stack + old(self)@.level.reverse(),
                level: Seq::empty(),
                ..old(self)@
            }),
    {
        let ghost stack0 = self.stack@;
        let ghost level0 = self.level@;
        let ghost before = self@;
        while self.level.len() > 0
            invariant
                self.level@.len() <= level0.len(),
                forall|k: int| 0 <= k < self.level@.len() ==> self.level@[k] == level0[k],
                self.stack@.len() == stack0.len() + level0.len() - self.level@.len(),
                forall|k: int| 0 <= k < stack0.len() ==> self.stack@[k] == stack0[k],
                forall|k: int|
                    stack0.len() <= k < self.stack@.len() ==> self.stack@[k] == level0[level0.len()
                        - 1 - (k - stack0.len())],
                self@ == (WalkState { stack: self@.stack, level: self@.level, ..before }),
            decreases self.level.len(),
        {
            match self.level.pop() {
                Some(d) => {
                    self.stack.push(d);
                },
                None => {},
            }
        }
        assert(pending_views(self.stack@) =~= pending_views(stack0)
            + pending_views(level0).reverse());
        assert(pending_views(self.level@) =~= Seq::empty());
    }

    fn leave(&mut self, stop: bool) -> (r: WalkAction)
        ensures
            (final(self)@, r@) == leave(old(self)@, stop),
    {
        if stop {
            return self.finish();
        }
        self.enter_dir()
    }

    /// Enters the next directory that may be entered.
    fn enter_dir(&mut self) -> (r: WalkAction)
        ensures
            (final(self)@, r@) == descend(old(self)@),
    {
        broadcast use vstd::std_specs::hash::group_hash_axioms;

        let ghost goal = descend(self@);
        loop
            invariant
                descend(self@) == goal,
                goal == descend(old(self)@),
            decreases self.stack.len(),
        {
            let ghost before = self@;
            let ghost stack0 = self.stack@;
            match self.stack.pop() {
                None => {
                    return self.finish();
                },
                Some(top) => {
                    proof {
                        assert(pending_views(self.stack@) =~= before.stack.drop_last());
                        assert(before.stack.last() == top@);
                    }
                    if self.policy.skip_mount_boundaries && top.dev != self.base_dev {
                        self.counts.mount = self.counts.mount.wrapping_add(1);
                        continue;
                    }
                    if self.policy.follow_symlinks {
                        let key: u128 = identify(top.dev, top.ino);
                        if !self.visited.insert(key) {
                            assert(self.visited@ =~= before.visited);
                            continue;
                        }
                    }
                    self.dir = copy_bytes(top.rel.as_slice());
                    self.phase = Phase::Opening;
                    return WalkAction::Open(top.rel);
                },
            }
        }
    }
}

/// The codes that leave contents unknown are these four and no other.
pub proof fn law_four_codes_leave_contents_unknown(code: Seq<char>)
    ensures
        unreadable_code(code) <==> code == "permission_denied"@ || code == "io_error"@ || code
            == "invalid_data"@ || code == "resource_exhausted"@,
        !unreadable_code("not_found"@),
        !unreadable_code("changed_during_hash"@),
{
    reveal_strlit("permission_denied");
    reveal_strlit("io_error");
    reveal_strlit("invalid_data");
    reveal_strlit("resource_exhausted");
    reveal_strlit("not_found");
    reveal_strlit("changed_during_hash");
    assert("permission_denied"@.len() == 17);
    assert("io_error"@.len() == 8);
    assert("invalid_data"@.len() == 12);
    assert("resource_exhausted"@.len() == 18);
    assert("not_found"@.len() == 9);
    assert("changed_during_hash"@.len() == 19);
}

/// A failure is recorded under the kind that the system reports, unless the process
/// or the system had run out of descriptors, which has a code of its own. Nothing but
/// a path that is not there leaves its contents known.
pub proof fn law_failures_have_codes(e: FailureView)
    ensures
        e.raw_os_error == Some(23i32) || e.raw_os_error == Some(24i32) ==> code_of(e)
            == "resource_exhausted"@,
        e.raw_os_error != Some(23i32) && e.raw_os_error != Some(24i32) ==> code_of(e) == (
        match e.kind {
            FailureKind::NotFound => "not_found"@,
            FailureKind::PermissionDenied => "permission_denied"@,
            FailureKind::InvalidData => "invalid_data"@,
            FailureKind::Other => "io_error"@,
        }),
        unreadable_code(code_of(e)) <==> e.kind != FailureKind::NotFound || e.raw_os_error == Some(
            23i32,
        ) || e.raw_os_error == Some(24i32),
{
    law_four_codes_leave_contents_unknown(code_of(e));
}

/// The path of an entry is its directory's, one separator and its name; in the base
/// it is the name. A relative path is put under the base with one separator.
pub proof fn law_paths_are_put_together(dir: Seq<u8>, name: Seq<u8>)
    ensures
        child(Seq::empty(), name) == name,
        dir.len() > 0 ==> child(dir, name) == dir + seq![0x2fu8] + name,
        dir.len() > 0 && dir.last() != 0x2f ==> under(dir, name) == dir + seq![0x2fu8] + name,
        dir.len() == 0 || dir.last() == 0x2f ==> under(dir, name) == dir + name,
{
    assert(dir.push(0x2f) + name =~= dir + seq![0x2fu8] + name);
}

/// What a walk says of a file: where it lies, and the size and the times that stat
/// gave, those before the epoch, or none, as zero or as absent.
pub proof fn law_observation_is_what_stat_said(base: Seq<u8>, rel: Seq<u8>, m: Meta)
    ensures
        observation(base, rel, m).rel == rel,
        observation(base, rel, m).path == under(base, rel),
        observation(base, rel, m).size_bytes == m.len as i64,
        observation(base, rel, m).mtime_ns == (match m.modified {
            Some(ns) => ns as i64,
            None => 0,
        }),
        m.created is None ==> observation(base, rel, m).created_ns is None,
        m.created matches Some(ns) ==> observation(base, rel, m).created_ns == Some(ns as i64),
{
}

/// A name in a listing is examined, unless hidden names are skipped and it begins
/// with a dot: then it is counted and passed over. A walk that is to stop stops.
pub proof fn law_names_are_examined_or_hidden(s: WalkState, name: Seq<u8>, cancelled: bool)
    requires
        s.phase == Phase::Listing,
    ensures
        ({
            let n = step(s, EventView::Name(name), cancelled);
            let dotted = name.len() > 0 && name[0] == 0x2e;
            &&& cancelled || s.gone ==> n.1 is Finish
            &&& !cancelled && !s.gone && s.policy.skip_hidden && dotted ==> n.1 is Next && n.0 == (
            WalkState {
                counts: Counters { hidden: s.counts.hidden.wrapping_add(1), ..s.counts },
                ..s
            })
            &&& !cancelled && !s.gone && !(s.policy.skip_hidden && dotted) ==> n.1
                == ActionView::Stat(child(s.dir, name)) && n.0 == (WalkState {
                phase: Phase::Stating,
                entry: child(s.dir, name),
                ..s
            })
        }),
{
}

/// A regular file, met as itself or through a link, is passed on and counted with its
/// size, unless mounts are skipped and it lies on another filesystem than the base:
/// then it is counted as that, and passed over.
pub proof fn law_files_are_passed_on(s: WalkState, m: Meta, cancelled: bool)
    requires
        s.phase == Phase::Stating || s.phase == Phase::Following,
        m.kind == EntryKind::File,
    ensures
        ({
            let n = step(s, EventView::Meta(m), cancelled);
            let away = s.policy.skip_mount_boundaries && m.dev != s.base_dev;
            &&& away ==> n.1 is Next && n.0 == (WalkState {
                phase: Phase::Listing,
                counts: Counters { mount: s.counts.mount.wrapping_add(1), ..s.counts },
                ..s
            })
            &&& !away ==> n.1 == ActionView::Send(
                MsgView::Item(observation(s.base, s.entry, m)),
            ) && n.0 == (WalkState {
                phase: Phase::Reporting,
                counts: Counters {
                    discovered_files: s.counts.discovered_files.wrapping_add(1),
                    discovered_bytes: s.counts.discovered_bytes.wrapping_add(
                        (m.len as i64) as u64,
                    ),
                    ..s.counts
                },
                ..s
            })
        }),
{
}

/// A directory is remembered, after those already found in the same listing. A link
/// is followed, or counted and passed over, as configured. Anything else is passed
/// over without being counted.
pub proof fn law_other_entries(s: WalkState, m: Meta, cancelled: bool)
    ensures
        ({
            let n = step(s, EventView::Meta(m), cancelled);
            let looking = s.phase == Phase::Stating || s.phase == Phase::Following;
            &&& looking && m.kind == EntryKind::Dir ==> n.1 is Next && n.0 == (WalkState {
                phase: Phase::Listing,
                level: s.level + seq![PendingView { rel: s.entry, dev: m.dev, ino: m.ino }],
                ..s
            })
            &&& s.phase == Phase::Stating && m.kind == EntryKind::Symlink
                && s.policy.follow_symlinks ==> n.1 == ActionView::Follow(s.entry) && n.0 == (
            WalkState { phase: Phase::Following, ..s })
            &&& s.phase == Phase::Stating && m.kind == EntryKind::Symlink
                && !s.policy.follow_symlinks ==> n.1 is Next && n.0 == (WalkState {
                phase: Phase::Listing,
                counts: Counters { symlink: s.counts.symlink.wrapping_add(1), ..s.counts },
                ..s
            })
            &&& looking && m.kind == EntryKind::Other ==> n.1 is Next && n.0 == (WalkState {
                phase: Phase::Listing,
                ..s
            })
            &&& s.phase == Phase::Following && m.kind == EntryKind::Symlink ==> n.1 is Next && n.0
                == (WalkState { phase: Phase::Listing, ..s })
        }),
{
    let found = PendingView { rel: s.entry, dev: m.dev, ino: m.ino };
    assert(s.level.push(found) =~= s.level + seq![found]);
}

/// Every failure is passed on: at the directory that could not be opened or read on,
/// and at the entry that could not be examined. A directory is counted as a gap where
/// the failure leaves its contents unknown.
pub proof fn law_walk_failures_are_passed_on(s: WalkState, f: FailureView, cancelled: bool)
    ensures
        ({
            let n = step(s, EventView::Failed(f), cancelled);
            let gap = code_of(f) == "permission_denied"@ || code_of(f) == "io_error"@ || code_of(f)
                == "invalid_data"@ || code_of(f) == "resource_exhausted"@;
            let counted = if gap {
                Counters {
                    unreadable_dirs: s.counts.unreadable_dirs.wrapping_add(1),
                    ..s.counts
                }
            } else {
                s.counts
            };
            let told = |p: Seq<u8>|
                ActionView::Send(
                    MsgView::Error { rel: Some(p), code: code_of(f), message: f.message },
                );
            &&& s.phase == Phase::Opening ==> n.1 == told(s.dir) && n.0 == (WalkState {
                phase: Phase::Leaving,
                counts: counted,
                ..s
            })
            &&& s.phase == Phase::Listing && !cancelled && !s.gone ==> n.1 == told(s.dir) && n.0
                == (WalkState { phase: Phase::Reporting, counts: counted, ..s })
            &&& s.phase == Phase::Stating || s.phase == Phase::Following ==> n.1 == told(s.entry)
                && n.0 == (WalkState { phase: Phase::Reporting, ..s })
        }),
{
}

/// A walk begins at the base, reads a directory that it could open entry by entry,
/// goes on reading after a message, and leaves a directory that it could not open. A
/// message that nobody takes ends it.
pub proof fn law_walk_goes_on(s: WalkState, taken: bool, cancelled: bool)
    ensures
        s.phase == Phase::Idle && !cancelled && !s.gone ==> step(s, EventView::Start, cancelled) == (
            WalkState { dir: Seq::empty(), phase: Phase::Opening, ..s },
            ActionView::Open(Seq::empty()),
        ),
        s.phase == Phase::Opening ==> step(s, EventView::Opened, cancelled) == (
            WalkState { phase: Phase::Listing, ..s },
            ActionView::Next,
        ),
        s.phase == Phase::Reporting ==> step(s, EventView::Sent(taken), cancelled) == (
            WalkState { phase: Phase::Listing, gone: s.gone || !taken, ..s },
            ActionView::Next,
        ),
        s.phase == Phase::Leaving && (cancelled || s.gone || !taken) ==> step(
            s,
            EventView::Sent(taken),
            cancelled,
        ).1 is Finish,
        s.phase == Phase::Leaving && !cancelled && !s.gone && taken ==> step(
            s,
            EventView::Sent(taken),
            cancelled,
        ) == descend(s),
        s.phase == Phase::Listing && (cancelled || s.gone) ==> step(
            s,
            EventView::End,
            cancelled,
        ).1 is Finish,
{
    if s.phase == Phase::Leaving && !cancelled && !s.gone && taken {
        assert(WalkState { gone: s.gone || !taken, ..s } == s);
    }
}

/// When a listing has ended, its subdirectories come next, in the order in which they
/// were listed, before any that waited already.
pub proof fn law_subdirectories_come_first_in_order(s: WalkState)
    requires
        s.phase == Phase::Listing,
        !s.gone,
    ensures
        step(s, EventView::End, false) == descend(
            WalkState { stack: s.stack + s.level.reverse(), level: Seq::empty(), ..s },
        ),
        s.level.len() > 0 ==> (s.stack + s.level.reverse()).last() == s.level[0],
{
}

/// The next directory is the one that waited last. It is counted and passed over
/// where mounts are skipped and it lies elsewhere, passed over where links are
/// followed and it has been entered before, and else entered, and known from then on.
/// When none waits, the walk has ended.
pub proof fn law_the_next_directory(s: WalkState, top: PendingView)
    ensures
        s.stack.len() == 0 ==> descend(s) == (
            WalkState { phase: Phase::Done, ..s },
            ActionView::Finish,
        ),
        ({
            let waits = WalkState { stack: s.stack.push(top), ..s };
            let away = s.policy.skip_mount_boundaries && top.dev != s.base_dev;
            let known = s.policy.follow_symlinks && s.visited.contains(
                identity(top.dev, top.ino),
            );
            &&& away ==> descend(waits) == descend(
                WalkState {
                    counts: Counters { mount: s.counts.mount.wrapping_add(1), ..s.counts },
                    ..s
                },
            )
            &&& !away && known ==> descend(waits) == descend(s)
            &&& !away && !known ==> descend(waits) == (
                WalkState {
                    visited: if s.policy.follow_symlinks {
                        s.visited.insert(identity(top.dev, top.ino))
                    } else {
                        s.visited
                    },
                    dir: top.rel,
                    phase: Phase::Opening,
                    ..s
                },
                ActionView::Open(top.rel),
            )
        }),
{
    let waits = WalkState { stack: s.stack.push(top), ..s };
    assert(waits.stack.drop_last() =~= s.stack);
    assert(waits.stack.last() == top);
    assert(WalkState { stack: waits.stack.drop_last(), ..waits } == s);
}

/// An answer to something that was not asked ends the walk.
pub proof fn law_stray_answers_end_the_walk(s: WalkState, e: EventView, cancelled: bool)
    requires
        match e {
            EventView::Start => s.phase != Phase::Idle,
            EventView::Opened => s.phase != Phase::Opening,
            EventView::Name(_) => s.phase != Phase::Listing,
            EventView::End => s.phase != Phase::Listing,
            EventView::Meta(_) => s.phase != Phase::Stating && s.phase != Phase::Following,
            EventView::Failed(_) => s.phase != Phase::Opening && s.phase != Phase::Listing
                && s.phase != Phase::Stating && s.phase != Phase::Following,
            EventView::Sent(_) => s.phase != Phase::Reporting && s.phase != Phase::Leaving,
        },
    ensures
        step(s, e, cancelled) == (WalkState { phase: Phase::Done, ..s }, ActionView::Finish),
{
}

/// Counts of two parts are added field by field, in 64 bits, and a new count is zero
/// throughout.
pub proof fn law_counts_are_added_field_by_field(a: Counters, b: Counters)
    ensures
        summed(a, no_counts()) == a,
        summed(a, b) == summed(b, a),
        summed(a, b).hidden == a.hidden.wrapping_add(b.hidden),
        summed(a, b).mount == a.mount.wrapping_add(b.mount),
        summed(a, b).symlink == a.symlink.wrapping_add(b.symlink),
        summed(a, b).discovered_files == a.discovered_files.wrapping_add(b.discovered_files),
        summed(a, b).discovered_bytes == a.discovered_bytes.wrapping_add(b.discovered_bytes),
        summed(a, b).hashed == a.hashed.wrapping_add(b.hashed),
        summed(a, b).hashed_bytes == a.hashed_bytes.wrapping_add(b.hashed_bytes),
        summed(a, b).reused_stage == a.reused_stage.wrapping_add(b.reused_stage),
        summed(a, b).reused_baseline == a.reused_baseline.wrapping_add(b.reused_baseline),
        summed(a, b).changed_during_hash == a.changed_during_hash.wrapping_add(
            b.changed_during_hash,
        ),
        summed(a, b).unreadable_dirs == a.unreadable_dirs.wrapping_add(b.unreadable_dirs),
{
}

/// Observations, failures, messages, answers and actions show in full.
pub proof fn law_walk_values_show_in_full(
    o: Observed,
    f: IoFailure,
    rel: Option<Vec<u8>>,
    code: &'static str,
    message: String,
    p: Vec<u8>,
    m: Meta,
    msg: WalkMsg,
    taken: bool,
)
    ensures
        o@.path == o.path@,
        o@.rel == o.rel@,
        o@.size_bytes == o.size_bytes,
        o@.mtime_ns == o.mtime_ns,
        o@.created_ns == o.created_ns,
        f@.raw_os_error == f.raw_os_error,
        f@.kind == f.kind,
        f@.message == f.message@,
        WalkMsg::Item(o)@ == MsgView::Item(o@),
        (WalkMsg::Error { rel, code, message })@ == (MsgView::Error {
            rel: bytes_of(rel),
            code: code@,
            message: message@,
        }),
        WalkEvent::Start@ == EventView::Start,
        WalkEvent::Opened@ == EventView::Opened,
        WalkEvent::Name(p)@ == EventView::Name(p@),
        WalkEvent::End@ == EventView::End,
        WalkEvent::Meta(m)@ == EventView::Meta(m),
        WalkEvent::Failed(f)@ == EventView::Failed(f@),
        WalkEvent::Sent(taken)@ == EventView::Sent(taken),
        WalkAction::Open(p)@ == ActionView::Open(p@),
        WalkAction::Next@ == ActionView::Next,
        WalkAction::Stat(p)@ == ActionView::Stat(p@),
        WalkAction::Follow(p)@ == ActionView::Follow(p@),
        WalkAction::Send(msg)@ == ActionView::Send(msg@),
        WalkAction::Finish@ == ActionView::Finish,
{
}

} // verus!
