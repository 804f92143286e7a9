//! Staging: what becomes of one observed file on its way into the catalogue, and
//! what the writer does with a batch of results.

use vstd::prelude::*;
use vstd::string::*;

use crate::config::Config;
use crate::hash::{sha256, ContentHasher};
use crate::names::{
    extension_of, helpers, lossy_text, mime_by_extension, mime_of, name_of, parent_of, source_of,
};
use crate::rows::{
    bytes_of, copy_bytes, ErrorRow, ErrorView, Facts, FactsView, FileRow, Presence, StageEntry,
};
use crate::text::{same_text, shorten, shortened};
use crate::walk::{
    code_of, error_code, system_time_ns, Counters, IoFailure, Meta, Observed, ObservedView,
};

verus! {

/// A file ready to be staged.
#[derive(Debug)]
pub struct StagedRow {
    pub rel: Vec<u8>,
    pub size_bytes: i64,
    pub mtime_ns: i64,
    pub created_ns: Option<i64>,
    pub content_hash: Vec<u8>,
    pub hash_status: &'static str,
}

#[verifier::ext_equal]
pub struct StagedView {
    pub rel: Seq<u8>,
    pub size_bytes: i64,
    pub mtime_ns: i64,
    pub created_ns: Option<i64>,
    pub content_hash: Seq<u8>,
    pub hash_status: Seq<char>,
}

impl View for StagedRow {
    type V = StagedView;

    open spec fn view(&self) -> StagedView {
        StagedView {
            rel: self.rel@,
            size_bytes: self.size_bytes,
            mtime_ns: self.mtime_ns,
            created_ns: self.created_ns,
            content_hash: self.content_hash@,
            hash_status: self.hash_status@,
        }
    }
}

/// What a hash worker hands to the writer.
#[derive(Debug)]
pub enum WriteMsg {
    Row(StagedRow),
    /// Already staged durably by an earlier attempt; nothing to write.
    Reused(Vec<u8>),
    Error { rel: Option<Vec<u8>>, stage: &'static str, code: &'static str, message: String },
}

#[verifier::ext_equal]
pub enum WriteMsgView {
    Row(StagedView),
    Reused(Seq<u8>),
    Error { rel: Option<Seq<u8>>, stage: Seq<char>, code: Seq<char>, message: Seq<char> },
}

impl View for WriteMsg {
    type V = WriteMsgView;

    open spec fn view(&self) -> WriteMsgView {
        match *self {
            WriteMsg::Row(row) => WriteMsgView::Row(row@),
            WriteMsg::Reused(rel) => WriteMsgView::Reused(rel@),
            WriteMsg::Error { rel, stage, code, message } => WriteMsgView::Error {
                rel: bytes_of(rel),
                stage: stage@,
                code: code@,
                message: message@,
            },
        }
    }
}

/// What to do with an observed file.
#[derive(Debug)]
pub enum Staging {
    /// Hand this to the writer.
    Send(WriteMsg),
    /// Read this file and hash it.
    Hash(Observed),
}

#[verifier::ext_equal]
pub enum StagingView {
    Send(WriteMsgView),
    Hash(ObservedView),
}

impl View for Staging {
    type V = StagingView;

    open spec fn view(&self) -> StagingView {
        match *self {
            Staging::Send(m) => StagingView::Send(m@),
            Staging::Hash(o) => StagingView::Hash(o@),
        }
    }
}

/// A complete entry that an earlier attempt of this scan staged for exactly this
/// size and modification time.
pub open spec fn staged_hit(item: ObservedView, staged: Option<StageEntry>) -> bool {
    staged matches Some(s) && s.complete && s.facts.size_bytes == item.size_bytes
        && s.facts.mtime_ns == item.mtime_ns
}

/// A trustworthy hash that the baseline holds for exactly this size and
/// modification time.
pub open spec fn baseline_hit(item: ObservedView, prior: Option<FileRow>) -> bool {
    prior matches Some(f) && f.presence == Presence::Present && f.facts.hash_status@
        == "complete"@ && f.facts.size_bytes == item.size_bytes && f.facts.mtime_ns
        == item.mtime_ns
}

/// The row for an observed file with this hash.
pub open spec fn row_for(item: ObservedView, hash: Seq<u8>, status: Seq<char>) -> WriteMsgView {
    WriteMsgView::Row(
        StagedView {
            rel: item.rel,
            size_bytes: item.size_bytes,
            mtime_ns: item.mtime_ns,
            created_ns: item.created_ns,
            content_hash: hash,
            hash_status: status,
        },
    )
}

/// Reuse order: an entry staged by an earlier attempt, then the baseline's hash,
/// then reading the file.
pub open spec fn staging_of(
    item: ObservedView,
    staged: Option<StageEntry>,
    prior: Option<FileRow>,
) -> StagingView {
    if staged_hit(item, staged) {
        StagingView::Send(WriteMsgView::Reused(item.rel))
    } else if baseline_hit(item, prior) {
        StagingView::Send(row_for(item, prior->0.facts.content_hash@, "complete"@))
    } else {
        StagingView::Hash(item)
    }
}

/// The counts after that decision.
pub open spec fn staging_counted(
    c: Counters,
    item: ObservedView,
    staged: Option<StageEntry>,
    prior: Option<FileRow>,
) -> Counters {
    if staged_hit(item, staged) {
        Counters { reused_stage: c.reused_stage.wrapping_add(1), ..c }
    } else if baseline_hit(item, prior) {
        Counters { reused_baseline: c.reused_baseline.wrapping_add(1), ..c }
    } else {
        c
    }
}

/// Decides whether an observed file has to be read. `staged` and `prior` are the
/// staging entry and the baseline row at the file's own path.
pub fn stage(
    item: Observed,
    staged: Option<&StageEntry>,
    prior: Option<&FileRow>,
    counts: &mut Counters,
) -> (r: Staging)
    ensures
        ({
            let s = match staged {
                Some(s) => Some(*s),
                None => None,
            };
            let p = match prior {
                Some(p) => Some(*p),
                None => None,
            };
            &&& r@ == staging_of(item@, s, p)
            &&& *final(counts) == staging_counted(*old(counts), item@, s, p)
        }),
{
    if let Some(s) = staged {
        if s.complete && s.facts.size_bytes == item.size_bytes && s.facts.mtime_ns
            == item.mtime_ns {
            counts.reused_stage = counts.reused_stage.wrapping_add(1);
            return Staging::Send(WriteMsg::Reused(item.rel));
        }
    }
    if let Some(f) = prior {
        if f.presence == Presence::Present && same_text(f.facts.hash_status.as_str(), "complete")
            && f.facts.size_bytes == item.size_bytes && f.facts.mtime_ns == item.mtime_ns {
            counts.reused_baseline = counts.reused_baseline.wrapping_add(1);
            return Staging::Send(
                WriteMsg::Row(
                    StagedRow {
                        rel: item.rel,
                        size_bytes: item.size_bytes,
                        mtime_ns: item.mtime_ns,
                        created_ns: item.created_ns,
                        content_hash: copy_bytes(f.facts.content_hash.as_slice()),
                        hash_status: "complete",
                    },
                ),
            );
        }
    }
    Staging::Hash(item)
}

/// How reading a file went.
#[derive(Debug)]
pub enum HashAttempt {
    Failed(IoFailure),
    /// The contents, taken in to their end, and what stat said of the file
    /// afterwards, if anything.
    Read { contents: ContentHasher, after: Option<Meta> },
}

/// The file is no longer the one that was observed, so its digest is of no
/// particular version.
pub open spec fn stale(item: ObservedView, after: Option<Meta>) -> bool {
    after matches Some(m) && (m.len as i64 != item.size_bytes || (match m.modified {
        Some(ns) => ns as i64,
        None => 0,
    }) != item.mtime_ns)
}

/// What the writer is handed after an attempt to read a file, in order.
pub open spec fn hash_messages(item: ObservedView, attempt: HashAttempt) -> Seq<WriteMsgView> {
    match attempt {
        HashAttempt::Failed(e) => seq![
            WriteMsgView::Error {
                rel: Some(item.rel),
                stage: "hash"@,
                code: code_of(e@),
                message: e.message@,
            },
        ],
        HashAttempt::Read { contents, after } => if stale(item, after) {
            seq![
                WriteMsgView::Error {
                    rel: Some(item.rel),
                    stage: "hash"@,
                    code: "changed_during_hash"@,
                    message: "file changed while being hashed"@,
                },
                row_for(item, sha256(contents@), "changed_during_hash"@),
            ]
        } else {
            seq![row_for(item, sha256(contents@), "complete"@)]
        },
    }
}

/// The counts after an attempt to read a file.
pub open spec fn hash_counted(c: Counters, item: ObservedView, attempt: HashAttempt) -> Counters {
    match attempt {
        HashAttempt::Failed(_) => c,
        HashAttempt::Read { contents, after } => Counters {
            hashed: c.hashed.wrapping_add(1),
            hashed_bytes: c.hashed_bytes.wrapping_add(
                if item.size_bytes < 0 {
                    0
                } else {
                    item.size_bytes as u64
                },
            ),
            changed_during_hash: if stale(item, after) {
                c.changed_during_hash.wrapping_add(1)
            } else {
                c.changed_during_hash
            },
            ..c
        },
    }
}

pub open spec fn message_views(msgs: Seq<WriteMsg>) -> Seq<WriteMsgView> {
    msgs.map_values(|m: WriteMsg| m@)
}

/// Hashes the contents of a file that was read, and decides whether the digest can be
/// trusted. The messages are to be handed over in
/// order, up to the first that is not taken.
pub fn hash(item: Observed, attempt: HashAttempt, counts: &mut Counters) -> (r: Vec<WriteMsg>)
    ensures
        message_views(r@) == hash_messages(item@, attempt),
        forall|i: int|
            0 <= i < r@.len() ==> ((#[trigger] r@[i]) matches WriteMsg::Row(row)
                ==> row.content_hash@.len() == 32),
        *final(counts) == hash_counted(*old(counts), item@, attempt),
{
    let mut out: Vec<WriteMsg> = Vec::new();
    let ghost seen = item@;
    match attempt {
        HashAttempt::Failed(e) => {
            let code = error_code(&e);
            out.push(
                WriteMsg::Error {
                    rel: Some(item.rel),
                    stage: "hash",
                    code,
                    message: e.message,
                },
            );
        },
        HashAttempt::Read { contents, after } => {
            counts.hashed = counts.hashed.wrapping_add(1);
            let size: u64 = if item.size_bytes < 0 {
                0
            } else {
                item.size_bytes as u64
            };
            counts.hashed_bytes = counts.hashed_bytes.wrapping_add(size);
            let changed: bool = match after {
                Some(m) => {
                    let len: i64 = #[verifier::truncate]
                    (m.len as i64);
                    let mtime: i64 = match system_time_ns(m.modified) {
                        Some(ns) => ns,
                        None => 0,
                    };
                    len != item.size_bytes || mtime != item.mtime_ns
                },
                None => false,
            };
            if changed {
                counts.changed_during_hash = counts.changed_during_hash.wrapping_add(1);
                out.push(
                    WriteMsg::Error {
                        rel: Some(copy_bytes(item.rel.as_slice())),
                        stage: "hash",
                        code: "changed_during_hash",
                        message: "file changed while being hashed".to_owned(),
                    },
                );
            }
            let hash_status: &'static str = if changed {
                "changed_during_hash"
            } else {
                "complete"
            };
            out.push(
                WriteMsg::Row(
                    StagedRow {
                        rel: item.rel,
                        size_bytes: item.size_bytes,
                        mtime_ns: item.mtime_ns,
                        created_ns: item.created_ns,
                        content_hash: contents.finish(),
                        hash_status,
                    },
                ),
            );
        },
    }
    assert(message_views(out@) =~= hash_messages(seen, attempt));
    out
}

/// The message of a hash worker that cannot start. The scan it belongs to must be
/// cancelled with it: an empty-looking walk may not speak for the whole tree.
pub fn worker_died(reason: &str) -> (r: WriteMsg)
    ensures
        r@ == (WriteMsgView::Error {
            rel: None,
            stage: "worker"@,
            code: "io_error"@,
            message: "hash worker could not start: "@ + reason@,
        }),
{
    let mut message = "hash worker could not start: ".to_owned();
    message.append(reason);
    WriteMsg::Error { rel: None, stage: "worker", code: "io_error", message }
}

/// Longest message kept, in bytes.
pub const MESSAGE_BYTES: usize = 300;

/// Cuts a message to what is worth keeping.
pub fn truncate(s: &str) -> (r: String)
    ensures
        r@ == shortened(s@, 300),
{
    shorten(s, MESSAGE_BYTES)
}

/// One durable effect of a batch.
#[derive(Debug)]
pub enum BatchWrite {
    /// Set the staging entry at this path.
    Stage { path: Vec<u8>, entry: StageEntry },
    /// This path was met by the walk.
    Walked(Vec<u8>),
    Problem(ErrorRow),
}

#[verifier::ext_equal]
pub enum BatchView {
    Stage { path: Seq<u8>, facts: FactsView, complete: bool },
    Walked(Seq<u8>),
    Problem(ErrorView),
}

impl View for BatchWrite {
    type V = BatchView;

    open spec fn view(&self) -> BatchView {
        match *self {
            BatchWrite::Stage { path, entry } => BatchView::Stage {
                path: path@,
                facts: entry.facts@,
                complete: entry.complete,
            },
            BatchWrite::Walked(p) => BatchView::Walked(p@),
            BatchWrite::Problem(e) => BatchView::Problem(e@),
        }
    }
}

/// What is staged for a row: its own facts and the search columns of its path.
pub open spec fn facts_for(row: StagedView) -> FactsView {
    let text = lossy_text(row.rel);
    let extension = extension_of(name_of(text));
    FactsView {
        parent: parent_of(text),
        name: name_of(text),
        extension,
        size_bytes: row.size_bytes,
        mtime_ns: row.mtime_ns,
        created_ns: row.created_ns,
        mime_type: mime_of(extension),
        mime_source: source_of(mime_of(extension)),
        content_hash: row.content_hash,
        hash_status: row.hash_status,
    }
}

/// The durable effects of one message.
pub open spec fn effects(m: WriteMsgView) -> Seq<BatchView> {
    match m {
        WriteMsgView::Row(row) => seq![
            BatchView::Stage { path: row.rel, facts: facts_for(row), complete: true },
            BatchView::Walked(row.rel),
        ],
        WriteMsgView::Reused(rel) => seq![BatchView::Walked(rel)],
        WriteMsgView::Error { rel, stage, code, message } => seq![
            BatchView::Problem(
                ErrorView { rel, stage, code, message: shortened(message, 300) },
            ),
        ],
    }
}

pub open spec fn is_problem(m: WriteMsgView) -> bool {
    m is Error
}

/// The effects of a batch, in the order of its messages.
pub open spec fn batch_effects(batch: Seq<WriteMsgView>) -> Seq<BatchView> {
    batch.flat_map(|m: WriteMsgView| effects(m))
}

/// What a batch does, and how many of its messages were problems and files.
/// Problems are not files, so they do not count toward a total drawn from a
/// previous scan's file count.
#[derive(Debug)]
pub struct Flush {
    pub writes: Vec<BatchWrite>,
    pub errors: usize,
    pub files: usize,
}

pub open spec fn batch_views(writes: Seq<BatchWrite>) -> Seq<BatchView> {
    writes.map_values(|w: BatchWrite| w@)
}

/// Turns a batch of results into durable effects, to be made in one transaction.
pub fn flush(batch: Vec<WriteMsg>) -> (r: Flush)
    ensures
        batch_views(r.writes@) == batch_effects(message_views(batch@)),
        r.errors == message_views(batch@).filter(|m: WriteMsgView| is_problem(m)).len(),
        r.files == batch@.len() - r.errors,
{
    let ghost total = batch@;
    let ghost views = message_views(total);
    let ghost problem = |m: WriteMsgView| is_problem(m);
    let ghost each = |m: WriteMsgView| effects(m);
    let n: usize = batch.len();
    let mut writes: Vec<BatchWrite> = Vec::new();
    let mut errors: usize = 0;
    let mut files: usize = 0;
    proof {
        reveal(Seq::filter);
        assert(views.take(0) =~= Seq::<WriteMsgView>::empty());
        assert(views.take(0).flat_map(each) =~= Seq::<BatchView>::empty());
        assert(batch_views(writes@) =~= views.take(0).flat_map(each));
    }
    for msg in it: batch
        invariant
            it.seq() == total,
            views == message_views(total),
            problem == (|m: WriteMsgView| is_problem(m)),
            each == (|m: WriteMsgView| effects(m)),
            batch_views(writes@) == views.take(it.index()).flat_map(each),
            errors == views.take(it.index()).filter(problem).len(),
            files + errors == it.index(),
            total.len() == n,
    {
        let ghost i = it.index();
        let ghost m = msg@;
        let ghost writes0 = writes@;
        proof {
            assert(views[i] == m);
            assert(views.take(i + 1) =~= views.take(i).push(m));
            Seq::lemma_filter_len_push(views.take(i), problem, m);
            views.take(i).lemma_flat_map_push(each, m);
        }
        match msg {
            WriteMsg::Row(row) => {
                let h = helpers(row.rel.as_slice());
                let path = copy_bytes(row.rel.as_slice());
                let facts = Facts {
                    parent: h.parent,
                    name: h.name,
                    extension: h.extension,
                    size_bytes: row.size_bytes,
                    mtime_ns: row.mtime_ns,
                    created_ns: row.created_ns,
                    mime_type: h.mime_type,
                    mime_source: h.mime_source.to_owned(),
                    content_hash: row.content_hash,
                    hash_status: row.hash_status.to_owned(),
                };
                writes.push(
                    BatchWrite::Stage { path, entry: StageEntry { facts, complete: true } },
                );
                writes.push(BatchWrite::Walked(row.rel));
                files = files + 1;
            },
            WriteMsg::Reused(rel) => {
                writes.push(BatchWrite::Walked(rel));
                files = files + 1;
            },
            WriteMsg::Error { rel, stage, code, message } => {
                let short = truncate(message.as_str());
                writes.push(
                    BatchWrite::Problem(
                        ErrorRow {
                            rel,
                            stage: stage.to_owned(),
                            code: code.to_owned(),
                            message: short,
                        },
                    ),
                );
                errors = errors + 1;
            },
        }
        assert(batch_views(writes@) =~= batch_views(writes0) + effects(m));
    }
    assert(views.take(total.len() as int) =~= views);
    Flush { writes, errors, files }
}

/// The one space rule: this many bytes stay free.
pub open spec fn floor_bytes(mib: u64) -> u64 {
    if mib * 1048576 > u64::MAX {
        u64::MAX
    } else {
        (mib * 1048576) as u64
    }
}

/// Checked before a scan and again after every committed batch. Nothing predicts
/// what a scan will need: stopping is cheap, because staging is durable.
pub fn free_space_floor(config: &Config) -> (r: u64)
    ensures
        r == floor_bytes(config.minimum_free_space_mib),
{
    match config.minimum_free_space_mib.checked_mul(1048576) {
        Some(n) => n,
        None => u64::MAX,
    }
}

/// Bytes available to the user, from the filesystem's own figures.
pub fn free_bytes(available_blocks: u64, block_size: u64) -> (r: u64)
    ensures
        r == (if available_blocks * block_size > u64::MAX {
            u64::MAX as int
        } else {
            available_blocks * block_size
        }),
{
    match available_blocks.checked_mul(block_size) {
        Some(n) => n,
        None => u64::MAX,
    }
}

/// What the writer does once a batch is durable.
#[derive(Debug, Clone, Copy, PartialEq, Eq, Structural)]
pub enum AfterBatch {
    /// Take the next batch, after a pause of this many milliseconds.
    Continue { pause_ms: u64 },
    /// The floor was crossed: stop the scan, and keep what is staged.
    LowSpace,
}

pub fn after_batch(free: u64, config: &Config) -> (r: AfterBatch)
    ensures
        r == (if free < floor_bytes(config.minimum_free_space_mib) {
            AfterBatch::LowSpace
        } else {
            AfterBatch::Continue { pause_ms: config.throttle_ms_after_batch }
        }),
{
    if free < free_space_floor(config) {
        AfterBatch::LowSpace
    } else {
        AfterBatch::Continue { pause_ms: config.throttle_ms_after_batch }
    }
}

/// Milliseconds between two progress lines.
pub const PROGRESS_MS: u64 = 250;

/// What a progress line shows. The total is the previous scan's file count: an
/// estimate, dropped once it is exceeded.
#[derive(Debug, Clone, Copy, PartialEq, Eq, Structural)]
pub struct ProgressLine {
    pub discovered: u64,
    pub processed: u64,
    pub estimate: Option<u64>,
}

/// Progress over a scan.
#[derive(Debug)]
pub struct Progress {
    pub prior_files: u64,
    /// Whether there is a terminal to redraw over.
    pub tty: bool,
    /// Whether a line has been drawn.
    pub active: bool,
}

impl Progress {
    pub fn new(prior_files: u64, tty: bool) -> (r: Progress)
        ensures
            r == (Progress { prior_files, tty, active: false }),
    {
        Progress { prior_files, tty, active: false }
    }

    /// The line to draw, if it is time for one.
    pub fn tick(
        &mut self,
        discovered: u64,
        processed: u64,
        cancelled: bool,
        elapsed_ms: u64,
    ) -> (r: Option<ProgressLine>)
        ensures
            final(self).prior_files == old(self).prior_files,
            final(self).tty == old(self).tty,
            final(self).active == (old(self).active || r is Some),
            r is Some <==> (old(self).tty && !cancelled && elapsed_ms >= PROGRESS_MS),
            r matches Some(line) ==> line == (ProgressLine {
                discovered,
                processed,
                estimate: if old(self).prior_files > 0 && processed <= old(self).prior_files {
                    Some(old(self).prior_files)
                } else {
                    None
                },
            }),
    {
        if !self.tty || cancelled || elapsed_ms < PROGRESS_MS {
            return None;
        }
        self.active = true;
        let estimate: Option<u64> = if self.prior_files > 0 && processed <= self.prior_files {
            Some(self.prior_files)
        } else {
            None
        };
        Some(ProgressLine { discovered, processed, estimate })
    }
}

/// A file that an earlier attempt staged completely, with exactly this size and
/// modification time, is only named as met again; it is counted as reused from
/// staging, and nothing else is counted.
pub proof fn law_staged_files_are_only_named(
    c: Counters,
    item: ObservedView,
    s: StageEntry,
    prior: Option<FileRow>,
)
    requires
        s.complete,
        s.facts.size_bytes == item.size_bytes,
        s.facts.mtime_ns == item.mtime_ns,
    ensures
        staging_of(item, Some(s), prior) == StagingView::Send(WriteMsgView::Reused(item.rel)),
        staging_counted(c, item, Some(s), prior) == (Counters {
            reused_stage: c.reused_stage.wrapping_add(1),
            ..c
        }),
{
}

/// A file that is not staged so, but that the baseline holds as present with a
/// trusted hash and exactly this size and modification time, is staged with that
/// hash, and counted as reused from the baseline. Every other file is read, and
/// counted once it has been.
pub proof fn law_the_baselines_hash_is_taken_or_the_file_is_read(
    c: Counters,
    item: ObservedView,
    staged: Option<StageEntry>,
    prior: Option<FileRow>,
)
    requires
        !(staged matches Some(s) && s.complete && s.facts.size_bytes == item.size_bytes
            && s.facts.mtime_ns == item.mtime_ns),
    ensures
        (prior matches Some(f) && f.presence == Presence::Present && f.facts.hash_status@
            == "complete"@ && f.facts.size_bytes == item.size_bytes && f.facts.mtime_ns
            == item.mtime_ns) ==> {
            &&& staging_of(item, staged, prior) matches StagingView::Send(WriteMsgView::Row(row))
                && row.rel == item.rel && row.size_bytes == item.size_bytes && row.mtime_ns
                == item.mtime_ns && row.created_ns == item.created_ns && row.content_hash
                == prior->0.facts.content_hash@ && row.hash_status == "complete"@
            &&& staging_counted(c, item, staged, prior) == (Counters {
                reused_baseline: c.reused_baseline.wrapping_add(1),
                ..c
            })
        },
        !(prior matches Some(f) && f.presence == Presence::Present && f.facts.hash_status@
            == "complete"@ && f.facts.size_bytes == item.size_bytes && f.facts.mtime_ns
            == item.mtime_ns) ==> {
            &&& staging_of(item, staged, prior) == StagingView::Hash(item)
            &&& staging_counted(c, item, staged, prior) == c
        },
{
}

/// A file that cannot be read gives one problem, at its own path, under the code of
/// the failure and in its words, and is not counted as read.
pub proof fn law_failed_reads_are_told(c: Counters, item: ObservedView, e: IoFailure)
    ensures
        ({
            let out = hash_messages(item, HashAttempt::Failed(e));
            &&& out.len() == 1
            &&& out[0] matches WriteMsgView::Error { rel, stage, code, message } && rel == Some(
                item.rel,
            ) && stage == "hash"@ && code == code_of(e@) && message == e.message@
            &&& hash_counted(c, item, HashAttempt::Failed(e)) == c
        }),
{
}

/// A file that was read is staged with the SHA-256 of its contents. Its hash is
/// trusted exactly when stat, afterwards, found the size and the time that were
/// observed, or could not tell; otherwise a problem at its path says so first. It is
/// counted, with its size.
pub proof fn law_read_files_are_staged_with_their_hash(
    c: Counters,
    item: ObservedView,
    contents: ContentHasher,
    after: Option<Meta>,
)
    ensures
        ({
            let attempt = HashAttempt::Read { contents, after };
            let out = hash_messages(item, attempt);
            let changed = after matches Some(m) && (m.len as i64 != item.size_bytes || (match m.modified {
                Some(ns) => ns as i64,
                None => 0,
            }) != item.mtime_ns);
            let counted = hash_counted(c, item, attempt);
            &&& out.len() == (if changed {
                2int
            } else {
                1
            })
            &&& out.last() matches WriteMsgView::Row(row) && row.rel == item.rel && row.size_bytes
                == item.size_bytes && row.mtime_ns == item.mtime_ns && row.created_ns
                == item.created_ns && row.content_hash == sha256(contents@) && row.hash_status == (
            if changed {
                "changed_during_hash"@
            } else {
                "complete"@
            })
            &&& changed ==> (out[0] matches WriteMsgView::Error { rel, stage, code, message } && rel
                == Some(item.rel) && stage == "hash"@ && code == "changed_during_hash"@ && message
                == "file changed while being hashed"@)
            &&& counted == (Counters {
                hashed: c.hashed.wrapping_add(1),
                hashed_bytes: c.hashed_bytes.wrapping_add(
                    if item.size_bytes >= 0 {
                        item.size_bytes as u64
                    } else {
                        0
                    },
                ),
                changed_during_hash: if changed {
                    c.changed_during_hash.wrapping_add(1)
                } else {
                    c.changed_during_hash
                },
                ..c
            })
        }),
{
}

/// What becomes durable of one message. A row is staged at its path, complete, with
/// what was observed of the file and the columns of its path, and the path is noted
/// as met. A file reused from staging is only noted as met. A problem is noted with
/// its path, stage and code, and its words cut to a length worth keeping.
pub proof fn law_one_message_becomes_durable(m: WriteMsgView)
    ensures
        match m {
            WriteMsgView::Row(row) => {
                &&& effects(m).len() == 2
                &&& effects(m)[0] matches BatchView::Stage { path, facts, complete } && path
                    == row.rel && complete && facts.size_bytes == row.size_bytes && facts.mtime_ns
                    == row.mtime_ns && facts.created_ns == row.created_ns && facts.content_hash
                    == row.content_hash && facts.hash_status == row.hash_status && facts.parent
                    == parent_of(lossy_text(row.rel)) && facts.name == name_of(lossy_text(row.rel))
                    && facts.extension == extension_of(facts.name) && facts.mime_type == (
                match facts.extension {
                    Some(x) => mime_by_extension(x),
                    None => None,
                }) && facts.mime_source == (if facts.mime_type is Some {
                    "extension"@
                } else {
                    "unknown"@
                })
                &&& effects(m)[1] == BatchView::Walked(row.rel)
            },
            WriteMsgView::Reused(rel) => effects(m) == seq![BatchView::Walked(rel)],
            WriteMsgView::Error { rel, stage, code, message } => {
                &&& effects(m).len() == 1
                &&& effects(m)[0] matches BatchView::Problem(e) && e.rel == rel && e.stage == stage
                    && e.code == code && e.message == shortened(message, 300)
            },
        },
        is_problem(m) <==> m is Error,
{
}

/// A batch does what its messages do, in their order.
pub proof fn law_a_batch_does_what_its_messages_do(batch: Seq<WriteMsgView>, m: WriteMsgView)
    ensures
        batch_effects(Seq::empty()) == Seq::<BatchView>::empty(),
        batch_effects(batch.push(m)) == batch_effects(batch) + effects(m),
{
    let each = |m: WriteMsgView| effects(m);
    batch.lemma_flat_map_push(each, m);
    assert(batch_effects(Seq::<WriteMsgView>::empty()) =~= Seq::<BatchView>::empty());
}

/// The floor is the configured number of MiB in bytes, as far as 64 bits go.
pub proof fn law_floor_is_in_mebibytes(mib: u64)
    ensures
        mib * 1048576 <= u64::MAX ==> floor_bytes(mib) == mib * 1048576,
        mib * 1048576 > u64::MAX ==> floor_bytes(mib) == u64::MAX,
{
}

/// The limits of this part: how much of a message is kept, and how often progress is
/// shown.
pub proof fn law_staging_limits()
    ensures
        MESSAGE_BYTES == 300,
        PROGRESS_MS == 250,
{
}

/// Messages, decisions and effects show in full.
pub proof fn law_messages_show_in_full(
    row: StagedRow,
    rel: Option<Vec<u8>>,
    path: Vec<u8>,
    o: Observed,
    entry: StageEntry,
    e: ErrorRow,
    m: WriteMsg,
    stage: &'static str,
    code: &'static str,
    message: String,
)
    ensures
        row@.rel == row.rel@,
        row@.size_bytes == row.size_bytes,
        row@.mtime_ns == row.mtime_ns,
        row@.created_ns == row.created_ns,
        row@.content_hash == row.content_hash@,
        row@.hash_status == row.hash_status@,
        WriteMsg::Row(row)@ == WriteMsgView::Row(row@),
        WriteMsg::Reused(path)@ == WriteMsgView::Reused(path@),
        (WriteMsg::Error { rel, stage, code, message })@ == (WriteMsgView::Error {
            rel: bytes_of(rel),
            stage: stage@,
            code: code@,
            message: message@,
        }),
        Staging::Send(m)@ == StagingView::Send(m@),
        Staging::Hash(o)@ == StagingView::Hash(o@),
        (BatchWrite::Stage { path, entry })@ == (BatchView::Stage {
            path: path@,
            facts: entry.facts@,
            complete: entry.complete,
        }),
        BatchWrite::Walked(path)@ == BatchView::Walked(path@),
        BatchWrite::Problem(e)@ == BatchView::Problem(e@),
{
}

/// Messages and effects show one by one, in order.
pub proof fn law_messages_show_one_by_one(msgs: Seq<WriteMsg>, writes: Seq<BatchWrite>)
    ensures
        message_views(msgs).len() == msgs.len(),
        forall|i: int| 0 <= i < msgs.len() ==> #[trigger] message_views(msgs)[i] == msgs[i]@,
        batch_views(writes).len() == writes.len(),
        forall|i: int| 0 <= i < writes.len() ==> #[trigger] batch_views(writes)[i] == writes[i]@,
{
}

} // verus!
