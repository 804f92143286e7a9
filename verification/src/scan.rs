//! The life of one scan: whether it may start, whether it continues an earlier
//! one, and what it may conclude once the walk has ended.

use vstd::prelude::*;
use vstd::string::*;

use crate::config::{Config, Policy};
use crate::error::{
    human_text, AppError, EXIT_CANCELLED, EXIT_ERROR, EXIT_INCOMPLETE, EXIT_NO_SPACE, EXIT_OK,
    EXIT_POLICY,
};
use crate::history::{newest_resumable, BasePrune, ScanLog, ScanRow};
use crate::paths::{byte_views, lemma_ascending_distinct, Narrowed, PathTable};
use crate::promote::{
    evidence, lemma_count_paths, overlay, promote, sighted, write_views, Evidence, Promotion,
};
use crate::rows::{
    copy_bytes, error_views, ErrorRow, ErrorView, FileRow, FileView, StageEntry,
};
use crate::stage::{floor_bytes, free_space_floor};
use crate::text::{decimal, push_number, same_text};
use crate::walk::{is_unreadable_code, unreadable_code, Counters};

verus! {

/// A reading of the clock as a catalogue holds it, from its distance to the epoch
/// in nanoseconds. A clock set before the epoch reads as the epoch.
pub open spec fn stamped(since_epoch: Option<u128>) -> i64 {
    match since_epoch {
        Some(ns) => ns as i64,
        None => 0,
    }
}

pub fn stamp(since_epoch: Option<u128>) -> (r: i64)
    ensures
        r == stamped(since_epoch),
{
    match since_epoch {
        Some(ns) => #[verifier::truncate]
        (ns as i64),
        None => 0,
    }
}

/// `SystemTime::elapsed` of the epoch, in nanoseconds; none while the clock is set
/// before the epoch. Nothing is promised of what a clock reads.
#[verifier::external_body]
fn clock() -> (r: Option<u128>) {
    std::time::UNIX_EPOCH.elapsed().ok().map(|d| d.as_nanos())
}

/// Now, as a catalogue holds it. What a clock reads cannot be stated: every value is
/// the stamp of some reading, so the clause excludes nothing. `stamp`, which is given
/// the reading, says what comes of it.
pub fn now_ns() -> (r: i64)
    ensures
        exists|reading: Option<u128>| r == #[trigger] stamped(reading),
{
    stamp(clock())
}

/// What a scan came to.
#[derive(Debug)]
pub struct Outcome {
    pub scan_id: i64,
    pub resumed: bool,
    pub status: &'static str,
    pub added: usize,
    pub updated: usize,
    pub deleted: usize,
    pub unchanged: usize,
    pub present: usize,
    pub staged: usize,
    pub hashed: u64,
    pub hashed_bytes: u64,
    pub reused_stage: u64,
    pub reused_baseline: u64,
    pub errors: usize,
    pub low_space: bool,
    /// Why a scan can stop with no errors of its own worth listing: the base
    /// itself went unread, which puts the whole baseline in doubt.
    pub base_unreadable: bool,
    pub pruned_changes: u64,
    pub pruned_files: u64,
    pub unreadable: usize,
    pub unreadable_paths: usize,
    /// Directories whose contents were never listed.
    pub unreadable_dirs: u64,
    pub discovered_bytes: u64,
    pub excluded_hidden: u64,
    pub excluded_mount: u64,
    pub excluded_symlink: u64,
    pub free_before: u64,
    pub required_free: u64,
    pub estimate_source: String,
    pub duration_ms: u64,
}

/// The exit code of a scan that came to its end. Stopping at the free-space floor
/// is the same condition as refusing at it, so both give one code.
pub open spec fn exit_of(o: Outcome) -> i32 {
    if o.status@ == "complete"@ {
        if o.unreadable_dirs > 0 {
            EXIT_INCOMPLETE
        } else {
            EXIT_OK
        }
    } else if o.status@ == "cancelled"@ {
        EXIT_CANCELLED
    } else if o.low_space {
        EXIT_NO_SPACE
    } else {
        EXIT_ERROR
    }
}

pub fn exit_code(o: &Outcome) -> (r: i32)
    ensures
        r == exit_of(*o),
{
    if same_text(o.status, "complete") {
        if o.unreadable_dirs > 0 {
            EXIT_INCOMPLETE
        } else {
            EXIT_OK
        }
    } else if same_text(o.status, "cancelled") {
        EXIT_CANCELLED
    } else if o.low_space {
        EXIT_NO_SPACE
    } else {
        EXIT_ERROR
    }
}

/// The base a scan runs against, as the catalogue holds it.
#[derive(Debug, Clone, Copy, PartialEq, Eq, Structural)]
pub struct Base {
    pub id: i64,
    /// The last complete scan, which promotion will move.
    pub baseline: Option<i64>,
    /// The rules its baseline was built with.
    pub policy: Policy,
}

pub open spec fn flag(b: bool) -> Seq<char> {
    if b {
        "true"@
    } else {
        "false"@
    }
}

fn push_flag(s: &mut String, b: bool)
    ensures
        final(s)@ == old(s)@ + flag(b),
{
    if b {
        s.append("true");
    } else {
        s.append("false");
    }
}

/// How two policies disagree, in words.
pub open spec fn mismatch_text(stored: Policy, configured: Policy) -> Seq<char> {
    "base was indexed with skip_hidden="@ + flag(stored.skip_hidden) + ", skip_mount_boundaries="@
        + flag(stored.skip_mount_boundaries) + ", follow_symlinks="@ + flag(stored.follow_symlinks)
        + "; configuration now says "@ + flag(configured.skip_hidden) + ", "@ + flag(
        configured.skip_mount_boundaries,
    ) + ", "@ + flag(configured.follow_symlinks)
}

/// A refusal to rescan, and the note the base keeps of it.
#[derive(Debug)]
pub struct Mismatch {
    pub note: String,
    pub error: AppError,
}

/// Accepts a base whose baseline was built with the configured rules. Under other
/// rules an excluded subtree would look deleted.
pub fn register_base(stored: Base, config: &Config) -> (r: Result<Base, Mismatch>)
    ensures
        match r {
            Ok(base) => base == stored && stored.policy == config@.policy,
            Err(m) => {
                &&& stored.policy != config@.policy
                &&& m.note@ == mismatch_text(stored.policy, config@.policy)
                &&& m.error.code == EXIT_POLICY
                &&& m.error.message@ == "policy_mismatch: "@ + m.note@
                    + "\n  deletion detection is only safe under the rules the baseline was built with.\n  restore the previous settings, or index this base into a fresh database."@
            },
        },
{
    if stored.policy == config.policy() {
        return Ok(stored);
    }
    let mut note = "base was indexed with skip_hidden=".to_owned();
    push_flag(&mut note, stored.policy.skip_hidden);
    note.append(", skip_mount_boundaries=");
    push_flag(&mut note, stored.policy.skip_mount_boundaries);
    note.append(", follow_symlinks=");
    push_flag(&mut note, stored.policy.follow_symlinks);
    note.append("; configuration now says ");
    push_flag(&mut note, config.skip_hidden);
    note.append(", ");
    push_flag(&mut note, config.skip_mount_boundaries);
    note.append(", ");
    push_flag(&mut note, config.follow_symlinks);
    let error = AppError::policy_mismatch(note.as_str());
    Err(Mismatch { note, error })
}

/// The free-space decision, made once and reported verbatim.
#[derive(Debug)]
pub struct Space {
    pub free_before: u64,
    pub required: u64,
    pub source: String,
}

pub open spec fn space_source(mib: u64) -> Seq<char> {
    "storage.minimum_free_space_mib = "@ + decimal(mib as nat) + ", rechecked every batch"@
}

/// Refuses to start below the free-space floor.
pub fn preflight(free: u64, config: &Config) -> (r: Result<Space, AppError>)
    ensures
        ({
            let floor = floor_bytes(config.minimum_free_space_mib);
            match r {
                Ok(space) => {
                    &&& free >= floor
                    &&& space.free_before == free
                    &&& space.required == floor
                    &&& space.source@ == space_source(config.minimum_free_space_mib)
                },
                Err(e) => {
                    &&& free < floor
                    &&& e.code == EXIT_NO_SPACE
                    &&& e.message@ == "insufficient free space: "@ + human_text(free as nat)
                        + " available, "@ + human_text(floor as nat)
                        + " must stay free (storage.minimum_free_space_mib)"@
                },
            }
        }),
{
    let required: u64 = free_space_floor(config);
    if free < required {
        return Err(AppError::no_space(free, required));
    }
    let mut source = "storage.minimum_free_space_mib = ".to_owned();
    push_number(&mut source, config.minimum_free_space_mib);
    source.append(", rechecked every batch");
    Ok(Space { free_before: free, required, source })
}

/// A scan about to be started, as the catalogue will hold it.
#[derive(Debug)]
pub struct NewScan {
    pub base_id: i64,
    pub baseline: Option<i64>,
    pub started_at_ns: i64,
    pub policy: Policy,
    pub workers: i64,
    pub writer_batch_rows: i64,
    pub throttle_ms_after_batch: i64,
    pub hash_policy: String,
    pub free_bytes_before: i64,
    pub required_free_bytes: i64,
    pub estimate_source: String,
}

/// How a scan begins.
#[derive(Debug)]
pub enum Opening {
    /// Continue this scan: it runs again with no failure noted, its staging is
    /// kept, and the problems of its earlier attempt are forgotten.
    Resume(i64),
    /// Start this one, over empty staging.
    Fresh(NewScan),
}

/// Continues the newest scan of the base that never completed, or starts one.
pub fn open_scan(
    log: &ScanLog,
    base: Base,
    config: &Config,
    space: &Space,
    now: i64,
) -> (r: Opening)
    ensures
        match newest_resumable(log@) {
            Some(row) => r == Opening::Resume(row.scan_id),
            None => r matches Opening::Fresh(s) && {
                &&& s.base_id == base.id
                &&& s.baseline == base.baseline
                &&& s.started_at_ns == now
                &&& s.policy == config@.policy
                &&& s.workers == config.workers as i64
                &&& s.writer_batch_rows == config.writer_batch_rows as i64
                &&& s.throttle_ms_after_batch == config.throttle_ms_after_batch as i64
                &&& s.hash_policy@ == config.hash_policy@
                &&& s.free_bytes_before == space.free_before as i64
                &&& s.required_free_bytes == space.required as i64
                &&& s.estimate_source@ == space.source@
            },
        },
{
    match log.resumable() {
        Some(row) => Opening::Resume(row.scan_id),
        None => Opening::Fresh(
            NewScan {
                base_id: base.id,
                baseline: base.baseline,
                started_at_ns: now,
                policy: config.policy(),
                workers: #[verifier::truncate]
                (config.workers as i64),
                writer_batch_rows: #[verifier::truncate]
                (config.writer_batch_rows as i64),
                throttle_ms_after_batch: #[verifier::truncate]
                (config.throttle_ms_after_batch as i64),
                hash_policy: config.hash_policy.clone(),
                free_bytes_before: #[verifier::truncate]
                (space.free_before as i64),
                required_free_bytes: #[verifier::truncate]
                (space.required as i64),
                estimate_source: space.source.clone(),
            },
        ),
    }
}

/// The sizes of the complete entries at the first `n` of these paths, added up.
pub open spec fn staged_size(
    staged: Map<Seq<u8>, StageEntry>,
    paths: Seq<Seq<u8>>,
    n: int,
) -> int
    decreases n,
{
    if n <= 0 {
        0
    } else {
        staged_size(staged, paths, n - 1) + (if staged[paths[n - 1]].complete {
            staged[paths[n - 1]].facts.size_bytes as int
        } else {
            0
        })
    }
}

/// The sum can be formed in 64 bits, entry by entry.
pub open spec fn size_fits(staged: Map<Seq<u8>, StageEntry>, paths: Seq<Seq<u8>>) -> bool {
    forall|n: int|
        0 <= n <= paths.len() ==> i64::MIN <= #[trigger] staged_size(staged, paths, n) <= i64::MAX
}

/// What the database says of a sum that does not fit.
pub open spec fn overflowed(e: AppError) -> bool {
    e.code == EXIT_ERROR && e.message@ == "database: "@ + "integer overflow"@
}

/// How many paths are staged completely, and the sum of their sizes.
pub fn staged_totals(staged: &PathTable<StageEntry>) -> (r: Result<(usize, i64), AppError>)
    ensures
        match r {
            Ok((files, bytes)) => {
                &&& size_fits(staged@, staged.paths())
                &&& sighted(staged@).dom().finite()
                &&& files == sighted(staged@).dom().len()
                &&& bytes == staged_size(staged@, staged.paths(), staged.paths().len() as int)
            },
            Err(e) => !size_fits(staged@, staged.paths()) && overflowed(e),
        },
{
    let n: usize = staged.len();
    let ghost paths = staged.paths();
    let ghost live = |p: Seq<u8>| sighted(staged@).contains_key(p);
    let mut files: usize = 0;
    let mut bytes: i64 = 0;
    let mut i: usize = 0;
    proof {
        reveal(Seq::filter);
        assert(paths.take(0) =~= Seq::<Seq<u8>>::empty());
    }
    while i < n
        invariant
            i <= n,
            n == paths.len(),
            paths == staged.paths(),
            live == (|p: Seq<u8>| sighted(staged@).contains_key(p)),
            files == paths.take(i as int).filter(live).len(),
            files <= i,
            bytes == staged_size(staged@, paths, i as int),
            forall|k: int|
                0 <= k <= i ==> i64::MIN <= #[trigger] staged_size(staged@, paths, k) <= i64::MAX,
        decreases n - i,
    {
        let entry = staged.row(i);
        proof {
            assert(paths.take(i + 1) =~= paths.take(i as int).push(paths[i as int]));
            Seq::lemma_filter_len_push(paths.take(i as int), live, paths[i as int]);
        }
        assert(staged_size(staged@, paths, i + 1) == (if entry.complete {
            bytes + entry.facts.size_bytes
        } else {
            bytes as int
        }));
        if entry.complete {
            match bytes.checked_add(entry.facts.size_bytes) {
                Some(sum) => {
                    bytes = sum;
                },
                None => {
                    assert(!size_fits(staged@, paths));
                    return Err(AppError::db("integer overflow"));
                },
            }
            files = files + 1;
        }
        i = i + 1;
    }
    proof {
        assert(paths.take(n as int) =~= paths);
        lemma_ascending_distinct(paths);
        lemma_count_paths(paths, live);
        assert(Set::new(|p: Seq<u8>| paths.contains(p) && live(p)) =~= sighted(staged@).dom());
    }
    Ok((files, bytes))
}

/// The counts of a walk as the catalogue holds them.
#[derive(Debug, Clone, Copy, PartialEq, Eq, Structural)]
pub struct WalkTotals {
    pub discovered_files: i64,
    pub discovered_bytes: i64,
    pub staged_files: i64,
    pub staged_bytes: i64,
    pub hashed_files: i64,
    pub hashed_bytes: i64,
    pub changed_during_hash: i64,
    pub excluded_hidden: i64,
    pub excluded_mount: i64,
    pub excluded_symlink: i64,
    pub unreadable_dirs: i64,
    pub error_count: i64,
}

pub fn walk_totals(
    counts: &Counters,
    staged: usize,
    staged_bytes: i64,
    errors: usize,
) -> (r: WalkTotals)
    ensures
        r == (WalkTotals {
            discovered_files: counts.discovered_files as i64,
            discovered_bytes: counts.discovered_bytes as i64,
            staged_files: staged as i64,
            staged_bytes,
            hashed_files: counts.hashed as i64,
            hashed_bytes: counts.hashed_bytes as i64,
            changed_during_hash: counts.changed_during_hash as i64,
            excluded_hidden: counts.hidden as i64,
            excluded_mount: counts.mount as i64,
            excluded_symlink: counts.symlink as i64,
            unreadable_dirs: counts.unreadable_dirs as i64,
            error_count: errors as i64,
        }),
{
    WalkTotals {
        discovered_files: #[verifier::truncate]
        (counts.discovered_files as i64),
        discovered_bytes: #[verifier::truncate]
        (counts.discovered_bytes as i64),
        staged_files: #[verifier::truncate]
        (staged as i64),
        staged_bytes,
        hashed_files: #[verifier::truncate]
        (counts.hashed as i64),
        hashed_bytes: #[verifier::truncate]
        (counts.hashed_bytes as i64),
        changed_during_hash: #[verifier::truncate]
        (counts.changed_during_hash as i64),
        excluded_hidden: #[verifier::truncate]
        (counts.hidden as i64),
        excluded_mount: #[verifier::truncate]
        (counts.mount as i64),
        excluded_symlink: #[verifier::truncate]
        (counts.symlink as i64),
        unreadable_dirs: #[verifier::truncate]
        (counts.unreadable_dirs as i64),
        error_count: #[verifier::truncate]
        (errors as i64),
    }
}

/// Some problem lies on the base itself: it went unread, whatever the code says.
pub open spec fn base_unread(errors: Seq<ErrorView>) -> bool {
    exists|i: int|
        0 <= i < errors.len() && (#[trigger] errors[i]).rel == Some(Seq::<u8>::empty())
}

/// Whether the walk could not read the base.
pub fn base_unreadable(errors: &Vec<ErrorRow>) -> (r: bool)
    ensures
        r == base_unread(error_views(errors@)),
{
    let mut i: usize = 0;
    while i < errors.len()
        invariant
            i <= errors@.len(),
            forall|k: int|
                0 <= k < i ==> (#[trigger] error_views(errors@)[k]).rel != Some(
                    Seq::<u8>::empty(),
                ),
        decreases errors.len() - i,
    {
        assert(error_views(errors@)[i as int] == errors@[i as int]@);
        if let Some(rel) = &errors[i].rel {
            if rel.len() == 0 {
                assert(rel@ =~= Seq::<u8>::empty());
                assert(error_views(errors@)[i as int].rel == Some(Seq::<u8>::empty()));
                return true;
            }
        }
        i = i + 1;
    }
    false
}

/// `path` could not be read.
pub open spec fn unread_at(errors: Seq<ErrorView>, path: Seq<u8>) -> bool {
    exists|i: int|
        0 <= i < errors.len() && (#[trigger] errors[i]).rel == Some(path) && unreadable_code(
            errors[i].code,
        )
}

/// How many paths could not be read. A path counts once, however often it
/// failed.
pub fn unreadable_path_count(errors: &Vec<ErrorRow>) -> (n: usize)
    ensures
        Set::new(|p: Seq<u8>| unread_at(error_views(errors@), p)).finite(),
        n == Set::new(|p: Seq<u8>| unread_at(error_views(errors@), p)).len(),
{
    let ghost views = error_views(errors@);
    let mut seen: PathTable<()> = PathTable::new();
    let mut i: usize = 0;
    while i < errors.len()
        invariant
            i <= errors@.len(),
            views == error_views(errors@),
            forall|p: Seq<u8>| #[trigger]
                seen@.contains_key(p) <==> unread_at(views.take(i as int), p),
        decreases errors.len() - i,
    {
        let ghost e = views[i as int];
        let ghost before = seen@;
        assert(e == errors@[i as int]@);
        proof {
            let longer = views.take(i + 1);
            assert forall|p: Seq<u8>| #[trigger]
                unread_at(longer, p) <==> (unread_at(views.take(i as int), p) || (e.rel == Some(p)
                    && unreadable_code(e.code))) by {
                if unread_at(views.take(i as int), p) {
                    let k = choose|k: int|
                        0 <= k < i && (#[trigger] views.take(i as int)[k]).rel == Some(p)
                            && unreadable_code(views.take(i as int)[k].code);
                    assert(longer[k].rel == Some(p));
                }
                if unread_at(longer, p) {
                    let k = choose|k: int|
                        0 <= k < longer.len() && (#[trigger] longer[k]).rel == Some(p)
                            && unreadable_code(longer[k].code);
                    if k < i {
                        assert(views.take(i as int)[k].rel == Some(p));
                    }
                }
                assert(longer[i as int] == e);
            }
        }
        if is_unreadable_code(errors[i].code.as_str()) {
            if let Some(rel) = &errors[i].rel {
                seen.insert(copy_bytes(rel.as_slice()), ());
            }
        }
        assert forall|p: Seq<u8>| #[trigger]
            seen@.contains_key(p) <==> unread_at(views.take(i + 1), p) by {
            assert(before.contains_key(p) <==> unread_at(views.take(i as int), p));
        }
        i = i + 1;
    }
    let n: usize = seen.len();
    proof {
        let paths = seen.paths();
        let any = |p: Seq<u8>| true;
        assert(views.take(i as int) =~= views);
        lemma_ascending_distinct(paths);
        lemma_count_paths(paths, any);
        lemma_filter_all(paths, any);
        assert(Set::new(|p: Seq<u8>| paths.contains(p) && any(p)) =~= Set::new(
            |p: Seq<u8>| unread_at(views, p),
        )) by {
            assert forall|p: Seq<u8>| paths.contains(p) <==> unread_at(views, p) by {
                assert(seen@.contains_key(p) <==> unread_at(views, p));
            }
        }
    }
    n
}

proof fn lemma_filter_all(s: Seq<Seq<u8>>, pred: spec_fn(Seq<u8>) -> bool)
    requires
        forall|p: Seq<u8>| #[trigger] pred(p),
    ensures
        s.filter(pred).len() == s.len(),
    decreases s.len(),
{
    reveal(Seq::filter);
    if s.len() > 0 {
        lemma_filter_all(s.drop_last(), pred);
    }
}

/// The outcome of a scan whose walk has just ended.
pub fn new_outcome(
    scan_id: i64,
    resumed: bool,
    staged: usize,
    errors: usize,
    counts: &Counters,
    space: Space,
) -> (r: Outcome)
    ensures
        r == (Outcome {
            scan_id,
            resumed,
            status: "complete",
            added: 0,
            updated: 0,
            deleted: 0,
            unchanged: 0,
            present: 0,
            staged,
            hashed: counts.hashed,
            hashed_bytes: counts.hashed_bytes,
            reused_stage: counts.reused_stage,
            reused_baseline: counts.reused_baseline,
            errors,
            low_space: false,
            base_unreadable: false,
            pruned_changes: 0,
            pruned_files: 0,
            unreadable: 0,
            unreadable_paths: 0,
            unreadable_dirs: counts.unreadable_dirs,
            discovered_bytes: counts.discovered_bytes,
            excluded_hidden: counts.hidden,
            excluded_mount: counts.mount,
            excluded_symlink: counts.symlink,
            free_before: space.free_before,
            required_free: space.required,
            estimate_source: space.source,
            duration_ms: 0,
        }),
{
    Outcome {
        scan_id,
        resumed,
        status: "complete",
        added: 0,
        updated: 0,
        deleted: 0,
        unchanged: 0,
        present: 0,
        staged,
        hashed: counts.hashed,
        hashed_bytes: counts.hashed_bytes,
        reused_stage: counts.reused_stage,
        reused_baseline: counts.reused_baseline,
        errors,
        low_space: false,
        base_unreadable: false,
        pruned_changes: 0,
        pruned_files: 0,
        unreadable: 0,
        unreadable_paths: 0,
        unreadable_dirs: counts.unreadable_dirs,
        discovered_bytes: counts.discovered_bytes,
        excluded_hidden: counts.hidden,
        excluded_mount: counts.mount,
        excluded_symlink: counts.symlink,
        free_before: space.free_before,
        required_free: space.required,
        estimate_source: space.source,
        duration_ms: 0,
    }
}

/// How a scan that was not promoted is recorded.
#[derive(Debug)]
pub struct Ending {
    pub status: &'static str,
    pub code: &'static str,
    pub message: String,
}

pub open spec fn ending_status(low_space: bool, stopped: bool) -> Seq<char> {
    if !low_space && stopped {
        "cancelled"@
    } else {
        "partial"@
    }
}

pub open spec fn ending_code(low_space: bool, stopped: bool) -> Seq<char> {
    if low_space {
        "low_space"@
    } else if stopped {
        "cancelled"@
    } else {
        "base_unreadable"@
    }
}

pub open spec fn ending_message(o: Outcome, mib: u64) -> Seq<char> {
    if o.low_space {
        "stopped at the "@ + decimal(mib as nat)
            + " MiB free-space floor; free space and rerun to resume"@
    } else if o.base_unreadable {
        "base directory is unreadable; baseline left unchanged"@
    } else {
        decimal(o.errors as nat) + " error(s); baseline left unchanged"@
    }
}

/// Closes out a scan that must not be promoted.
pub fn finish_unpromoted(config: &Config, stopped: bool, outcome: &mut Outcome) -> (r: Ending)
    ensures
        r.status@ == ending_status(old(outcome).low_space, stopped),
        r.code@ == ending_code(old(outcome).low_space, stopped),
        r.message@ == ending_message(*old(outcome), config.minimum_free_space_mib),
        *final(outcome) == (Outcome { status: r.status, ..*old(outcome) }),
{
    let (status, code): (&'static str, &'static str) = if outcome.low_space {
        ("partial", "low_space")
    } else if stopped {
        ("cancelled", "cancelled")
    } else {
        ("partial", "base_unreadable")
    };
    let message = if outcome.low_space {
        let mut m = "stopped at the ".to_owned();
        push_number(&mut m, config.minimum_free_space_mib);
        m.append(" MiB free-space floor; free space and rerun to resume");
        m
    } else if outcome.base_unreadable {
        "base directory is unreadable; baseline left unchanged".to_owned()
    } else {
        let mut m = String::new();
        push_number(&mut m, outcome.errors as u64);
        m.append(" error(s); baseline left unchanged");
        assert(m@ =~= decimal(outcome.errors as nat) + " error(s); baseline left unchanged"@);
        m
    };
    outcome.status = status;
    Ending { status, code, message }
}

/// Drops the staged entries that this attempt's walk did not meet. Every attempt
/// walks the whole tree again, so a path staged earlier but absent now must not
/// pass for present.
pub fn drop_vanished_staged(
    staged: PathTable<StageEntry>,
    walked: &PathTable<()>,
) -> (r: Narrowed<StageEntry>)
    ensures
        r.kept@ == staged@.restrict(walked@.dom()),
        r.kept.paths() == staged.paths().filter(|p: Seq<u8>| walked@.contains_key(p)),
        byte_views(r.dropped@) == staged.paths().filter(
            |p: Seq<u8>| !walked@.contains_key(p),
        ),
{
    staged.narrow(walked)
}

/// What a scan left behind once its walk has ended.
pub struct Attempt {
    pub staged: PathTable<StageEntry>,
    pub walked: PathTable<()>,
    pub errors: Vec<ErrorRow>,
}

/// The counts of a promoted scan as the catalogue holds them.
#[derive(Debug, Clone, Copy, PartialEq, Eq, Structural)]
pub struct Promoted {
    pub added: i64,
    pub updated: i64,
    pub deleted: i64,
    pub unchanged: i64,
    pub present: i64,
    pub errors: i64,
    pub staged_files: i64,
    pub staged_bytes: i64,
}

/// What a scan concludes.
pub enum Conclusion {
    /// Nothing: the baseline and the staging stay as they are.
    Kept(Ending),
    /// A new baseline. The staging is drained.
    Promoted { promotion: Promotion, dropped: Vec<Vec<u8>>, counts: Promoted },
}

impl Attempt {
    /// The staged entries that this attempt's walk met.
    pub open spec fn current(self) -> Map<Seq<u8>, StageEntry> {
        self.staged@.restrict(self.walked@.dom())
    }

    /// Their paths, in byte order.
    pub open spec fn current_paths(self) -> Seq<Seq<u8>> {
        self.staged.paths().filter(|p: Seq<u8>| self.walked@.contains_key(p))
    }

    /// The staged paths it did not meet, in byte order.
    pub open spec fn vanished(self) -> Seq<Seq<u8>> {
        self.staged.paths().filter(|p: Seq<u8>| !self.walked@.contains_key(p))
    }

    /// What promotion would decide from.
    pub open spec fn evidence(self, files: Map<Seq<u8>, FileRow>, scan_id: i64) -> Evidence {
        evidence(files, self.current(), self.errors@, scan_id)
    }

    /// Stopped, or without having read its base, it shows nothing.
    pub open spec fn inconclusive(self, stopped: bool) -> bool {
        stopped || base_unread(error_views(self.errors@))
    }
}

/// The baseline once a conclusion has been carried out.
pub open spec fn baseline_after(
    prior: Map<Seq<u8>, FileView>,
    c: Conclusion,
) -> Map<Seq<u8>, FileView> {
    match c {
        Conclusion::Kept(_) => prior,
        Conclusion::Promoted { promotion, .. } => overlay(prior, write_views(promotion.writes@)),
    }
}

/// The change rows a conclusion records.
pub open spec fn changes_in(c: Conclusion) -> nat {
    match c {
        Conclusion::Kept(_) => 0,
        Conclusion::Promoted { promotion, .. } => promotion.added@.len() + promotion.updated@.len()
            + promotion.deleted@.len(),
    }
}

/// Decides what a scan concludes, and fills in the rest of its outcome.
///
/// A problem with a single file stops nothing: a file that vanished is simply
/// gone, and an unreadable directory is shielded. A scan that was stopped keeps
/// its staging and leaves the baseline exactly as it was, and so does one that
/// could not read its base: the base prefixes every path, so that one failure
/// puts the whole baseline in doubt.
pub fn conclude(
    files: &PathTable<FileRow>,
    attempt: Attempt,
    stopped: bool,
    low_space: bool,
    config: &Config,
    outcome: &mut Outcome,
) -> (r: Result<Conclusion, AppError>)
    ensures
        ({
            let e = attempt.evidence(files@, old(outcome).scan_id);
            let errors = error_views(attempt.errors@);
            let o = *final(outcome);
            let ended = Outcome {
                unreadable_paths: o.unreadable_paths,
                base_unreadable: base_unread(errors),
                low_space,
                ..*old(outcome)
            };
            &&& o.unreadable_paths == Set::new(|p: Seq<u8>| unread_at(errors, p)).len()
            &&& r is Err <==> !attempt.inconclusive(stopped) && !size_fits(
                attempt.current(),
                attempt.current_paths(),
            )
            &&& match r {
                Err(err) => overflowed(err) && o == ended,
                Ok(Conclusion::Kept(end)) => {
                    &&& attempt.inconclusive(stopped)
                    &&& end.status@ == ending_status(low_space, stopped)
                    &&& end.code@ == ending_code(low_space, stopped)
                    &&& end.message@ == ending_message(ended, config.minimum_free_space_mib)
                    &&& o == (Outcome { status: end.status, ..ended })
                },
                Ok(Conclusion::Promoted { promotion, dropped, counts }) => {
                    &&& !attempt.inconclusive(stopped)
                    &&& e.decided(attempt.current_paths(), files.paths(), promotion)
                    &&& byte_views(dropped@) == attempt.vanished()
                    &&& o == (Outcome {
                        staged: o.staged,
                        added: promotion.added.len(),
                        updated: promotion.updated.len(),
                        deleted: promotion.deleted.len(),
                        unchanged: promotion.unchanged,
                        present: promotion.present,
                        unreadable: promotion.unreadable,
                        ..ended
                    })
                    &&& o.staged == e.seen.dom().len()
                    &&& counts == (Promoted {
                        added: o.added as i64,
                        updated: o.updated as i64,
                        deleted: o.deleted as i64,
                        unchanged: o.unchanged as i64,
                        present: o.present as i64,
                        errors: o.errors as i64,
                        staged_files: o.staged as i64,
                        staged_bytes: counts.staged_bytes,
                    })
                    &&& counts.staged_bytes == staged_size(
                        attempt.current(),
                        attempt.current_paths(),
                        attempt.current_paths().len() as int,
                    )
                },
            }
            &&& r matches Ok(c) ==> baseline_after(e.prior, c) == (if c is Kept {
                e.prior
            } else {
                e.after()
            })
        }),
{
    outcome.unreadable_paths = unreadable_path_count(&attempt.errors);
    outcome.base_unreadable = base_unreadable(&attempt.errors);
    outcome.low_space = low_space;
    if stopped || outcome.base_unreadable {
        return Ok(Conclusion::Kept(finish_unpromoted(config, stopped, outcome)));
    }
    let narrowed = drop_vanished_staged(attempt.staged, &attempt.walked);
    let (staged_files, staged_bytes) = match staged_totals(&narrowed.kept) {
        Ok(totals) => totals,
        Err(e) => {
            return Err(e);
        },
    };
    outcome.staged = staged_files;
    let p = promote(files, &narrowed.kept, &attempt.errors, outcome.scan_id);
    outcome.added = p.added.len();
    outcome.updated = p.updated.len();
    outcome.deleted = p.deleted.len();
    outcome.unchanged = p.unchanged;
    outcome.present = p.present;
    outcome.unreadable = p.unreadable;
    let counts = Promoted {
        added: #[verifier::truncate]
        (p.added.len() as i64),
        updated: #[verifier::truncate]
        (p.updated.len() as i64),
        deleted: #[verifier::truncate]
        (p.deleted.len() as i64),
        unchanged: #[verifier::truncate]
        (p.unchanged as i64),
        present: #[verifier::truncate]
        (p.present as i64),
        errors: #[verifier::truncate]
        (outcome.errors as i64),
        staged_files: #[verifier::truncate]
        (staged_files as i64),
        staged_bytes,
    };
    Ok(Conclusion::Promoted { promotion: p, dropped: narrowed.dropped, counts })
}

/// Takes in how retention went. It runs after promotion and outside of it, so its
/// failure undoes nothing: it gives a warning, and the outcome stays as it was.
pub fn run_retention(outcome: &mut Outcome, result: Result<BasePrune, AppError>) -> (r: Option<
    String,
>)
    ensures
        match result {
            Ok(p) => r is None && *final(outcome) == (Outcome {
                pruned_changes: p.changes,
                pruned_files: p.files,
                ..*old(outcome)
            }),
            Err(e) => {
                &&& r matches Some(warning) && warning@ == "history prune failed: "@ + e.message@
                &&& *final(outcome) == *old(outcome)
            },
        },
{
    match result {
        Ok(p) => {
            outcome.pruned_changes = p.changes;
            outcome.pruned_files = p.files;
            None
        },
        Err(e) => {
            let mut warning = "history prune failed: ".to_owned();
            warning.append(e.message.as_str());
            Some(warning)
        },
    }
}

/// A scan that is not promoted leaves the baseline exactly as it was and records
/// no change.
pub proof fn law_unpromoted_changes_nothing(prior: Map<Seq<u8>, FileView>, end: Ending)
    ensures
        baseline_after(prior, Conclusion::Kept(end)) == prior,
        changes_in(Conclusion::Kept(end)) == 0,
{
}

/// Below the base no problem keeps a scan from being promoted: only a stop, or a
/// problem on the base itself, does.
pub proof fn law_only_an_unread_base_refuses(a: Attempt)
    requires
        forall|i: int|
            0 <= i < a.errors@.len() ==> (#[trigger] error_views(a.errors@)[i]).rel != Some(
                Seq::<u8>::empty(),
            ),
    ensures
        !a.inconclusive(false),
        a.inconclusive(true),
{
}

/// A scan that was not promoted is the one the next scan of its base continues,
/// and one that was promoted is never continued.
pub proof fn law_unpromoted_is_resumed(rows: Seq<ScanRow>, row: ScanRow, low: bool, stopped: bool)
    ensures
        row.status.word() == ending_status(low, stopped) ==> newest_resumable(rows.push(row))
            == Some(row),
        row.status.word() == "complete"@ ==> newest_resumable(rows.push(row))
            == newest_resumable(rows),
{
    reveal_strlit("complete");
    reveal_strlit("cancelled");
    reveal_strlit("partial");
    reveal_strlit("running");
    reveal_strlit("failed");
    assert(rows.push(row).drop_last() =~= rows);
    assert("complete"@.len() == 8);
    assert("cancelled"@.len() == 9);
    assert("partial"@.len() == 7);
    assert("running"@.len() == 7 && "running"@[0] == 'r');
    assert("failed"@.len() == 6);
}

/// A process that ends well has promoted its scan and listed every directory;
/// one that reports a gap has promoted it all the same.
pub proof fn law_success_means_promoted(o: Outcome)
    ensures
        exit_of(o) == EXIT_OK <==> o.status@ == "complete"@ && o.unreadable_dirs == 0,
        exit_of(o) == EXIT_INCOMPLETE <==> o.status@ == "complete"@ && o.unreadable_dirs > 0,
{
}

/// A staged path that this attempt's walk did not meet is evidence of nothing.
pub proof fn law_vanished_paths_are_not_seen(
    a: Attempt,
    files: Map<Seq<u8>, FileRow>,
    scan_id: i64,
    p: Seq<u8>,
)
    requires
        !a.walked@.contains_key(p),
    ensures
        !a.evidence(files, scan_id).seen.contains_key(p),
{
}

/// The exit code of a scan: 0 where it was promoted and every directory was listed, 7
/// where it was promoted with a gap, 130 where it was cancelled, 5 where it stopped at
/// the free-space floor, and 1 where it ended otherwise.
pub proof fn law_exit_code_of_a_scan(o: Outcome)
    ensures
        o.status@ == "complete"@ && o.unreadable_dirs == 0 ==> exit_of(o) == 0,
        o.status@ == "complete"@ && o.unreadable_dirs > 0 ==> exit_of(o) == 7,
        o.status@ == "cancelled"@ ==> exit_of(o) == 130,
        o.status@ != "complete"@ && o.status@ != "cancelled"@ && o.low_space ==> exit_of(o) == 5,
        o.status@ != "complete"@ && o.status@ != "cancelled"@ && !o.low_space ==> exit_of(o) == 1,
{
    reveal_strlit("complete");
    reveal_strlit("cancelled");
    assert("complete"@.len() != "cancelled"@.len());
}

/// A scan that is not promoted is recorded by what stopped it: the floor before
/// anything else, then a stop, then a base that could not be read.
pub proof fn law_endings_are_told_apart(o: Outcome, stopped: bool, mib: u64)
    ensures
        ending_status(true, stopped) == "partial"@,
        ending_code(true, stopped) == "low_space"@,
        ending_status(false, true) == "cancelled"@,
        ending_code(false, true) == "cancelled"@,
        ending_status(false, false) == "partial"@,
        ending_code(false, false) == "base_unreadable"@,
        o.low_space ==> ending_message(o, mib) == "stopped at the "@ + decimal(mib as nat)
            + " MiB free-space floor; free space and rerun to resume"@,
        !o.low_space && o.base_unreadable ==> ending_message(o, mib)
            == "base directory is unreadable; baseline left unchanged"@,
        !o.low_space && !o.base_unreadable ==> ending_message(o, mib) == decimal(o.errors as nat)
            + " error(s); baseline left unchanged"@,
{
}

/// The base went unread exactly when some problem lies on the empty path, whatever
/// its code; only then, or when stopped, is a scan inconclusive.
pub proof fn law_a_problem_on_the_base_settles_it(a: Attempt, stopped: bool)
    ensures
        a.inconclusive(stopped) <==> stopped || exists|i: int|
            #![trigger a.errors@[i]]
            0 <= i < a.errors@.len() && (a.errors@[i].rel matches Some(rel) && rel@.len() == 0),
{
    let views = error_views(a.errors@);
    assert(forall|i: int| 0 <= i < views.len() ==> #[trigger] views[i] == a.errors@[i]@);
    if base_unread(views) {
        let i = choose|i: int|
            0 <= i < views.len() && (#[trigger] views[i]).rel == Some(Seq::<u8>::empty());
        assert(a.errors@[i].rel is Some);
    }
    assert forall|i: int|
        #![trigger a.errors@[i]]
        0 <= i < a.errors@.len() && (a.errors@[i].rel matches Some(rel) && rel@.len()
            == 0) implies base_unread(views) by {
        assert(views[i] == a.errors@[i]@);
        assert(views[i].rel->0 =~= Seq::<u8>::empty());
        assert(views[i].rel == Some(Seq::<u8>::empty()));
    }
}

/// A path counts as unread exactly when some problem of a kind that leaves contents
/// unknown lies on it.
pub proof fn law_unread_paths(errors: Seq<ErrorRow>, p: Seq<u8>)
    ensures
        unread_at(error_views(errors), p) <==> exists|i: int|
            #![trigger errors[i]]
            0 <= i < errors.len() && (errors[i].rel matches Some(rel) && rel@ == p) && (
            errors[i].code@ == "permission_denied"@ || errors[i].code@ == "io_error"@
                || errors[i].code@ == "invalid_data"@ || errors[i].code@ == "resource_exhausted"@),
{
    let views = error_views(errors);
    assert(forall|i: int| 0 <= i < views.len() ==> #[trigger] views[i] == errors[i]@);
    if unread_at(views, p) {
        let i = choose|i: int|
            0 <= i < views.len() && (#[trigger] views[i]).rel == Some(p) && unreadable_code(
                views[i].code,
            );
        assert(errors[i].rel is Some);
    }
    assert forall|i: int|
        #![trigger errors[i]]
        0 <= i < errors.len() && (errors[i].rel matches Some(rel) && rel@ == p) && (errors[i].code@
            == "permission_denied"@ || errors[i].code@ == "io_error"@ || errors[i].code@
            == "invalid_data"@ || errors[i].code@ == "resource_exhausted"@) implies unread_at(
        views,
        p,
    ) by {
        assert(views[i] == errors[i]@);
        assert(views[i].rel == Some(p));
    }
}

/// An attempt saw a file exactly when its walk met it and it is staged completely; it
/// goes by what is staged. It is promoted on the baseline's rows, under its own
/// number, with every problem it met.
pub proof fn law_an_attempt_saw_what_it_met_and_staged(
    a: Attempt,
    files: Map<Seq<u8>, FileRow>,
    scan_id: i64,
    p: Seq<u8>,
)
    ensures
        ({
            let e = a.evidence(files, scan_id);
            &&& e.seen.contains_key(p) <==> a.walked@.contains_key(p) && a.staged@.contains_key(p)
                && a.staged@[p].complete
            &&& e.seen.contains_key(p) ==> e.seen[p] == a.staged@[p].facts@
            &&& e.prior.contains_key(p) <==> files.contains_key(p)
            &&& files.contains_key(p) ==> e.prior[p] == files[p]@
            &&& e.errors == error_views(a.errors@)
            &&& e.scan_id == scan_id
            &&& a.current_paths() == a.staged.paths().filter(
                |q: Seq<u8>| a.walked@.contains_key(q),
            )
            &&& a.vanished() == a.staged.paths().filter(|q: Seq<u8>| !a.walked@.contains_key(q))
        }),
{
    assert(a.walked@.contains_key(p) == a.walked@.dom().contains(p));
}

/// Sizes of complete entries are added up, path by path; others count nothing.
pub proof fn law_sizes_are_added_up(
    staged: Map<Seq<u8>, StageEntry>,
    paths: Seq<Seq<u8>>,
    n: int,
)
    requires
        0 <= n < paths.len(),
    ensures
        staged_size(staged, paths, 0) == 0,
        staged[paths[n]].complete ==> staged_size(staged, paths, n + 1) == staged_size(
            staged,
            paths,
            n,
        ) + staged[paths[n]].facts.size_bytes,
        !staged[paths[n]].complete ==> staged_size(staged, paths, n + 1) == staged_size(
            staged,
            paths,
            n,
        ),
{
}

/// The sum fits exactly when no part of it, taken in order, leaves 64 bits.
pub proof fn law_sums_that_fit(staged: Map<Seq<u8>, StageEntry>, paths: Seq<Seq<u8>>, e: AppError)
    ensures
        size_fits(staged, paths) <==> (forall|n: int|
            0 <= n <= paths.len() ==> -0x8000_0000_0000_0000 <= #[trigger] staged_size(
                staged,
                paths,
                n,
            ) <= 0x7fff_ffff_ffff_ffff),
        overflowed(e) <==> e.code == 1 && e.message@ == "database: "@ + "integer overflow"@,
{
}

/// A conclusion that keeps the baseline leaves it as it was and records nothing; one
/// that promotes writes its rows over it, and records its changes.
pub proof fn law_conclusions_carried_out(
    prior: Map<Seq<u8>, FileView>,
    promotion: Promotion,
    dropped: Vec<Vec<u8>>,
    counts: Promoted,
)
    ensures
        ({
            let c = Conclusion::Promoted { promotion, dropped, counts };
            &&& baseline_after(prior, c) == overlay(prior, write_views(promotion.writes@))
            &&& changes_in(c) == promotion.added@.len() + promotion.updated@.len()
                + promotion.deleted@.len()
        }),
{
}

/// A refusal over policy spells out both sides, setting by setting.
pub proof fn law_mismatch_spells_out_both_sides(stored: Policy, configured: Policy)
    ensures
        flag(true) == "true"@,
        flag(false) == "false"@,
        mismatch_text(stored, configured) == "base was indexed with skip_hidden="@ + (
        if stored.skip_hidden {
            "true"@
        } else {
            "false"@
        }) + ", skip_mount_boundaries="@ + (if stored.skip_mount_boundaries {
            "true"@
        } else {
            "false"@
        }) + ", follow_symlinks="@ + (if stored.follow_symlinks {
            "true"@
        } else {
            "false"@
        }) + "; configuration now says "@ + (if configured.skip_hidden {
            "true"@
        } else {
            "false"@
        }) + ", "@ + (if configured.skip_mount_boundaries {
            "true"@
        } else {
            "false"@
        }) + ", "@ + (if configured.follow_symlinks {
            "true"@
        } else {
            "false"@
        }),
{
}

/// Where the floor comes from is told with its size.
pub proof fn law_space_source(mib: u64)
    ensures
        space_source(mib) == "storage.minimum_free_space_mib = "@ + decimal(mib as nat)
            + ", rechecked every batch"@,
{
}

/// A clock that is set before the epoch reads as the epoch, and any other as the
/// nanoseconds since.
pub proof fn law_clock_readings(ns: u128)
    ensures
        stamped(None) == 0,
        stamped(Some(ns)) == ns as i64,
        ns <= i64::MAX ==> stamped(Some(ns)) == ns,
{
}

} // verus!
