//! Retention. Change rows grow with change events, so a rename high in a large
//! tree can write millions that nothing ever removes. This bounds them to the
//! newest complete scans of each base.
//!
//! Two prunes share one cutoff: the change rows, and the file rows that deletions
//! left behind. Scans themselves are kept.

use vstd::prelude::*;

use crate::config::Config;
use crate::rows::Presence;
use crate::text::same_text;

verus! {

/// How far a scan got.
#[derive(Debug, Clone, Copy, PartialEq, Eq, Structural)]
pub enum ScanStatus {
    Running,
    Complete,
    Cancelled,
    Failed,
    Partial,
}

impl ScanStatus {
    /// The word that stands for this status in the catalogue.
    pub open spec fn word(self) -> Seq<char> {
        match self {
            ScanStatus::Running => "running"@,
            ScanStatus::Complete => "complete"@,
            ScanStatus::Cancelled => "cancelled"@,
            ScanStatus::Failed => "failed"@,
            ScanStatus::Partial => "partial"@,
        }
    }

    pub fn as_str(&self) -> (r: &'static str)
        ensures
            r@ == self.word(),
    {
        match self {
            ScanStatus::Running => "running",
            ScanStatus::Complete => "complete",
            ScanStatus::Cancelled => "cancelled",
            ScanStatus::Failed => "failed",
            ScanStatus::Partial => "partial",
        }
    }

    /// The status that a word stands for.
    pub fn from_word(word: &str) -> (r: Option<ScanStatus>)
        ensures
            match r {
                Some(s) => word@ == s.word(),
                None => forall|s: ScanStatus| word@ != #[trigger] s.word(),
            },
    {
        if same_text(word, "running") {
            Some(ScanStatus::Running)
        } else if same_text(word, "complete") {
            Some(ScanStatus::Complete)
        } else if same_text(word, "cancelled") {
            Some(ScanStatus::Cancelled)
        } else if same_text(word, "failed") {
            Some(ScanStatus::Failed)
        } else if same_text(word, "partial") {
            Some(ScanStatus::Partial)
        } else {
            None
        }
    }
}

/// One scan of a base.
#[derive(Debug, Clone, Copy, PartialEq, Eq, Structural)]
pub struct ScanRow {
    pub scan_id: i64,
    pub status: ScanStatus,
    pub started_at_ns: i64,
}

/// The scans of one base, oldest first.
pub struct ScanLog {
    rows: Vec<ScanRow>,
}

/// Each scan has a larger number than the ones before it.
pub open spec fn numbered(rows: Seq<ScanRow>) -> bool {
    forall|i: int, j: int| 0 <= i < j < rows.len() ==> rows[i].scan_id < rows[j].scan_id
}

impl View for ScanLog {
    type V = Seq<ScanRow>;

    closed spec fn view(&self) -> Seq<ScanRow> {
        self.rows@
    }
}

impl ScanLog {
    #[verifier::type_invariant]
    spec fn in_order(self) -> bool {
        numbered(self.rows@)
    }

    pub fn new() -> (r: ScanLog)
        ensures
            r@ == Seq::<ScanRow>::empty(),
    {
        ScanLog { rows: Vec::new() }
    }

    /// Adds a scan newer than every one present. Another is refused.
    pub fn push(&mut self, row: ScanRow) -> (accepted: bool)
        ensures
            accepted <==> (old(self)@.len() == 0 || old(self)@.last().scan_id < row.scan_id),
            accepted ==> final(self)@ == old(self)@.push(row),
            !accepted ==> final(self)@ == old(self)@,
            numbered(final(self)@),
    {
        proof {
            use_type_invariant(&*self);
        }
        let n: usize = self.rows.len();
        if n > 0 && self.rows[n - 1].scan_id >= row.scan_id {
            return false;
        }
        let mut rows: Vec<ScanRow> = Vec::new();
        std::mem::swap(&mut rows, &mut self.rows);
        rows.push(row);
        self.rows = rows;
        true
    }
}

/// A scan that never completed: its durable work is worth reusing. A scan left
/// running is a crash, the others are ordinary stops.
pub open spec fn is_resumable(row: ScanRow) -> bool {
    row.status != ScanStatus::Complete
}

/// The newest scan that never completed.
pub open spec fn newest_resumable(rows: Seq<ScanRow>) -> Option<ScanRow>
    decreases rows.len(),
{
    if rows.len() == 0 {
        None
    } else if is_resumable(rows.last()) {
        Some(rows.last())
    } else {
        newest_resumable(rows.drop_last())
    }
}

/// The complete scans, oldest first.
pub open spec fn complete_scans(rows: Seq<ScanRow>) -> Seq<ScanRow> {
    rows.filter(|r: ScanRow| r.status == ScanStatus::Complete)
}

/// The oldest scan a window of `keep` complete scans keeps; none while there are
/// fewer. Scans that never completed do not count: a run of failures must not age
/// out real history. The baseline's own history is never beyond the window.
pub open spec fn oldest_kept(
    rows: Seq<ScanRow>,
    keep: u64,
    baseline: Option<i64>,
) -> Option<i64> {
    let done = complete_scans(rows);
    if keep == 0 || done.len() < keep {
        None
    } else {
        let edge = done[done.len() - keep].scan_id;
        match baseline {
            Some(b) => Some(
                if b < edge {
                    b
                } else {
                    edge
                },
            ),
            None => Some(edge),
        }
    }
}

impl ScanLog {
    /// The scan that the next ingest continues.
    pub fn resumable(&self) -> (r: Option<ScanRow>)
        ensures
            r == newest_resumable(self@),
    {
        let mut i: usize = self.rows.len();
        assert(self.rows@.take(i as int) =~= self.rows@);
        while i > 0
            invariant
                i <= self.rows@.len(),
                newest_resumable(self.rows@.take(i as int)) == newest_resumable(self.rows@),
            decreases i,
        {
            let row = self.rows[i - 1];
            assert(self.rows@.take(i as int).last() == row);
            assert(self.rows@.take(i as int).drop_last() =~= self.rows@.take(i - 1));
            if row.status != ScanStatus::Complete {
                return Some(row);
            }
            i = i - 1;
        }
        None
    }

    /// The oldest scan to keep. History strictly before it is prunable.
    pub fn cutoff(&self, keep_scans: u64, baseline: Option<i64>) -> (r: Option<i64>)
        ensures
            r == oldest_kept(self@, keep_scans, baseline),
    {
        if keep_scans == 0 {
            return None;
        }
        let ghost rows = self.rows@;
        let ghost done = |r: ScanRow| r.status == ScanStatus::Complete;
        let mut i: usize = self.rows.len();
        let mut found: u64 = 0;
        proof {
            reveal(Seq::filter);
            assert(rows.skip(i as int) =~= Seq::<ScanRow>::empty());
        }
        while i > 0
            invariant
                i <= rows.len(),
                rows == self.rows@,
                done == (|r: ScanRow| r.status == ScanStatus::Complete),
                found == rows.skip(i as int).filter(done).len(),
                found < keep_scans,
            decreases i,
        {
            let row = self.rows[i - 1];
            proof {
                let tail = rows.skip(i as int);
                assert(rows.skip(i - 1) =~= seq![row] + tail);
                Seq::filter_distributes_over_add(seq![row], tail, done);
                reveal_with_fuel(Seq::filter, 2);
                assert(seq![row].drop_last() =~= Seq::<ScanRow>::empty());
            }
            if row.status == ScanStatus::Complete {
                found = found + 1;
                if found == keep_scans {
                    proof {
                        let head = rows.take(i - 1);
                        let tail = rows.skip(i - 1);
                        assert(rows =~= head + tail);
                        Seq::filter_distributes_over_add(head, tail, done);
                        let all = rows.filter(done);
                        assert(all == head.filter(done) + tail.filter(done));
                        assert(tail.filter(done).len() == keep_scans);
                        assert(tail.filter(done)[0] == row);
                        assert(all[all.len() - keep_scans] == row);
                    }
                    let edge: i64 = row.scan_id;
                    return Some(
                        match baseline {
                            Some(b) => if b < edge {
                                b
                            } else {
                                edge
                            },
                            None => edge,
                        },
                    );
                }
            }
            i = i - 1;
        }
        proof {
            assert(rows.skip(0) =~= rows);
        }
        None
    }
}

/// How many change rows one scan left.
#[derive(Debug, Clone, Copy, PartialEq, Eq, Structural)]
pub struct ChangeTally {
    pub scan_id: i64,
    pub rows: u64,
}

/// How many file rows share a presence and the scan that deleted them.
#[derive(Debug, Clone, Copy, PartialEq, Eq, Structural)]
pub struct FileTally {
    pub presence: Presence,
    pub deleted_in_scan_id: Option<i64>,
    pub rows: u64,
}

/// Change rows of a scan before the cutoff.
pub open spec fn change_is_old(scan_id: i64, cutoff: i64) -> bool {
    scan_id < cutoff
}

/// File rows that a scan before the cutoff settled as deleted. An unreadable row
/// is live state: what could not be read is not evidence that it is gone.
pub open spec fn file_is_old(
    presence: Presence,
    deleted_in_scan_id: Option<i64>,
    cutoff: i64,
) -> bool {
    presence == Presence::Deleted && (deleted_in_scan_id matches Some(s) && s < cutoff)
}

/// Change rows before the cutoff.
pub open spec fn old_changes(tallies: Seq<ChangeTally>, cutoff: i64) -> nat
    decreases tallies.len(),
{
    if tallies.len() == 0 {
        0
    } else {
        old_changes(tallies.drop_last(), cutoff) + (if change_is_old(
            tallies.last().scan_id,
            cutoff,
        ) {
            tallies.last().rows as nat
        } else {
            0
        })
    }
}

/// File rows settled as deleted before the cutoff.
pub open spec fn old_files(tallies: Seq<FileTally>, cutoff: i64) -> nat
    decreases tallies.len(),
{
    if tallies.len() == 0 {
        0
    } else {
        old_files(tallies.drop_last(), cutoff) + (if file_is_old(
            tallies.last().presence,
            tallies.last().deleted_in_scan_id,
            cutoff,
        ) {
            tallies.last().rows as nat
        } else {
            0
        })
    }
}

proof fn lemma_old_changes_grow(tallies: Seq<ChangeTally>, cutoff: i64, i: int)
    requires
        0 <= i <= tallies.len(),
    ensures
        old_changes(tallies.take(i), cutoff) <= old_changes(tallies, cutoff),
    decreases tallies.len() - i,
{
    if i < tallies.len() {
        lemma_old_changes_grow(tallies, cutoff, i + 1);
        assert(tallies.take(i + 1).drop_last() =~= tallies.take(i));
    } else {
        assert(tallies.take(i) =~= tallies);
    }
}

proof fn lemma_old_files_grow(tallies: Seq<FileTally>, cutoff: i64, i: int)
    requires
        0 <= i <= tallies.len(),
    ensures
        old_files(tallies.take(i), cutoff) <= old_files(tallies, cutoff),
    decreases tallies.len() - i,
{
    if i < tallies.len() {
        lemma_old_files_grow(tallies, cutoff, i + 1);
        assert(tallies.take(i + 1).drop_last() =~= tallies.take(i));
    } else {
        assert(tallies.take(i) =~= tallies);
    }
}

fn count_changes(tallies: &Vec<ChangeTally>, cutoff: i64) -> (n: u64)
    requires
        old_changes(tallies@, cutoff) <= u64::MAX,
    ensures
        n == old_changes(tallies@, cutoff),
{
    let mut n: u64 = 0;
    let mut i: usize = 0;
    assert(tallies@.take(0) =~= Seq::<ChangeTally>::empty());
    while i < tallies.len()
        invariant
            i <= tallies@.len(),
            n == old_changes(tallies@.take(i as int), cutoff),
            old_changes(tallies@, cutoff) <= u64::MAX,
        decreases tallies.len() - i,
    {
        proof {
            assert(tallies@.take(i + 1).drop_last() =~= tallies@.take(i as int));
            lemma_old_changes_grow(tallies@, cutoff, i + 1);
        }
        if tallies[i].scan_id < cutoff {
            n = n + tallies[i].rows;
        }
        i = i + 1;
    }
    assert(tallies@.take(i as int) =~= tallies@);
    n
}

fn count_files(tallies: &Vec<FileTally>, cutoff: i64) -> (n: u64)
    requires
        old_files(tallies@, cutoff) <= u64::MAX,
    ensures
        n == old_files(tallies@, cutoff),
{
    let mut n: u64 = 0;
    let mut i: usize = 0;
    assert(tallies@.take(0) =~= Seq::<FileTally>::empty());
    while i < tallies.len()
        invariant
            i <= tallies@.len(),
            n == old_files(tallies@.take(i as int), cutoff),
            old_files(tallies@, cutoff) <= u64::MAX,
        decreases tallies.len() - i,
    {
        proof {
            assert(tallies@.take(i + 1).drop_last() =~= tallies@.take(i as int));
            lemma_old_files_grow(tallies@, cutoff, i + 1);
        }
        let t = tallies[i];
        if t.presence == Presence::Deleted {
            if let Some(s) = t.deleted_in_scan_id {
                if s < cutoff {
                    n = n + t.rows;
                }
            }
        }
        i = i + 1;
    }
    assert(tallies@.take(i as int) =~= tallies@);
    n
}

/// What retention finds prunable in one base.
#[derive(Debug)]
pub struct BasePrune {
    pub base_path: String,
    /// Oldest scan kept. `None` when nothing ages out yet.
    pub cutoff: Option<i64>,
    pub changes: u64,
    pub files: u64,
}

impl BasePrune {
    pub fn total(&self) -> (n: u64)
        requires
            self.changes + self.files <= u64::MAX,
        ensures
            n == self.changes + self.files,
    {
        self.changes + self.files
    }
}

/// How far pruning goes.
#[derive(Debug, Clone, Copy, PartialEq, Eq, Structural)]
pub struct PrunePlan {
    /// The database is opened for writing; otherwise it is only looked at.
    pub writes: bool,
    /// There is a window, so that history can age out of it.
    pub prunes: bool,
    /// The writer lock is held meanwhile.
    pub locks: bool,
}

/// Decides how far pruning goes. A preview writes nothing and takes no lock, so that
/// it stays available while a scan is running. Without a window history is kept
/// forever.
pub fn plan_prune(config: &Config, apply: bool) -> (r: PrunePlan)
    ensures
        r == (PrunePlan {
            writes: apply,
            prunes: config.keep_scans > 0,
            locks: apply && config.keep_scans > 0,
        }),
{
    let prunes: bool = config.keep_scans > 0;
    PrunePlan { writes: apply, prunes, locks: apply && prunes }
}

/// What the catalogue holds of one base's past.
pub struct BaseHistory {
    pub base_path: String,
    pub baseline: Option<i64>,
    pub scans: ScanLog,
    pub changes: Vec<ChangeTally>,
    pub files: Vec<FileTally>,
}

impl BaseHistory {
    /// The oldest scan kept under a window of `keep` scans.
    pub open spec fn edge(self, keep: u64) -> Option<i64> {
        oldest_kept(self.scans@, keep, self.baseline)
    }

    /// The prunable rows can be counted. A table holds fewer rows than that.
    pub open spec fn countable(self, keep: u64) -> bool {
        self.edge(keep) matches Some(cutoff) ==> old_changes(self.changes@, cutoff) <= u64::MAX
            && old_files(self.files@, cutoff) <= u64::MAX
    }

    /// What is prunable, under a window of `keep` scans.
    pub open spec fn pruned(self, keep: u64, p: BasePrune) -> bool {
        &&& p.base_path@ == self.base_path@
        &&& p.cutoff == self.edge(keep)
        &&& match self.edge(keep) {
            Some(cutoff) => p.changes == old_changes(self.changes@, cutoff) && p.files
                == old_files(self.files@, cutoff),
            None => p.changes == 0 && p.files == 0,
        }
    }
}

/// Counts what is prunable in one base.
pub fn prune_base(base: &BaseHistory, config: &Config) -> (r: BasePrune)
    requires
        base.countable(config.keep_scans),
    ensures
        base.pruned(config.keep_scans, r),
{
    let mut out = BasePrune {
        base_path: base.base_path.clone(),
        cutoff: base.scans.cutoff(config.keep_scans, base.baseline),
        changes: 0,
        files: 0,
    };
    if let Some(cutoff) = out.cutoff {
        out.changes = count_changes(&base.changes, cutoff);
        out.files = count_files(&base.files, cutoff);
    }
    out
}

/// Counts what is prunable in every base.
pub fn prune_all(bases: &Vec<BaseHistory>, config: &Config) -> (r: Vec<BasePrune>)
    requires
        forall|i: int|
            0 <= i < bases@.len() ==> (#[trigger] bases@[i]).countable(config.keep_scans),
    ensures
        r@.len() == bases@.len(),
        forall|i: int|
            0 <= i < bases@.len() ==> (#[trigger] bases@[i]).pruned(config.keep_scans, r@[i]),
{
    let mut out: Vec<BasePrune> = Vec::new();
    let mut i: usize = 0;
    while i < bases.len()
        invariant
            i <= bases@.len(),
            out@.len() == i,
            forall|k: int|
                0 <= k < bases@.len() ==> (#[trigger] bases@[k]).countable(config.keep_scans),
            forall|k: int|
                0 <= k < i ==> (#[trigger] bases@[k]).pruned(config.keep_scans, out@[k]),
        decreases bases.len() - i,
    {
        out.push(prune_base(&bases[i], config));
        i = i + 1;
    }
    out
}

/// The scans whose change rows are before the cutoff.
pub open spec fn old_change_scans(tallies: Seq<ChangeTally>, cutoff: i64) -> Seq<ChangeTally> {
    tallies.filter(|t: ChangeTally| change_is_old(t.scan_id, cutoff))
}

/// The groups of file rows settled as deleted before the cutoff.
pub open spec fn old_file_groups(tallies: Seq<FileTally>, cutoff: i64) -> Seq<FileTally> {
    tallies.filter(|t: FileTally| file_is_old(t.presence, t.deleted_in_scan_id, cutoff))
}

/// Everything that retention removes from one base.
#[derive(Debug)]
pub struct Expired {
    pub changes: Vec<ChangeTally>,
    pub files: Vec<FileTally>,
}

/// Lists what is prunable in one base, group by group.
pub fn expired(base: &BaseHistory, config: &Config) -> (r: Expired)
    ensures
        match base.edge(config.keep_scans) {
            Some(cutoff) => {
                &&& r.changes@ == old_change_scans(base.changes@, cutoff)
                &&& r.files@ == old_file_groups(base.files@, cutoff)
            },
            None => r.changes@.len() == 0 && r.files@.len() == 0,
        },
{
    let mut changes: Vec<ChangeTally> = Vec::new();
    let mut files: Vec<FileTally> = Vec::new();
    if let Some(cutoff) = base.scans.cutoff(config.keep_scans, base.baseline) {
        let ghost old_change = |t: ChangeTally| change_is_old(t.scan_id, cutoff);
        let ghost old_file = |t: FileTally|
            file_is_old(t.presence, t.deleted_in_scan_id, cutoff);
        let mut i: usize = 0;
        proof {
            reveal(Seq::filter);
            assert(base.changes@.take(0) =~= Seq::<ChangeTally>::empty());
            assert(base.files@.take(0) =~= Seq::<FileTally>::empty());
        }
        while i < base.changes.len()
            invariant
                i <= base.changes@.len(),
                old_change == (|t: ChangeTally| change_is_old(t.scan_id, cutoff)),
                changes@ == base.changes@.take(i as int).filter(old_change),
            decreases base.changes.len() - i,
        {
            let t = base.changes[i];
            proof {
                reveal(Seq::filter);
                assert(base.changes@.take(i + 1).drop_last() =~= base.changes@.take(i as int));
            }
            if t.scan_id < cutoff {
                changes.push(t);
            }
            i = i + 1;
        }
        let mut j: usize = 0;
        while j < base.files.len()
            invariant
                j <= base.files@.len(),
                old_file == (|t: FileTally|
                    file_is_old(t.presence, t.deleted_in_scan_id, cutoff)),
                files@ == base.files@.take(j as int).filter(old_file),
            decreases base.files.len() - j,
        {
            let t = base.files[j];
            proof {
                reveal(Seq::filter);
                assert(base.files@.take(j + 1).drop_last() =~= base.files@.take(j as int));
            }
            if t.presence == Presence::Deleted {
                if let Some(s) = t.deleted_in_scan_id {
                    if s < cutoff {
                        files.push(t);
                    }
                }
            }
            j = j + 1;
        }
        proof {
            assert(base.changes@.take(i as int) =~= base.changes@);
            assert(base.files@.take(j as int) =~= base.files@);
        }
    }
    Expired { changes, files }
}

/// A deletion of several groups of rows, in statements of at most a batch of rows
/// each: one statement over millions of rows would build a journal the size of the
/// thing being shrunk.
#[derive(Debug, Clone, Copy, PartialEq, Eq, Structural)]
pub struct Sweep {
    /// How many groups there are, and which one is being removed.
    pub groups: usize,
    pub at: usize,
    pub batch: usize,
    pub total: u64,
}

impl Sweep {
    /// After a statement that removed this many rows. One that removed fewer than
    /// a batch was the last of its group.
    pub open spec fn after(self, rows: usize) -> Sweep {
        Sweep {
            at: if rows < self.batch {
                (self.at + 1) as usize
            } else {
                self.at
            },
            total: (self.total + rows) as u64,
            ..self
        }
    }

    pub fn new(groups: usize, batch: usize) -> (r: Sweep)
        ensures
            r == (Sweep { groups, at: 0, batch, total: 0 }),
    {
        Sweep { groups, at: 0, batch, total: 0 }
    }

    /// The group to remove rows from next.
    pub fn group(&self) -> (r: Option<usize>)
        ensures
            r == (if self.at < self.groups {
                Some(self.at)
            } else {
                None
            }),
    {
        if self.at < self.groups {
            Some(self.at)
        } else {
            None
        }
    }

    /// Takes in how many rows the last statement removed.
    pub fn removed(&mut self, rows: usize)
        requires
            old(self).at < old(self).groups,
            old(self).total + rows <= u64::MAX,
        ensures
            *final(self) == old(self).after(rows),
    {
        self.total = self.total + rows as u64;
        if rows < self.batch {
            self.at = self.at + 1;
        }
    }
}

/// The rows of the groups from `from` on.
pub open spec fn rows_from(groups: Seq<nat>, from: int) -> nat
    decreases groups.len() - from,
{
    if from < 0 || from >= groups.len() {
        0
    } else {
        groups[from] + rows_from(groups, from + 1)
    }
}

/// A sweep run to its end over groups of these sizes, when every statement removes
/// a batch or what is left of its group.
pub open spec fn swept(s: Sweep, groups: Seq<nat>) -> Sweep
    decreases groups.len() - s.at,
        (if s.at < groups.len() {
            groups[s.at as int]
        } else {
            0
        }),
    when s.groups == groups.len() && s.batch > 0 && s.total + rows_from(groups, s.at as int)
        <= u64::MAX
    via swept_ends
{
    if s.at >= s.groups {
        s
    } else {
        let left = groups[s.at as int];
        let rows = if left < s.batch {
            left as usize
        } else {
            s.batch
        };
        swept(s.after(rows), groups.update(s.at as int, (left - rows) as nat))
    }
}

#[via_fn]
proof fn swept_ends(s: Sweep, groups: Seq<nat>) {
}

proof fn lemma_rows_update(groups: Seq<nat>, at: int, left: nat, from: int)
    requires
        0 <= at < groups.len(),
    ensures
        from > at ==> rows_from(groups.update(at, left), from) == rows_from(groups, from),
        from == at ==> rows_from(groups.update(at, left), from) == left + rows_from(
            groups,
            from + 1,
        ),
    decreases groups.len() - from,
{
    if at <= from < groups.len() {
        lemma_rows_update(groups, at, left, from + 1);
    }
}

/// A sweep removes every row of its groups, however large the batch: what is
/// deleted is what was counted.
pub proof fn law_sweep_removes_every_row(s: Sweep, groups: Seq<nat>)
    requires
        s.groups == groups.len(),
        s.at <= s.groups,
        s.batch > 0,
        s.total + rows_from(groups, s.at as int) <= u64::MAX,
    ensures
        swept(s, groups).total == s.total + rows_from(groups, s.at as int),
        swept(s, groups).at == s.groups,
    decreases groups.len() - s.at,
        (if s.at < groups.len() {
            groups[s.at as int]
        } else {
            0
        }),
{
    if s.at < s.groups {
        let left = groups[s.at as int];
        let rows = if left < s.batch {
            left as usize
        } else {
            s.batch
        };
        let rest = groups.update(s.at as int, (left - rows) as nat);
        lemma_rows_update(groups, s.at as int, (left - rows) as nat, s.at as int);
        lemma_rows_update(groups, s.at as int, (left - rows) as nat, s.at + 1);
        law_sweep_removes_every_row(s.after(rows), rest);
    }
}

/// The sizes of the groups that a preview counts.
pub open spec fn change_sizes(tallies: Seq<ChangeTally>) -> Seq<nat> {
    tallies.map_values(|t: ChangeTally| t.rows as nat)
}

pub open spec fn file_sizes(tallies: Seq<FileTally>) -> Seq<nat> {
    tallies.map_values(|t: FileTally| t.rows as nat)
}

proof fn lemma_rows_push(groups: Seq<nat>, last: nat, from: int)
    requires
        0 <= from <= groups.len(),
    ensures
        rows_from(groups.push(last), from) == rows_from(groups, from) + last,
    decreases groups.len() - from,
{
    if from < groups.len() {
        lemma_rows_push(groups, last, from + 1);
    } else {
        assert(rows_from(groups.push(last), from + 1) == 0);
    }
}

/// The rows listed for removal are as many as the preview counts.
pub proof fn law_preview_counts_what_is_removed(
    changes: Seq<ChangeTally>,
    files: Seq<FileTally>,
    cutoff: i64,
)
    ensures
        rows_from(change_sizes(old_change_scans(changes, cutoff)), 0) == old_changes(
            changes,
            cutoff,
        ),
        rows_from(file_sizes(old_file_groups(files, cutoff)), 0) == old_files(files, cutoff),
    decreases changes.len() + files.len(),
{
    reveal(Seq::filter);
    if changes.len() > 0 {
        let rest = changes.drop_last();
        law_preview_counts_what_is_removed(rest, files, cutoff);
        if change_is_old(changes.last().scan_id, cutoff) {
            let before = change_sizes(old_change_scans(rest, cutoff));
            let last = changes.last().rows as nat;
            assert(change_sizes(old_change_scans(changes, cutoff)) =~= before.push(last));
            lemma_rows_push(before, last, 0);
        }
    }
    if files.len() > 0 {
        let rest = files.drop_last();
        law_preview_counts_what_is_removed(changes, rest, cutoff);
        let t = files.last();
        if file_is_old(t.presence, t.deleted_in_scan_id, cutoff) {
            let before = file_sizes(old_file_groups(rest, cutoff));
            assert(file_sizes(old_file_groups(files, cutoff)) =~= before.push(t.rows as nat));
            lemma_rows_push(before, t.rows as nat, 0);
        }
    }
}

/// Nothing is pruned under a window that keeps everything.
pub proof fn law_zero_keeps_everything(rows: Seq<ScanRow>, baseline: Option<i64>)
    ensures
        oldest_kept(rows, 0, baseline) is None,
{
}

/// The baseline's own history, and that of every scan from the cutoff on, is
/// never prunable.
pub proof fn law_baseline_is_kept(rows: Seq<ScanRow>, keep: u64, baseline: i64)
    ensures
        oldest_kept(rows, keep, Some(baseline)) matches Some(cutoff) ==> !change_is_old(
            baseline,
            cutoff,
        ),
{
}

/// The newest `keep` complete scans keep their change rows.
pub proof fn law_window_keeps_newest(
    rows: Seq<ScanRow>,
    keep: u64,
    baseline: Option<i64>,
    i: int,
)
    requires
        numbered(rows),
        complete_scans(rows).len() - keep <= i < complete_scans(rows).len(),
        0 <= i,
    ensures
        oldest_kept(rows, keep, baseline) matches Some(cutoff) ==> !change_is_old(
            complete_scans(rows)[i].scan_id,
            cutoff,
        ),
{
    let done = complete_scans(rows);
    if keep > 0 && done.len() >= keep {
        lemma_filter_numbered(rows);
        let edge = done.len() - keep;
        if edge < i {
            assert(done[edge].scan_id < done[i].scan_id);
        }
    }
}

proof fn lemma_filter_numbered(rows: Seq<ScanRow>)
    requires
        numbered(rows),
    ensures
        numbered(complete_scans(rows)),
        forall|i: int|
            0 <= i < complete_scans(rows).len() && rows.len() > 0 ==> (#[trigger] complete_scans(
                rows,
            )[i]).scan_id <= rows.last().scan_id,
    decreases rows.len(),
{
    reveal(Seq::filter);
    if rows.len() > 0 {
        let rest = rows.drop_last();
        lemma_filter_numbered(rest);
        let done = complete_scans(rows);
        let before = complete_scans(rest);
        if rest.len() > 0 {
            assert(rest.last().scan_id < rows.last().scan_id);
        } else {
            assert(before.len() == 0);
        }
        assert forall|i: int, j: int| 0 <= i < j < done.len() implies done[i].scan_id
            < done[j].scan_id by {
            assert(i < before.len());
            assert(done[i] == before[i]);
            if j < before.len() {
                assert(done[j] == before[j]);
            }
        }
        assert forall|i: int| 0 <= i < done.len() implies (#[trigger] done[i]).scan_id
            <= rows.last().scan_id by {
            if i < before.len() {
                assert(done[i] == before[i]);
            }
        }
    }
}

/// Scans that never completed do not move the cutoff.
pub proof fn law_failures_age_nothing_out(
    rows: Seq<ScanRow>,
    failed: ScanRow,
    keep: u64,
    baseline: Option<i64>,
)
    requires
        failed.status != ScanStatus::Complete,
    ensures
        oldest_kept(rows.push(failed), keep, baseline) == oldest_kept(rows, keep, baseline),
{
    reveal(Seq::filter);
    assert(rows.push(failed).drop_last() =~= rows);
}

/// A row held as unreadable, or present, is never prunable.
pub proof fn law_only_settled_rows_are_pruned(
    presence: Presence,
    deleted_in_scan_id: Option<i64>,
    cutoff: i64,
)
    requires
        presence != Presence::Deleted,
    ensures
        !file_is_old(presence, deleted_in_scan_id, cutoff),
{
}

/// There is a cutoff exactly when a window is set and the base has at least that
/// many complete scans.
pub proof fn law_cutoff_needs_a_full_window(rows: Seq<ScanRow>, keep: u64, baseline: Option<i64>)
    ensures
        oldest_kept(rows, keep, baseline) is Some <==> keep > 0 && rows.filter(
            |r: ScanRow| r.status == ScanStatus::Complete,
        ).len() >= keep,
{
}

/// The cutoff is the complete scan that has exactly the rest of the window after it,
/// or the baseline where that is older still.
pub proof fn law_cutoff_is_the_oldest_of_the_newest(
    rows: Seq<ScanRow>,
    keep: u64,
    baseline: Option<i64>,
    i: int,
)
    requires
        0 <= i < rows.len(),
        rows[i].status == ScanStatus::Complete,
        rows.skip(i + 1).filter(|r: ScanRow| r.status == ScanStatus::Complete).len() + 1 == keep,
    ensures
        oldest_kept(rows, keep, baseline) == Some(
            match baseline {
                Some(b) => if b < rows[i].scan_id {
                    b
                } else {
                    rows[i].scan_id
                },
                None => rows[i].scan_id,
            },
        ),
{
    let done = |r: ScanRow| r.status == ScanStatus::Complete;
    let head = rows.take(i);
    let tail = rows.skip(i + 1);
    let one = seq![rows[i]];
    assert(rows =~= head + (one + tail));
    Seq::filter_distributes_over_add(head, one + tail, done);
    Seq::filter_distributes_over_add(one, tail, done);
    reveal_with_fuel(Seq::filter, 2);
    assert(one.drop_last() =~= Seq::<ScanRow>::empty());
    let all = rows.filter(done);
    assert(all == head.filter(done) + (one.filter(done) + tail.filter(done)));
    assert(one.filter(done) =~= one);
    assert(all[all.len() - keep] == rows[i]);
}

/// Where the baseline is no older than the window, exactly as many complete scans as
/// the window holds have a number at or above the cutoff: the history of every older
/// one is prunable. An older baseline only makes the cutoff lower.
pub proof fn law_window_holds_exactly_its_scans(
    rows: Seq<ScanRow>,
    keep: u64,
    baseline: Option<i64>,
)
    requires
        numbered(rows),
    ensures
        oldest_kept(rows, keep, baseline) matches Some(cutoff) ==> {
            let kept = rows.filter(
                |r: ScanRow| r.status == ScanStatus::Complete && r.scan_id >= cutoff,
            ).len();
            &&& kept >= keep
            &&& baseline != Some(cutoff) ==> kept == keep
            &&& baseline matches Some(b) ==> cutoff <= b
            &&& (baseline matches Some(b) && rows.filter(
                |r: ScanRow| r.status == ScanStatus::Complete && r.scan_id >= b,
            ).len() <= keep) ==> kept == keep
        },
{
    if let Some(cutoff) = oldest_kept(rows, keep, baseline) {
        lemma_counted_from(rows, cutoff);
        lemma_filter_numbered(rows);
        let done = complete_scans(rows);
        let at = done.len() - keep;
        let edge = done[at].scan_id;
        assert forall|j: int| at <= j < done.len() implies (#[trigger] done[j]).scan_id
            >= edge by {
            if at < j {
                assert(done[at].scan_id < done[j].scan_id);
            }
        }
        assert forall|j: int| 0 <= j < at implies (#[trigger] done[j]).scan_id < edge by {
            assert(done[j].scan_id < done[at].scan_id);
        }
        lemma_tail_from(done, edge, at);
        if cutoff < edge {
            lemma_lower_bound_keeps_more(done, cutoff, edge);
        }
    }
}

/// Counting the complete scans from a number on, straight or over the complete ones.
proof fn lemma_counted_from(rows: Seq<ScanRow>, from: i64)
    ensures
        rows.filter(|r: ScanRow| r.status == ScanStatus::Complete && r.scan_id >= from)
            == complete_scans(rows).filter(|r: ScanRow| r.scan_id >= from),
    decreases rows.len(),
{
    reveal(Seq::filter);
    if rows.len() > 0 {
        let rest = rows.drop_last();
        lemma_counted_from(rest, from);
        if rows.last().status == ScanStatus::Complete {
            assert(complete_scans(rows).drop_last() =~= complete_scans(rest));
        }
    }
}

proof fn lemma_tail_from(done: Seq<ScanRow>, edge: i64, at: int)
    requires
        0 <= at <= done.len(),
        forall|j: int| 0 <= j < at ==> (#[trigger] done[j]).scan_id < edge,
        forall|j: int| at <= j < done.len() ==> (#[trigger] done[j]).scan_id >= edge,
    ensures
        done.filter(|r: ScanRow| r.scan_id >= edge).len() == done.len() - at,
    decreases done.len(),
{
    reveal(Seq::filter);
    if done.len() > 0 {
        let rest = done.drop_last();
        assert(forall|j: int| 0 <= j < rest.len() ==> #[trigger] rest[j] == done[j]);
        assert(done[done.len() - 1] == done.last());
        if at < done.len() {
            lemma_tail_from(rest, edge, at);
        } else {
            lemma_tail_from(rest, edge, at - 1);
        }
    }
}

proof fn lemma_lower_bound_keeps_more(done: Seq<ScanRow>, low: i64, high: i64)
    requires
        low <= high,
    ensures
        done.filter(|r: ScanRow| r.scan_id >= low).len() >= done.filter(
            |r: ScanRow| r.scan_id >= high,
        ).len(),
    decreases done.len(),
{
    reveal(Seq::filter);
    if done.len() > 0 {
        lemma_lower_bound_keeps_more(done.drop_last(), low, high);
    }
}

/// The prunable change rows are those of the scans before the cutoff, counted scan by
/// scan.
pub proof fn law_change_rows_are_counted_scan_by_scan(
    tallies: Seq<ChangeTally>,
    t: ChangeTally,
    cutoff: i64,
)
    ensures
        old_changes(Seq::empty(), cutoff) == 0,
        old_changes(tallies.push(t), cutoff) == old_changes(tallies, cutoff) + (if t.scan_id
            < cutoff {
            t.rows as nat
        } else {
            0
        }),
        old_change_scans(Seq::empty(), cutoff) == Seq::<ChangeTally>::empty(),
        old_change_scans(tallies.push(t), cutoff) == (if t.scan_id < cutoff {
            old_change_scans(tallies, cutoff).push(t)
        } else {
            old_change_scans(tallies, cutoff)
        }),
{
    reveal(Seq::filter);
    assert(tallies.push(t).drop_last() =~= tallies);
}

/// The prunable file rows are those that a scan before the cutoff settled as deleted,
/// counted group by group. Rows that are present or unreadable, or that no scan is
/// known to have deleted, are not among them.
pub proof fn law_dead_rows_are_counted_group_by_group(
    tallies: Seq<FileTally>,
    t: FileTally,
    cutoff: i64,
)
    ensures
        ({
            let dead = t.presence == Presence::Deleted && (t.deleted_in_scan_id matches Some(s) && s
                < cutoff);
            &&& old_files(Seq::empty(), cutoff) == 0
            &&& old_files(tallies.push(t), cutoff) == old_files(tallies, cutoff) + (if dead {
                t.rows as nat
            } else {
                0
            })
            &&& old_file_groups(Seq::empty(), cutoff) == Seq::<FileTally>::empty()
            &&& old_file_groups(tallies.push(t), cutoff) == (if dead {
                old_file_groups(tallies, cutoff).push(t)
            } else {
                old_file_groups(tallies, cutoff)
            })
        }),
{
    reveal(Seq::filter);
    assert(tallies.push(t).drop_last() =~= tallies);
}

/// What retention finds in a base: nothing without a cutoff, and with one exactly the
/// change rows before it and the rows settled as deleted before it. The cutoff is
/// that of the base's own scans and baseline.
pub proof fn law_pruning_goes_by_the_cutoff(base: BaseHistory, keep: u64, p: BasePrune)
    requires
        base.pruned(keep, p),
    ensures
        p.base_path@ == base.base_path@,
        p.cutoff == oldest_kept(base.scans@, keep, base.baseline),
        base.edge(keep) == p.cutoff,
        p.cutoff is None ==> p.changes == 0 && p.files == 0,
        p.cutoff matches Some(cutoff) ==> p.changes == old_changes(base.changes@, cutoff) && p.files
            == old_files(base.files@, cutoff),
{
}

/// The scan that is continued never completed, and every one after it did; where none
/// is, all did.
pub proof fn law_continued_scan_is_the_newest_unfinished(rows: Seq<ScanRow>)
    ensures
        match newest_resumable(rows) {
            Some(row) => exists|i: int|
                0 <= i < rows.len() && #[trigger] rows[i] == row && row.status
                    != ScanStatus::Complete && (forall|j: int|
                    i < j < rows.len() ==> (#[trigger] rows[j]).status == ScanStatus::Complete),
            None => forall|j: int|
                0 <= j < rows.len() ==> (#[trigger] rows[j]).status == ScanStatus::Complete,
        },
    decreases rows.len(),
{
    if rows.len() > 0 {
        let rest = rows.drop_last();
        law_continued_scan_is_the_newest_unfinished(rest);
        assert(forall|j: int| 0 <= j < rest.len() ==> #[trigger] rest[j] == rows[j]);
        assert(rows[rows.len() - 1] == rows.last());
        if rows.last().status == ScanStatus::Complete {
            if let Some(row) = newest_resumable(rest) {
                let i = choose|i: int|
                    0 <= i < rest.len() && #[trigger] rest[i] == row && row.status
                        != ScanStatus::Complete && (forall|j: int|
                        i < j < rest.len() ==> (#[trigger] rest[j]).status
                            == ScanStatus::Complete);
                assert(rows[i] == row);
                assert forall|j: int| i < j < rows.len() implies (#[trigger] rows[j]).status
                    == ScanStatus::Complete by {
                    if j < rest.len() {
                        assert(rest[j] == rows[j]);
                    }
                }
            } else {
                assert forall|j: int| 0 <= j < rows.len() implies (#[trigger] rows[j]).status
                    == ScanStatus::Complete by {
                    if j < rest.len() {
                        assert(rest[j] == rows[j]);
                    }
                }
            }
        }
    }
}

/// The words of the catalogue for how far a scan got, no two alike.
pub proof fn law_status_words(a: ScanStatus, b: ScanStatus)
    ensures
        ScanStatus::Running.word() == "running"@,
        ScanStatus::Complete.word() == "complete"@,
        ScanStatus::Cancelled.word() == "cancelled"@,
        ScanStatus::Failed.word() == "failed"@,
        ScanStatus::Partial.word() == "partial"@,
        a.word() == b.word() ==> a == b,
{
    reveal_strlit("complete");
    reveal_strlit("cancelled");
    reveal_strlit("partial");
    reveal_strlit("running");
    reveal_strlit("failed");
    assert("complete"@.len() == 8);
    assert("cancelled"@.len() == 9);
    assert("partial"@.len() == 7 && "partial"@[0] == 'p');
    assert("running"@.len() == 7 && "running"@[0] == 'r');
    assert("failed"@.len() == 6);
}

/// A statement that removed a full batch is followed by another on the same group;
/// one that removed less was the group's last. Every row removed is counted.
pub proof fn law_a_short_statement_ends_its_group(s: Sweep, rows: usize)
    requires
        s.at < s.groups,
        s.total + rows <= u64::MAX,
    ensures
        s.after(rows).total == s.total + rows,
        s.after(rows).at == (if rows < s.batch {
            s.at + 1
        } else {
            s.at as int
        }),
        s.after(rows).groups == s.groups,
        s.after(rows).batch == s.batch,
{
}

} // verus!
