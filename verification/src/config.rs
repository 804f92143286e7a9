//! Configuration: system defaults first, the user's file over them, key by key.
//! A malformed file or an invalid value is a startup error, never a silent
//! fallback.

use vstd::prelude::*;
use vstd::string::*;

use crate::error::{AppError, EXIT_CONFIG};
use crate::rows::text_of;
use crate::text::{chars_of, same_text, text_between, texts};

verus! {

pub const SYSTEM_CONFIG: &'static str = "/etc/xdg/metainjester/metainjester.toml";
pub const USER_CONFIG_SUFFIX: &'static str = ".config/metainjester/metainjester.toml";

/// Which entries a walk includes. A baseline is only comparable with a scan
/// under the same three answers.
#[derive(Debug, Clone, Copy, PartialEq, Eq, Structural)]
pub struct Policy {
    pub skip_hidden: bool,
    pub skip_mount_boundaries: bool,
    pub follow_symlinks: bool,
}

/// `"auto"` or an explicit positive integer.
#[derive(Debug)]
pub enum AutoOr {
    Word(String),
    Num(u64),
}

/// A refusal to start: the configuration is wrong, in these words.
pub open spec fn misconfigured(e: AppError, message: Seq<char>) -> bool {
    e.code == EXIT_CONFIG && e.message@ == message
}

impl AutoOr {
    /// The number meant, or why there is none.
    pub open spec fn meaning(self, key: Seq<char>, auto: u64) -> Result<u64, Seq<char>> {
        match self {
            AutoOr::Word(w) => if w@ == "auto"@ {
                Ok(auto)
            } else {
                Err(key + ": expected \"auto\" or a positive integer, got \""@ + w@ + "\""@)
            },
            AutoOr::Num(n) => if n == 0 {
                Err(key + ": must be greater than 0"@)
            } else {
                Ok(n)
            },
        }
    }

    pub fn resolve(&self, key: &str, auto: u64) -> (r: Result<u64, AppError>)
        ensures
            match (r, self.meaning(key@, auto)) {
                (Ok(n), Ok(m)) => n == m,
                (Err(e), Err(m)) => misconfigured(e, m),
                _ => false,
            },
    {
        match self {
            AutoOr::Word(w) => {
                if same_text(w.as_str(), "auto") {
                    Ok(auto)
                } else {
                    let mut m = key.to_owned();
                    m.append(": expected \"auto\" or a positive integer, got \"");
                    m.append(w.as_str());
                    m.append("\"");
                    Err(AppError::config(m.as_str()))
                }
            },
            AutoOr::Num(n) => {
                if *n == 0 {
                    let mut m = key.to_owned();
                    m.append(": must be greater than 0");
                    Err(AppError::config(m.as_str()))
                } else {
                    Ok(*n)
                }
            },
        }
    }
}

/// One configuration file, or several laid over each other.
#[derive(Debug)]
pub struct RawFile {
    pub scan: Option<RawScan>,
    pub storage: Option<RawStorage>,
    pub history: Option<RawHistory>,
}

#[derive(Debug)]
pub struct RawScan {
    pub workers: Option<AutoOr>,
    pub writer_batch_rows: Option<AutoOr>,
    pub throttle_ms_after_batch: Option<u64>,
    pub hash_policy: Option<String>,
    pub skip_hidden: Option<bool>,
    pub skip_mount_boundaries: Option<bool>,
    pub follow_symlinks: Option<bool>,
}

#[derive(Debug)]
pub struct RawStorage {
    pub database_path: Option<String>,
    pub minimum_free_space_mib: Option<u64>,
}

#[derive(Debug)]
pub struct RawHistory {
    pub keep_scans: Option<u64>,
}

/// A file that sets nothing.
pub open spec fn nothing_set() -> RawFile {
    RawFile { scan: None, storage: None, history: None }
}

/// A key the higher file sets wins; one it omits keeps the value below it.
pub open spec fn over<T>(low: Option<T>, high: Option<T>) -> Option<T> {
    if high is Some {
        high
    } else {
        low
    }
}

pub open spec fn scan_over(low: Option<RawScan>, high: Option<RawScan>) -> Option<RawScan> {
    match (low, high) {
        (Some(l), Some(h)) => Some(
            RawScan {
                workers: over(l.workers, h.workers),
                writer_batch_rows: over(l.writer_batch_rows, h.writer_batch_rows),
                throttle_ms_after_batch: over(
                    l.throttle_ms_after_batch,
                    h.throttle_ms_after_batch,
                ),
                hash_policy: over(l.hash_policy, h.hash_policy),
                skip_hidden: over(l.skip_hidden, h.skip_hidden),
                skip_mount_boundaries: over(l.skip_mount_boundaries, h.skip_mount_boundaries),
                follow_symlinks: over(l.follow_symlinks, h.follow_symlinks),
            },
        ),
        _ => over(low, high),
    }
}

pub open spec fn storage_over(
    low: Option<RawStorage>,
    high: Option<RawStorage>,
) -> Option<RawStorage> {
    match (low, high) {
        (Some(l), Some(h)) => Some(
            RawStorage {
                database_path: over(l.database_path, h.database_path),
                minimum_free_space_mib: over(l.minimum_free_space_mib, h.minimum_free_space_mib),
            },
        ),
        _ => over(low, high),
    }
}

pub open spec fn history_over(
    low: Option<RawHistory>,
    high: Option<RawHistory>,
) -> Option<RawHistory> {
    match (low, high) {
        (Some(l), Some(h)) => Some(RawHistory { keep_scans: over(l.keep_scans, h.keep_scans) }),
        _ => over(low, high),
    }
}

/// One file laid over another, section by section and key by key.
pub open spec fn file_over(low: RawFile, high: RawFile) -> RawFile {
    RawFile {
        scan: scan_over(low.scan, high.scan),
        storage: storage_over(low.storage, high.storage),
        history: history_over(low.history, high.history),
    }
}

fn pick<T>(low: Option<T>, high: Option<T>) -> (r: Option<T>)
    ensures
        r == over(low, high),
{
    match high {
        Some(h) => Some(h),
        None => low,
    }
}

/// Lays one file over the accumulated ones.
pub fn merge(into: &mut RawFile, from: RawFile)
    ensures
        *final(into) == file_over(*old(into), from),
{
    let scan = match (into.scan.take(), from.scan) {
        (Some(l), Some(h)) => Some(
            RawScan {
                workers: pick(l.workers, h.workers),
                writer_batch_rows: pick(l.writer_batch_rows, h.writer_batch_rows),
                throttle_ms_after_batch: pick(
                    l.throttle_ms_after_batch,
                    h.throttle_ms_after_batch,
                ),
                hash_policy: pick(l.hash_policy, h.hash_policy),
                skip_hidden: pick(l.skip_hidden, h.skip_hidden),
                skip_mount_boundaries: pick(l.skip_mount_boundaries, h.skip_mount_boundaries),
                follow_symlinks: pick(l.follow_symlinks, h.follow_symlinks),
            },
        ),
        (low, high) => pick(low, high),
    };
    let storage = match (into.storage.take(), from.storage) {
        (Some(l), Some(h)) => Some(
            RawStorage {
                database_path: pick(l.database_path, h.database_path),
                minimum_free_space_mib: pick(l.minimum_free_space_mib, h.minimum_free_space_mib),
            },
        ),
        (low, high) => pick(low, high),
    };
    let history = match (into.history.take(), from.history) {
        (Some(l), Some(h)) => Some(RawHistory { keep_scans: pick(l.keep_scans, h.keep_scans) }),
        (low, high) => pick(low, high),
    };
    into.scan = scan;
    into.storage = storage;
    into.history = history;
}

/// What a run is configured to do.
#[derive(Debug)]
pub struct Config {
    pub workers: usize,
    pub writer_batch_rows: usize,
    pub queue_items: usize,
    pub throttle_ms_after_batch: u64,
    pub hash_policy: String,
    pub skip_hidden: bool,
    pub skip_mount_boundaries: bool,
    pub follow_symlinks: bool,
    pub database_path: String,
    pub minimum_free_space_mib: u64,
    pub keep_scans: u64,
}

#[verifier::ext_equal]
pub struct ConfigView {
    pub workers: usize,
    pub writer_batch_rows: usize,
    pub queue_items: usize,
    pub throttle_ms_after_batch: u64,
    pub hash_policy: Seq<char>,
    pub policy: Policy,
    pub database_path: Seq<char>,
    pub minimum_free_space_mib: u64,
    pub keep_scans: u64,
}

impl View for Config {
    type V = ConfigView;

    open spec fn view(&self) -> ConfigView {
        ConfigView {
            workers: self.workers,
            writer_batch_rows: self.writer_batch_rows,
            queue_items: self.queue_items,
            throttle_ms_after_batch: self.throttle_ms_after_batch,
            hash_policy: self.hash_policy@,
            policy: Policy {
                skip_hidden: self.skip_hidden,
                skip_mount_boundaries: self.skip_mount_boundaries,
                follow_symlinks: self.follow_symlinks,
            },
            database_path: self.database_path@,
            minimum_free_space_mib: self.minimum_free_space_mib,
            keep_scans: self.keep_scans,
        }
    }
}

/// Half the processors, at least one and at most four: more workers usually buy
/// disk contention rather than throughput.
pub open spec fn auto_workers(cpus: u64) -> u64 {
    if cpus / 2 < 1 {
        1
    } else if cpus / 2 > 4 {
        4
    } else {
        cpus / 2
    }
}

/// The value a key has, given what the file says of it.
pub open spec fn setting(raw: Option<AutoOr>, key: Seq<char>, auto: u64) -> Result<u64, Seq<char>> {
    match raw {
        Some(v) => v.meaning(key, auto),
        None => Ok(auto),
    }
}

pub open spec fn or_else<T>(o: Option<T>, default: T) -> T {
    match o {
        Some(v) => v,
        None => default,
    }
}

/// Four batches, at least one item, and no more than a machine word holds.
pub open spec fn queue_for(rows: usize) -> usize {
    if rows == 0 {
        1
    } else if rows * 4 > usize::MAX {
        usize::MAX
    } else {
        (rows * 4) as usize
    }
}

pub open spec fn scan_of(raw: RawFile) -> RawScan {
    match raw.scan {
        Some(s) => s,
        None => RawScan {
            workers: None,
            writer_batch_rows: None,
            throttle_ms_after_batch: None,
            hash_policy: None,
            skip_hidden: None,
            skip_mount_boundaries: None,
            follow_symlinks: None,
        },
    }
}

/// The configuration a file describes on a machine with `cpus` processors, for
/// a user whose home is `home`; or what is wrong with it, the first problem
/// first.
pub open spec fn described(raw: RawFile, cpus: u64, home: Option<Seq<char>>) -> Result<
    ConfigView,
    Seq<char>,
> {
    let scan = scan_of(raw);
    let database = match raw.storage {
        Some(s) => text_of(s.database_path),
        None => None,
    };
    let floor = match raw.storage {
        Some(s) => s.minimum_free_space_mib,
        None => None,
    };
    let keep = match raw.history {
        Some(h) => h.keep_scans,
        None => None,
    };
    let policy = or_else(text_of(scan.hash_policy), "reuse_when_metadata_matches"@);
    match setting(scan.workers, "scan.workers"@, auto_workers(cpus)) {
        Err(m) => Err(m),
        Ok(workers) => match setting(scan.writer_batch_rows, "scan.writer_batch_rows"@, 1000) {
            Err(m) => Err(m),
            Ok(rows) => if policy != "reuse_when_metadata_matches"@ {
                Err("scan.hash_policy: unknown policy \""@ + policy + "\""@)
            } else {
                Ok(
                    ConfigView {
                        workers: workers as usize,
                        writer_batch_rows: rows as usize,
                        queue_items: queue_for(rows as usize),
                        throttle_ms_after_batch: or_else(scan.throttle_ms_after_batch, 0),
                        hash_policy: policy,
                        policy: Policy {
                            skip_hidden: or_else(scan.skip_hidden, true),
                            skip_mount_boundaries: or_else(scan.skip_mount_boundaries, true),
                            follow_symlinks: or_else(scan.follow_symlinks, false),
                        },
                        database_path: expanded(
                            or_else(
                                database,
                                "~/.local/share/metainjester/metainjester.sqlite3"@,
                            ),
                            home,
                        ),
                        minimum_free_space_mib: or_else(floor, 500),
                        keep_scans: or_else(keep, 0),
                    },
                )
            },
        },
    }
}

/// Where one candidate file stands.
#[derive(Debug)]
pub enum Source {
    Absent,
    Unreadable { path: String, reason: String },
    Malformed { path: String, error: String },
    Parsed(RawFile),
}

/// Why a candidate stops the start, if it does.
pub open spec fn objection(s: Source) -> Option<Seq<char>> {
    match s {
        Source::Unreadable { path, reason } => Some(
            "cannot read "@ + path@ + ": "@ + reason@,
        ),
        Source::Malformed { path, error } => Some(path@ + ": "@ + reason_in(error@)),
        _ => None,
    }
}

/// The first objection among the candidates.
pub open spec fn first_objection(sources: Seq<Source>) -> Option<Seq<char>>
    decreases sources.len(),
{
    if sources.len() == 0 {
        None
    } else if first_objection(sources.drop_last()) is Some {
        first_objection(sources.drop_last())
    } else {
        objection(sources.last())
    }
}

/// Every parsed candidate, each over the ones before it.
pub open spec fn merged(sources: Seq<Source>) -> RawFile
    decreases sources.len(),
{
    if sources.len() == 0 {
        nothing_set()
    } else {
        match sources.last() {
            Source::Parsed(raw) => file_over(merged(sources.drop_last()), raw),
            _ => merged(sources.drop_last()),
        }
    }
}

impl Config {
    pub fn policy(&self) -> (r: Policy)
        ensures
            r == self@.policy,
    {
        Policy {
            skip_hidden: self.skip_hidden,
            skip_mount_boundaries: self.skip_mount_boundaries,
            follow_symlinks: self.follow_symlinks,
        }
    }

    /// Merges the candidates, lowest precedence first. A candidate that is there
    /// but cannot be used is an error: silently ignoring a file the user wrote is
    /// worse than refusing to start.
    pub fn load(sources: Vec<Source>, cpus: u64, home: Option<&str>) -> (r: Result<
        Config,
        AppError,
    >)
        ensures
            ({
                let h = match home {
                    Some(t) => Some(t@),
                    None => None,
                };
                match first_objection(sources@) {
                    Some(m) => r matches Err(e) && misconfigured(e, m),
                    None => match (r, described(merged(sources@), cpus, h)) {
                        (Ok(c), Ok(v)) => c@ == v,
                        (Err(e), Err(m)) => misconfigured(e, m),
                        _ => false,
                    },
                }
            }),
    {
        let mut all = RawFile { scan: None, storage: None, history: None };
        let ghost total = sources@;
        let mut rest = sources;
        let mut ordered: Vec<Source> = Vec::new();
        // Taken off the end one by one, the candidates come out in reverse.
        while rest.len() > 0
            invariant
                rest@.len() + ordered@.len() == total.len(),
                forall|k: int| 0 <= k < rest@.len() ==> rest@[k] == total[k],
                forall|k: int|
                    0 <= k < ordered@.len() ==> ordered@[k] == total[total.len() - 1 - k],
            decreases rest.len(),
        {
            match rest.pop() {
                Some(s) => {
                    ordered.push(s);
                },
                None => {},
            }
        }
        let ghost mut done: int = 0;
        assert(total.take(0) =~= Seq::<Source>::empty());
        while ordered.len() > 0
            invariant
                0 <= done <= total.len(),
                done + ordered@.len() == total.len(),
                total == sources@,
                forall|k: int|
                    0 <= k < ordered@.len() ==> ordered@[k] == total[total.len() - 1 - k],
                first_objection(total.take(done)) is None,
                all == merged(total.take(done)),
            decreases ordered.len(),
        {
            proof {
                assert(total.take(done + 1).drop_last() =~= total.take(done));
                assert(total.take(done + 1).last() == total[done]);
                assert(ordered@[ordered@.len() - 1] == total[done]);
            }
            match ordered.pop() {
                Some(Source::Absent) => {},
                Some(Source::Parsed(raw)) => {
                    merge(&mut all, raw);
                },
                Some(Source::Unreadable { path, reason }) => {
                    let mut m = "cannot read ".to_owned();
                    m.append(path.as_str());
                    m.append(": ");
                    m.append(reason.as_str());
                    proof {
                        lemma_objection_stays(total, done);
                    }
                    return Err(AppError::config(m.as_str()));
                },
                Some(Source::Malformed { path, error }) => {
                    let mut m = path;
                    m.append(": ");
                    let why = toml_reason(error.as_str());
                    m.append(why.as_str());
                    proof {
                        lemma_objection_stays(total, done);
                    }
                    return Err(AppError::config(m.as_str()));
                },
                None => {},
            }
            proof {
                done = done + 1;
            }
        }
        assert(total.take(done) =~= total);
        Config::resolve(all, cpus, home)
    }

    /// Turns a file into a configuration, or says what is wrong with it.
    pub fn resolve(raw: RawFile, cpus: u64, home: Option<&str>) -> (r: Result<Config, AppError>)
        ensures
            ({
                let h = match home {
                    Some(t) => Some(t@),
                    None => None,
                };
                match (r, described(raw, cpus, h)) {
                    (Ok(c), Ok(v)) => c@ == v,
                    (Err(e), Err(m)) => misconfigured(e, m),
                    _ => false,
                }
            }),
    {
        let half: u64 = cpus / 2;
        let auto: u64 = if half < 1 {
            1
        } else if half > 4 {
            4
        } else {
            half
        };
        let scan = match raw.scan {
            Some(s) => s,
            None => RawScan {
                workers: None,
                writer_batch_rows: None,
                throttle_ms_after_batch: None,
                hash_policy: None,
                skip_hidden: None,
                skip_mount_boundaries: None,
                follow_symlinks: None,
            },
        };
        let workers: u64 = match scan.workers {
            Some(v) => match v.resolve("scan.workers", auto) {
                Ok(n) => n,
                Err(e) => {
                    return Err(e);
                },
            },
            None => auto,
        };
        let rows: u64 = match scan.writer_batch_rows {
            Some(v) => match v.resolve("scan.writer_batch_rows", 1000) {
                Ok(n) => n,
                Err(e) => {
                    return Err(e);
                },
            },
            None => 1000,
        };
        let hash_policy: String = match scan.hash_policy {
            Some(p) => p,
            None => "reuse_when_metadata_matches".to_owned(),
        };
        if !same_text(hash_policy.as_str(), "reuse_when_metadata_matches") {
            let mut m = "scan.hash_policy: unknown policy \"".to_owned();
            m.append(hash_policy.as_str());
            m.append("\"");
            return Err(AppError::config(m.as_str()));
        }
        let (database, floor): (Option<String>, Option<u64>) = match raw.storage {
            Some(s) => (s.database_path, s.minimum_free_space_mib),
            None => (None, None),
        };
        let keep: Option<u64> = match raw.history {
            Some(h) => h.keep_scans,
            None => None,
        };
        let raw_path: String = match database {
            Some(p) => p,
            None => "~/.local/share/metainjester/metainjester.sqlite3".to_owned(),
        };
        let writer_batch_rows: usize = rows as usize;
        let queue_items: usize = if writer_batch_rows == 0 {
            1
        } else {
            match writer_batch_rows.checked_mul(4) {
                Some(n) => n,
                None => usize::MAX,
            }
        };
        Ok(
            Config {
                workers: workers as usize,
                writer_batch_rows,
                queue_items,
                throttle_ms_after_batch: scan.throttle_ms_after_batch.unwrap_or(0),
                hash_policy,
                skip_hidden: scan.skip_hidden.unwrap_or(true),
                skip_mount_boundaries: scan.skip_mount_boundaries.unwrap_or(true),
                follow_symlinks: scan.follow_symlinks.unwrap_or(false),
                database_path: expand_tilde(raw_path.as_str(), home),
                minimum_free_space_mib: floor.unwrap_or(500),
                keep_scans: keep.unwrap_or(0),
            },
        )
    }
}

proof fn lemma_objection_stays(sources: Seq<Source>, k: int)
    requires
        0 <= k < sources.len(),
        first_objection(sources.take(k)) is None,
        objection(sources[k]) is Some,
    ensures
        first_objection(sources) == objection(sources[k]),
    decreases sources.len(),
{
    let rest = sources.drop_last();
    if k == sources.len() - 1 {
        assert(rest =~= sources.take(k));
    } else {
        assert(rest.take(k) =~= sources.take(k));
        lemma_objection_stays(rest, k);
    }
}

/// A path under a directory: `name` itself where it is absolute, and otherwise
/// `dir` and `name` with one separator put between them unless one is there.
pub open spec fn joined(dir: Seq<char>, name: Seq<char>) -> Seq<char> {
    if name.len() > 0 && name[0] == '/' {
        name
    } else if dir.len() == 0 || dir.last() == '/' {
        dir + name
    } else {
        dir.push('/') + name
    }
}

/// Puts a name under a directory.
pub fn join_path(dir: &str, name: &str) -> (r: String)
    ensures
        r@ == joined(dir@, name@),
{
    let d = chars_of(dir);
    let n = chars_of(name);
    if n.len() > 0 && n[0] == '/' {
        return name.to_owned();
    }
    let mut r = dir.to_owned();
    if d.len() > 0 && d[d.len() - 1] != '/' {
        r.push('/');
    }
    r.append(name);
    r
}

/// The home directory that the `HOME` variable names. An empty one names none.
pub fn home_dir(variable: Option<String>) -> (r: Option<String>)
    ensures
        match variable {
            Some(v) => if v@.len() == 0 {
                r is None
            } else {
                r == variable
            },
            None => r is None,
        },
{
    match variable {
        Some(v) => {
            if v.as_str().is_empty() {
                None
            } else {
                Some(v)
            }
        },
        None => None,
    }
}

/// A path with a leading `~` replaced by the home directory, where there is one.
pub open spec fn expanded(path: Seq<char>, home: Option<Seq<char>>) -> Seq<char> {
    match home {
        Some(h) => if path.len() >= 2 && path[0] == '~' && path[1] == '/' {
            joined(h, path.skip(2))
        } else if path == seq!['~'] {
            h
        } else {
            path
        },
        None => path,
    }
}

/// Expands a leading `~`. Explicit application behavior, not the shell's.
pub fn expand_tilde(path: &str, home: Option<&str>) -> (r: String)
    ensures
        r@ == expanded(
            path@,
            match home {
                Some(h) => Some(h@),
                None => None,
            },
        ),
{
    let h = match home {
        Some(h) => h,
        None => {
            return path.to_owned();
        },
    };
    let chars = chars_of(path);
    if chars.len() >= 2 && chars[0] == '~' && chars[1] == '/' {
        let rest = text_between(&chars, 2, chars.len());
        assert(rest@ =~= path@.skip(2));
        join_path(h, rest.as_str())
    } else if chars.len() == 1 && chars[0] == '~' {
        assert(path@ =~= seq!['~']);
        h.to_owned()
    } else {
        path.to_owned()
    }
}

/// The files consulted, lowest precedence first.
pub fn candidate_files(home: Option<&str>) -> (r: Vec<String>)
    ensures
        r@.len() == (if home is Some {
            2int
        } else {
            1int
        }),
        r@[0]@ == SYSTEM_CONFIG@,
        home matches Some(h) ==> r@[1]@ == joined(h@, USER_CONFIG_SUFFIX@),
{
    let mut r: Vec<String> = Vec::new();
    r.push(SYSTEM_CONFIG.to_owned());
    if let Some(h) = home {
        r.push(join_path(h, USER_CONFIG_SUFFIX));
    }
    r
}

/// The characters that surround text without being part of it.
pub open spec fn is_space(c: char) -> bool {
    ||| '\u{9}' <= c <= '\u{d}'
    ||| c == ' '
    ||| c == '\u{85}'
    ||| c == '\u{a0}'
    ||| c == '\u{1680}'
    ||| '\u{2000}' <= c <= '\u{200a}'
    ||| c == '\u{2028}'
    ||| c == '\u{2029}'
    ||| c == '\u{202f}'
    ||| c == '\u{205f}'
    ||| c == '\u{3000}'
}

/// A text without the space before it.
pub open spec fn trimmed_start(s: Seq<char>) -> Seq<char>
    decreases s.len(),
{
    if s.len() > 0 && is_space(s[0]) {
        trimmed_start(s.drop_first())
    } else {
        s
    }
}

/// A text without the space after it.
pub open spec fn trimmed_end(s: Seq<char>) -> Seq<char>
    decreases s.len(),
{
    if s.len() > 0 && is_space(s.last()) {
        trimmed_end(s.drop_last())
    } else {
        s
    }
}

pub open spec fn trimmed(s: Seq<char>) -> Seq<char> {
    trimmed_end(trimmed_start(s))
}

/// Length of the first line.
pub open spec fn line_end(s: Seq<char>) -> nat
    decreases s.len(),
{
    if s.len() == 0 || s[0] == '\n' {
        0
    } else {
        1 + line_end(s.drop_first())
    }
}

/// The lines of a text, trimmed, without the blank ones.
pub open spec fn filled_lines(s: Seq<char>) -> Seq<Seq<char>>
    decreases s.len(),
{
    let n = line_end(s) as int;
    let line = trimmed(s.take(n));
    let rest = if 0 <= n < s.len() {
        filled_lines(s.skip(n + 1))
    } else {
        Seq::empty()
    };
    if line.len() == 0 {
        rest
    } else {
        seq![line] + rest
    }
}

/// A line that draws a pointer under the text rather than saying something.
pub open spec fn is_drawing(line: Seq<char>) -> bool {
    line.len() > 0 && (line[0] == '|' || line[0] == '^')
}

/// The location a parse error starts with and the reason it ends with, without
/// the drawing between them.
pub open spec fn reason_in(s: Seq<char>) -> Seq<char> {
    let lines = filled_lines(s);
    if lines.len() == 0 {
        Seq::empty()
    } else {
        let said = lines.drop_first().filter(|l: Seq<char>| !is_drawing(l));
        if said.len() > 0 && said.last() != lines[0] {
            lines[0] + ": "@ + said.last()
        } else {
            lines[0]
        }
    }
}

fn space(c: char) -> (r: bool)
    ensures
        r == is_space(c),
{
    ('\u{9}' <= c && c <= '\u{d}') || c == ' ' || c == '\u{85}' || c == '\u{a0}' || c
        == '\u{1680}' || ('\u{2000}' <= c && c <= '\u{200a}') || c == '\u{2028}' || c
        == '\u{2029}' || c == '\u{202f}' || c == '\u{205f}' || c == '\u{3000}'
}

proof fn lemma_trimmed_start(s: Seq<char>, k: int)
    requires
        0 <= k <= s.len(),
        forall|i: int| 0 <= i < k ==> is_space(#[trigger] s[i]),
        k < s.len() ==> !is_space(s[k]),
    ensures
        trimmed_start(s) == s.skip(k),
    decreases k,
{
    if k > 0 {
        let t = s.drop_first();
        assert forall|i: int| 0 <= i < k - 1 implies is_space(#[trigger] t[i]) by {
            assert(t[i] == s[i + 1]);
        }
        lemma_trimmed_start(t, k - 1);
        assert(t.skip(k - 1) =~= s.skip(k));
    } else {
        assert(s.skip(0) =~= s);
    }
}

proof fn lemma_trimmed_end(s: Seq<char>, k: int)
    requires
        0 <= k <= s.len(),
        forall|i: int| k <= i < s.len() ==> is_space(#[trigger] s[i]),
        k > 0 ==> !is_space(s[k - 1]),
    ensures
        trimmed_end(s) == s.take(k),
    decreases s.len() - k,
{
    if k < s.len() {
        lemma_trimmed_end(s.drop_last(), k);
        assert(s.drop_last().take(k) =~= s.take(k));
    } else {
        assert(s.take(k) =~= s);
    }
}

/// The text from `from` up to `to`, trimmed.
fn trim_between(chars: &Vec<char>, from: usize, to: usize) -> (r: String)
    requires
        from <= to <= chars@.len(),
    ensures
        r@ == trimmed(chars@.subrange(from as int, to as int)),
{
    let ghost whole = chars@.subrange(from as int, to as int);
    let mut a: usize = from;
    while a < to && space(chars[a])
        invariant
            from <= a <= to <= chars@.len(),
            whole == chars@.subrange(from as int, to as int),
            forall|i: int| 0 <= i < a - from ==> is_space(#[trigger] whole[i]),
        decreases to - a,
    {
        assert(whole[a - from] == chars@[a as int]);
        a = a + 1;
    }
    proof {
        if a < to {
            assert(whole[a - from] == chars@[a as int]);
        }
        lemma_trimmed_start(whole, a - from);
    }
    let ghost tail = whole.skip(a - from);
    let mut b: usize = to;
    while a < b && space(chars[b - 1])
        invariant
            from <= a <= b <= to <= chars@.len(),
            tail == chars@.subrange(a as int, to as int),
            forall|i: int| b - a <= i < tail.len() ==> is_space(#[trigger] tail[i]),
        decreases b,
    {
        assert(tail[b - 1 - a] == chars@[b - 1]);
        b = b - 1;
    }
    proof {
        if a < b {
            assert(tail[b - 1 - a] == chars@[b - 1]);
        }
        lemma_trimmed_end(tail, b - a);
        assert(tail.take(b - a) =~= chars@.subrange(a as int, b as int));
    }
    text_between(chars, a, b)
}

proof fn lemma_line_end(s: Seq<char>, k: int)
    requires
        0 <= k <= s.len(),
        forall|i: int| 0 <= i < k ==> #[trigger] s[i] != '\n',
        k < s.len() ==> s[k] == '\n',
    ensures
        line_end(s) == k,
    decreases k,
{
    if k > 0 {
        let t = s.drop_first();
        assert forall|i: int| 0 <= i < k - 1 implies #[trigger] t[i] != '\n' by {
            assert(t[i] == s[i + 1]);
        }
        lemma_line_end(t, k - 1);
    }
}

fn lines_of(s: &str) -> (r: Vec<String>)
    ensures
        texts(r@) == filled_lines(s@),
{
    let chars = chars_of(s);
    let n: usize = chars.len();
    let mut lines: Vec<String> = Vec::new();
    let mut from: usize = 0;
    assert(s@.skip(0) =~= s@);
    assert(texts(lines@) + filled_lines(s@) =~= filled_lines(s@));
    loop
        invariant
            from <= n,
            n == chars@.len(),
            chars@ == s@,
            texts(lines@) + filled_lines(s@.skip(from as int)) == filled_lines(s@),
        decreases n - from,
    {
        let mut to: usize = from;
        let ghost rest = s@.skip(from as int);
        while to < n && chars[to] != '\n'
            invariant
                from <= to <= n,
                n == chars@.len(),
                chars@ == s@,
                rest == s@.skip(from as int),
                forall|i: int| 0 <= i < to - from ==> #[trigger] rest[i] != '\n',
            decreases n - to,
        {
            assert(rest[to - from] == chars@[to as int]);
            to = to + 1;
        }
        proof {
            if to < n {
                assert(rest[to - from] == chars@[to as int]);
            }
            lemma_line_end(rest, to - from);
            assert(rest.take(to - from) =~= chars@.subrange(from as int, to as int));
        }
        let line = trim_between(&chars, from, to);
        let ghost held = lines@;
        if !line.as_str().is_empty() {
            lines.push(line);
            assert(texts(lines@) =~= texts(held).push(line@));
        }
        if to >= n {
            assert(texts(lines@) =~= filled_lines(s@));
            return lines;
        }
        proof {
            assert(rest.skip(to - from + 1) =~= s@.skip(to + 1));
            assert(texts(lines@) + filled_lines(s@.skip(to + 1)) =~= filled_lines(s@));
        }
        from = to + 1;
    }
}

/// Says in one line what a configuration parse error says over several. Keeping
/// only its first line would lose the reason.
pub fn toml_reason(s: &str) -> (r: String)
    ensures
        r@ == reason_in(s@),
{
    let lines = lines_of(s);
    let n: usize = lines.len();
    let ghost all = texts(lines@);
    if n == 0 {
        return String::new();
    }
    let ghost spoken = |l: Seq<char>| !is_drawing(l);
    let ghost after = all.drop_first();
    let first = lines[0].clone();
    assert(all[0] == first@);
    let mut i: usize = n;
    proof {
        assert(after.take(n - 1) =~= after);
    }
    while i > 1
        invariant
            1 <= i <= n,
            n == lines@.len(),
            all == texts(lines@),
            after == all.drop_first(),
            all == filled_lines(s@),
            first@ == all[0],
            spoken == (|l: Seq<char>| !is_drawing(l)),
            after.filter(spoken) == after.take(i - 1).filter(spoken),
        decreases i,
    {
        let line = lines[i - 1].as_str();
        assert(line@ == all[i - 1]);
        let head = chars_of(line);
        let drawing: bool = head.len() > 0 && (head[0] == '|' || head[0] == '^');
        proof {
            reveal(Seq::filter);
            assert(after.take(i - 1).drop_last() =~= after.take(i - 2));
            assert(after.take(i - 1).last() == all[i - 1]);
        }
        if !drawing {
            if same_text(line, first.as_str()) {
                return first;
            }
            let mut r = first;
            r.append(": ");
            r.append(line);
            return r;
        }
        i = i - 1;
    }
    proof {
        reveal(Seq::filter);
        assert(after.take(0) =~= Seq::<Seq<char>>::empty());
    }
    first
}

/// Of two files the later one has the last word, key by key: every key that it sets
/// has its value, and every other key has the value that the earlier file gives it,
/// if any.
pub proof fn law_later_file_has_the_last_word(low: RawFile, high: RawFile)
    ensures
        ({
            let m = file_over(low, high);
            &&& (high.scan matches Some(h) && h.workers is Some) ==> (m.scan matches Some(s)
                && s.workers == high.scan->0.workers)
            &&& !(high.scan matches Some(h) && h.workers is Some) ==> (match m.scan {
                Some(s) => s.workers,
                None => None,
            }) == (match low.scan {
                Some(l) => l.workers,
                None => None,
            })
            &&& (high.scan matches Some(h) && h.writer_batch_rows is Some) ==> (m.scan matches Some(s)
                && s.writer_batch_rows == high.scan->0.writer_batch_rows)
            &&& !(high.scan matches Some(h) && h.writer_batch_rows is Some) ==> (match m.scan {
                Some(s) => s.writer_batch_rows,
                None => None,
            }) == (match low.scan {
                Some(l) => l.writer_batch_rows,
                None => None,
            })
            &&& (high.scan matches Some(h) && h.throttle_ms_after_batch is Some) ==> (m.scan matches Some(s)
                && s.throttle_ms_after_batch == high.scan->0.throttle_ms_after_batch)
            &&& !(high.scan matches Some(h) && h.throttle_ms_after_batch is Some) ==> (match m.scan {
                Some(s) => s.throttle_ms_after_batch,
                None => None,
            }) == (match low.scan {
                Some(l) => l.throttle_ms_after_batch,
                None => None,
            })
            &&& (high.scan matches Some(h) && h.hash_policy is Some) ==> (m.scan matches Some(s)
                && s.hash_policy == high.scan->0.hash_policy)
            &&& !(high.scan matches Some(h) && h.hash_policy is Some) ==> (match m.scan {
                Some(s) => s.hash_policy,
                None => None,
            }) == (match low.scan {
                Some(l) => l.hash_policy,
                None => None,
            })
            &&& (high.scan matches Some(h) && h.skip_hidden is Some) ==> (m.scan matches Some(s)
                && s.skip_hidden == high.scan->0.skip_hidden)
            &&& !(high.scan matches Some(h) && h.skip_hidden is Some) ==> (match m.scan {
                Some(s) => s.skip_hidden,
                None => None,
            }) == (match low.scan {
                Some(l) => l.skip_hidden,
                None => None,
            })
            &&& (high.scan matches Some(h) && h.skip_mount_boundaries is Some) ==> (m.scan matches Some(s)
                && s.skip_mount_boundaries == high.scan->0.skip_mount_boundaries)
            &&& !(high.scan matches Some(h) && h.skip_mount_boundaries is Some) ==> (match m.scan {
                Some(s) => s.skip_mount_boundaries,
                None => None,
            }) == (match low.scan {
                Some(l) => l.skip_mount_boundaries,
                None => None,
            })
            &&& (high.scan matches Some(h) && h.follow_symlinks is Some) ==> (m.scan matches Some(s)
                && s.follow_symlinks == high.scan->0.follow_symlinks)
            &&& !(high.scan matches Some(h) && h.follow_symlinks is Some) ==> (match m.scan {
                Some(s) => s.follow_symlinks,
                None => None,
            }) == (match low.scan {
                Some(l) => l.follow_symlinks,
                None => None,
            })
            &&& (high.storage matches Some(h) && h.database_path is Some) ==> (m.storage matches Some(s)
                && s.database_path == high.storage->0.database_path)
            &&& !(high.storage matches Some(h) && h.database_path is Some) ==> (match m.storage {
                Some(s) => s.database_path,
                None => None,
            }) == (match low.storage {
                Some(l) => l.database_path,
                None => None,
            })
            &&& (high.storage matches Some(h) && h.minimum_free_space_mib is Some) ==> (m.storage matches Some(s)
                && s.minimum_free_space_mib == high.storage->0.minimum_free_space_mib)
            &&& !(high.storage matches Some(h) && h.minimum_free_space_mib is Some) ==> (match m.storage {
                Some(s) => s.minimum_free_space_mib,
                None => None,
            }) == (match low.storage {
                Some(l) => l.minimum_free_space_mib,
                None => None,
            })
            &&& (high.history matches Some(h) && h.keep_scans is Some) ==> (m.history matches Some(s)
                && s.keep_scans == high.history->0.keep_scans)
            &&& !(high.history matches Some(h) && h.keep_scans is Some) ==> (match m.history {
                Some(s) => s.keep_scans,
                None => None,
            }) == (match low.history {
                Some(l) => l.keep_scans,
                None => None,
            })
        }),
{
}

/// Of any number of candidates the last one that sets a key decides it. `key` reads
/// one key of a file; two files laid over each other give it as they should.
pub proof fn law_last_candidate_that_sets_a_key_decides<T>(
    sources: Seq<Source>,
    key: spec_fn(RawFile) -> Option<T>,
    k: int,
)
    requires
        forall|low: RawFile, high: RawFile| #[trigger]
            key(file_over(low, high)) == (if key(high) is Some {
                key(high)
            } else {
                key(low)
            }),
        0 <= k < sources.len(),
        sources[k] matches Source::Parsed(raw) && key(raw) is Some,
        forall|j: int|
            k < j < sources.len() ==> ((#[trigger] sources[j]) matches Source::Parsed(raw)
                ==> key(raw) is None),
    ensures
        key(merged(sources)) == key(sources[k]->Parsed_0),
    decreases sources.len(),
{
    let rest = sources.drop_last();
    if k < sources.len() - 1 {
        assert(rest[k] == sources[k]);
        assert forall|j: int| k < j < rest.len() implies ((
        #[trigger] rest[j]) matches Source::Parsed(raw) ==> key(raw) is None) by {
            assert(rest[j] == sources[j]);
        }
        law_last_candidate_that_sets_a_key_decides(rest, key, k);
        assert(sources[sources.len() - 1] == sources.last());
    }
}

/// A key that no candidate sets is not set.
pub proof fn law_unset_keys_stay_unset<T>(
    sources: Seq<Source>,
    key: spec_fn(RawFile) -> Option<T>,
)
    requires
        forall|low: RawFile, high: RawFile| #[trigger]
            key(file_over(low, high)) == (if key(high) is Some {
                key(high)
            } else {
                key(low)
            }),
        key(RawFile { scan: None, storage: None, history: None }) is None,
        forall|j: int|
            0 <= j < sources.len() ==> ((#[trigger] sources[j]) matches Source::Parsed(raw)
                ==> key(raw) is None),
    ensures
        key(merged(sources)) is None,
    decreases sources.len(),
{
    if sources.len() > 0 {
        let rest = sources.drop_last();
        assert forall|j: int| 0 <= j < rest.len() implies ((
        #[trigger] rest[j]) matches Source::Parsed(raw) ==> key(raw) is None) by {
            assert(rest[j] == sources[j]);
        }
        law_unset_keys_stay_unset(rest, key);
        assert(sources[sources.len() - 1] == sources.last());
    }
}

/// Candidates that are absent or can be used stop nothing; any other does.
pub proof fn law_only_a_bad_candidate_stops_the_start(sources: Seq<Source>)
    ensures
        first_objection(sources) is None <==> (forall|j: int|
            0 <= j < sources.len() ==> (#[trigger] sources[j]) is Absent || sources[j] is Parsed),
    decreases sources.len(),
{
    if sources.len() > 0 {
        let rest = sources.drop_last();
        law_only_a_bad_candidate_stops_the_start(rest);
        assert(sources[sources.len() - 1] == sources.last());
        if first_objection(sources) is None {
            assert forall|j: int| 0 <= j < sources.len() implies (#[trigger] sources[j]) is Absent
                || sources[j] is Parsed by {
                if j < rest.len() {
                    assert(rest[j] == sources[j]);
                }
            }
        } else if first_objection(rest) is Some {
            let j = choose|j: int|
                0 <= j < rest.len() && !((#[trigger] rest[j]) is Absent || rest[j] is Parsed);
            assert(sources[j] == rest[j]);
        }
    }
}

/// The first candidate that is there but cannot be used is the one that is told, in
/// words that name it.
pub proof fn law_first_bad_candidate_is_told(sources: Seq<Source>, k: int)
    requires
        0 <= k < sources.len(),
        forall|j: int|
            0 <= j < k ==> (#[trigger] sources[j]) is Absent || sources[j] is Parsed,
    ensures
        sources[k] matches Source::Unreadable { path, reason } ==> first_objection(sources) == Some(
            "cannot read "@ + path@ + ": "@ + reason@,
        ),
        sources[k] matches Source::Malformed { path, error } ==> first_objection(sources) == Some(
            path@ + ": "@ + reason_in(error@),
        ),
{
    let before = sources.take(k);
    assert forall|j: int| 0 <= j < before.len() implies (#[trigger] before[j]) is Absent
        || before[j] is Parsed by {
        assert(before[j] == sources[j]);
    }
    law_only_a_bad_candidate_stops_the_start(before);
    if sources[k] is Unreadable || sources[k] is Malformed {
        lemma_objection_stays(sources, k);
    }
}

/// `"auto"` stands for the automatic value and a positive number for itself;
/// anything else is refused, in words that name the key.
pub proof fn law_auto_or_a_positive_number(v: AutoOr, key: Seq<char>, auto: u64)
    ensures
        match v {
            AutoOr::Word(w) => if w@ == seq!['a', 'u', 't', 'o'] {
                v.meaning(key, auto) == Ok::<u64, Seq<char>>(auto)
            } else {
                v.meaning(key, auto) == Err::<u64, Seq<char>>(
                    key + ": expected \"auto\" or a positive integer, got \""@ + w@ + "\""@,
                )
            },
            AutoOr::Num(n) => if n > 0 {
                v.meaning(key, auto) == Ok::<u64, Seq<char>>(n)
            } else {
                v.meaning(key, auto) == Err::<u64, Seq<char>>(key + ": must be greater than 0"@)
            },
        },
{
    reveal_strlit("auto");
    assert("auto"@ =~= seq!['a', 'u', 't', 'o']);
}

/// The automatic number of workers is half the processors, but never none and never
/// more than four.
pub proof fn law_half_the_processors_up_to_four(cpus: u64)
    ensures
        cpus <= 3 ==> auto_workers(cpus) == 1,
        2 <= cpus <= 9 ==> auto_workers(cpus) == cpus / 2,
        cpus >= 8 ==> auto_workers(cpus) == 4,
{
}

/// The queue holds four batches, at least one item, and no more than a machine word
/// can count.
pub proof fn law_queue_holds_four_batches(rows: usize)
    ensures
        queue_for(rows) >= 1,
        queue_for(rows) <= 4 * rows || rows == 0,
        4 * rows <= usize::MAX && rows > 0 ==> queue_for(rows) == 4 * rows,
        4 * rows > usize::MAX ==> queue_for(rows) == usize::MAX,
{
}

/// What a configuration comes to, setting by setting: what the file says where it
/// says anything, and the default where it does not. It is refused for a number of
/// workers or rows that is none, or a hash policy that is unknown, and for nothing
/// else.
pub proof fn law_settings_are_what_the_file_says(raw: RawFile, cpus: u64, home: Option<Seq<char>>)
    ensures
        ({
            let r = described(raw, cpus, home);
            let wrong_number = |v: Option<AutoOr>|
                match v {
                    Some(AutoOr::Word(w)) => w@ != "auto"@,
                    Some(AutoOr::Num(n)) => n == 0,
                    None => false,
                };
            &&& r is Err <==> (raw.scan matches Some(s) && (wrong_number(s.workers) || wrong_number(
                s.writer_batch_rows,
            ) || (s.hash_policy matches Some(p) && p@ != "reuse_when_metadata_matches"@)))
            &&& r matches Ok(c) ==> {
                &&& c.workers == (match raw.scan {
                    Some(s) => match s.workers {
                        Some(AutoOr::Num(n)) => n as usize,
                        _ => auto_workers(cpus) as usize,
                    },
                    None => auto_workers(cpus) as usize,
                })
                &&& c.writer_batch_rows == (match raw.scan {
                    Some(s) => match s.writer_batch_rows {
                        Some(AutoOr::Num(n)) => n as usize,
                        _ => 1000usize,
                    },
                    None => 1000usize,
                })
                &&& c.queue_items == queue_for(c.writer_batch_rows)
                &&& c.hash_policy == "reuse_when_metadata_matches"@
                &&& c.throttle_ms_after_batch == (match raw.scan {
                    Some(s) => match s.throttle_ms_after_batch {
                        Some(ms) => ms,
                        None => 0,
                    },
                    None => 0,
                })
                &&& c.policy.skip_hidden <==> !(raw.scan matches Some(s) && s.skip_hidden
                    == Some(false))
                &&& c.policy.skip_mount_boundaries <==> !(raw.scan matches Some(s)
                    && s.skip_mount_boundaries == Some(false))
                &&& c.policy.follow_symlinks <==> (raw.scan matches Some(s) && s.follow_symlinks
                    == Some(true))
                &&& c.minimum_free_space_mib == (match raw.storage {
                    Some(s) => match s.minimum_free_space_mib {
                        Some(mib) => mib,
                        None => 500,
                    },
                    None => 500,
                })
                &&& c.keep_scans == (match raw.history {
                    Some(h) => match h.keep_scans {
                        Some(n) => n,
                        None => 0,
                    },
                    None => 0,
                })
                &&& c.database_path == expanded(
                    match raw.storage {
                        Some(s) => match s.database_path {
                            Some(p) => p@,
                            None => "~/.local/share/metainjester/metainjester.sqlite3"@,
                        },
                        None => "~/.local/share/metainjester/metainjester.sqlite3"@,
                    },
                    home,
                )
            }
        }),
{
}

/// The first thing wrong with a configuration is the one that is told: the workers,
/// then the rows of a batch, then the hash policy.
pub proof fn law_first_problem_is_told(scan: RawScan, raw: RawFile, cpus: u64, home: Option<Seq<char>>)
    requires
        raw.scan == Some(scan),
    ensures
        ({
            let r = described(raw, cpus, home);
            let fine = |v: Option<AutoOr>|
                match v {
                    Some(AutoOr::Word(w)) => w@ == "auto"@,
                    Some(AutoOr::Num(n)) => n > 0,
                    None => true,
                };
            &&& scan.workers == Some(AutoOr::Num(0)) ==> r == Err::<ConfigView, Seq<char>>(
                "scan.workers"@ + ": must be greater than 0"@,
            )
            &&& (scan.workers matches Some(AutoOr::Word(w)) && w@ != "auto"@) ==> r == Err::<
                ConfigView,
                Seq<char>,
            >(
                "scan.workers"@ + ": expected \"auto\" or a positive integer, got \""@ + (
                scan.workers->0)->Word_0@ + "\""@,
            )
            &&& fine(scan.workers) && scan.writer_batch_rows == Some(AutoOr::Num(0)) ==> r == Err::<
                ConfigView,
                Seq<char>,
            >("scan.writer_batch_rows"@ + ": must be greater than 0"@)
            &&& fine(scan.workers) && (scan.writer_batch_rows matches Some(AutoOr::Word(w)) && w@
                != "auto"@) ==> r == Err::<ConfigView, Seq<char>>(
                "scan.writer_batch_rows"@ + ": expected \"auto\" or a positive integer, got \""@ + (
                scan.writer_batch_rows->0)->Word_0@ + "\""@,
            )
            &&& fine(scan.workers) && fine(scan.writer_batch_rows) && (
            scan.hash_policy matches Some(p) && p@ != "reuse_when_metadata_matches"@) ==> r == Err::<
                ConfigView,
                Seq<char>,
            >("scan.hash_policy: unknown policy \""@ + (scan.hash_policy->0)@ + "\""@)
        }),
{
}

/// A path under a directory is the directory, one separator and the path, whether
/// the directory brings the separator or not; an absolute path stays as it is.
pub proof fn law_joining_puts_one_separator(dir: Seq<char>, name: Seq<char>)
    ensures
        name.len() > 0 && name[0] == '/' ==> joined(dir, name) == name,
        !(name.len() > 0 && name[0] == '/') ==> {
            &&& dir.len() > 0 && dir.last() != '/' ==> joined(dir, name) == dir + seq!['/'] + name
            &&& dir.len() > 0 && dir.last() == '/' ==> joined(dir, name) == dir + name
            &&& dir.len() == 0 ==> joined(dir, name) == name
        },
{
    assert(dir.push('/') + name =~= dir + seq!['/'] + name);
    if dir.len() == 0 {
        assert(dir + name =~= name);
    }
}

/// Only a leading `~` that stands alone or before a separator is expanded, and only
/// where there is a home directory.
pub proof fn law_only_a_leading_tilde_is_expanded(path: Seq<char>, home: Seq<char>)
    ensures
        expanded(path, None) == path,
        expanded(seq!['~'], Some(home)) == home,
        expanded(seq!['~', '/'] + path, Some(home)) == joined(home, path),
        path.len() == 0 || path[0] != '~' ==> expanded(path, Some(home)) == path,
        path.len() >= 2 && path[1] != '/' ==> expanded(path, Some(home)) == path,
{
    assert((seq!['~', '/'] + path).skip(2) =~= path);
}

/// Configuration stands in one place for the system and in one under a home.
pub proof fn law_configuration_stands_in_two_places()
    ensures
        SYSTEM_CONFIG@ == "/etc/xdg/metainjester/metainjester.toml"@,
        USER_CONFIG_SUFFIX@ == ".config/metainjester/metainjester.toml"@,
{
}

/// Space is what Unicode calls white space.
pub proof fn law_space_is_white_space(c: char)
    ensures
        is_space(c) <==> {
            let n = c as u32;
            9 <= n <= 13 || n == 32 || n == 0x85 || n == 0xa0 || n == 0x1680 || 0x2000 <= n
                <= 0x200a || n == 0x2028 || n == 0x2029 || n == 0x202f || n == 0x205f || n == 0x3000
        },
{
}

/// Trimming takes away the space at both ends and nothing else.
pub proof fn law_trimming_takes_the_outer_space(s: Seq<char>)
    ensures
        trimmed(s).len() > 0 ==> !is_space(trimmed(s)[0]) && !is_space(trimmed(s).last()),
        exists|a: int, b: int|
            0 <= a <= b <= s.len() && trimmed(s) == #[trigger] s.subrange(a, b) && (forall|i: int|
                0 <= i < s.len() && !(a <= i < b) ==> is_space(#[trigger] s[i])),
{
    lemma_start_cut(s);
    let a = choose|a: int|
        0 <= a <= s.len() && trimmed_start(s) == #[trigger] s.skip(a) && (forall|i: int|
            0 <= i < a ==> is_space(#[trigger] s[i])) && (a < s.len() ==> !is_space(s[a]));
    let t = s.skip(a);
    lemma_end_cut(t);
    let n = choose|n: int|
        0 <= n <= t.len() && trimmed_end(t) == #[trigger] t.take(n) && (forall|i: int|
            n <= i < t.len() ==> is_space(#[trigger] t[i])) && (n > 0 ==> !is_space(t[n - 1]));
    assert(trimmed(s) =~= s.subrange(a, a + n));
    assert forall|i: int| 0 <= i < s.len() && !(a <= i < a + n) implies is_space(
        #[trigger] s[i],
    ) by {
        if i >= a {
            assert(t[i - a] == s[i]);
        }
    }
    if n > 0 {
        assert(t[0] == s[a]);
        assert(trimmed(s)[0] == t[0]);
        assert(trimmed(s).last() == t[n - 1]);
    }
}

proof fn lemma_start_cut(s: Seq<char>)
    ensures
        exists|a: int|
            0 <= a <= s.len() && trimmed_start(s) == #[trigger] s.skip(a) && (forall|i: int|
                0 <= i < a ==> is_space(#[trigger] s[i])) && (a < s.len() ==> !is_space(s[a])),
    decreases s.len(),
{
    if s.len() > 0 && is_space(s[0]) {
        let t = s.drop_first();
        lemma_start_cut(t);
        let a = choose|a: int|
            0 <= a <= t.len() && trimmed_start(t) == #[trigger] t.skip(a) && (forall|i: int|
                0 <= i < a ==> is_space(#[trigger] t[i])) && (a < t.len() ==> !is_space(t[a]));
        assert(t.skip(a) =~= s.skip(a + 1));
        assert forall|i: int| 0 <= i < a + 1 implies is_space(#[trigger] s[i]) by {
            if i > 0 {
                assert(t[i - 1] == s[i]);
            }
        }
        if a < t.len() {
            assert(t[a] == s[a + 1]);
        }
    } else {
        assert(s.skip(0) =~= s);
    }
}

proof fn lemma_end_cut(s: Seq<char>)
    ensures
        exists|n: int|
            0 <= n <= s.len() && trimmed_end(s) == #[trigger] s.take(n) && (forall|i: int|
                n <= i < s.len() ==> is_space(#[trigger] s[i])) && (n > 0 ==> !is_space(s[n - 1])),
    decreases s.len(),
{
    if s.len() > 0 && is_space(s.last()) {
        let t = s.drop_last();
        lemma_end_cut(t);
        let n = choose|n: int|
            0 <= n <= t.len() && trimmed_end(t) == #[trigger] t.take(n) && (forall|i: int|
                n <= i < t.len() ==> is_space(#[trigger] t[i])) && (n > 0 ==> !is_space(t[n - 1]));
        assert(t.take(n) =~= s.take(n));
        assert forall|i: int| n <= i < s.len() implies is_space(#[trigger] s[i]) by {
            if i < t.len() {
                assert(t[i] == s[i]);
            }
        }
    } else {
        assert(s.take(s.len() as int) =~= s);
    }
}

/// The filled lines of a text are those of its first line, then those of the rest.
/// A line counts, trimmed, where trimming leaves anything of it.
pub proof fn law_lines_come_one_after_the_other(line: Seq<char>, rest: Seq<char>)
    requires
        !line.contains('\n'),
    ensures
        filled_lines(line) == (if trimmed(line).len() == 0 {
            Seq::<Seq<char>>::empty()
        } else {
            seq![trimmed(line)]
        }),
        filled_lines(line.push('\n') + rest) == filled_lines(line) + filled_lines(rest),
{
    let all = line.push('\n') + rest;
    let n = line.len() as int;
    assert forall|i: int| 0 <= i < n implies #[trigger] line[i] != '\n' by {
        assert(line.contains(line[i]));
    }
    assert forall|i: int| 0 <= i < n implies #[trigger] all[i] != '\n' by {
        assert(all[i] == line[i]);
    }
    lemma_line_end(line, n);
    lemma_line_end(all, n);
    assert(line.take(n) =~= line);
    assert(all.take(n) =~= line);
    assert(all.skip(n + 1) =~= rest);
    if trimmed(line).len() == 0 {
        assert(filled_lines(line) + filled_lines(rest) =~= filled_lines(rest));
    } else {
        assert(filled_lines(line) =~= seq![trimmed(line)]);
    }
}

/// The reason in a parse error is its first filled line, and after a colon the last
/// one that says something, where that is another. Lines that begin with a bar or a
/// caret only draw.
pub proof fn law_reason_is_the_first_line_and_the_last_word(s: Seq<char>, k: int)
    ensures
        ({
            let lines = filled_lines(s);
            let draws = |i: int|
                lines[i].len() > 0 && (lines[i][0] == '|' || lines[i][0] == '^');
            &&& lines.len() == 0 ==> reason_in(s).len() == 0
            &&& lines.len() > 0 && (forall|i: int| 1 <= i < lines.len() ==> #[trigger] draws(i))
                ==> reason_in(s) == lines[0]
            &&& 1 <= k < lines.len() && !draws(k) && (forall|i: int|
                k < i < lines.len() ==> #[trigger] draws(i)) ==> reason_in(s) == (if lines[k]
                == lines[0] {
                lines[0]
            } else {
                lines[0] + ": "@ + lines[k]
            })
        }),
{
    let lines = filled_lines(s);
    let draws = |i: int| lines[i].len() > 0 && (lines[i][0] == '|' || lines[i][0] == '^');
    if lines.len() > 0 {
        let after = lines.drop_first();
        let spoken = |l: Seq<char>| !is_drawing(l);
        if forall|i: int| 1 <= i < lines.len() ==> #[trigger] draws(i) {
            assert forall|i: int| 0 <= i < after.len() implies !spoken(#[trigger] after[i]) by {
                assert(draws(i + 1));
            }
            lemma_nothing_chosen(after, spoken);
        }
        if 1 <= k < lines.len() && !draws(k) && (forall|i: int|
            k < i < lines.len() ==> #[trigger] draws(i)) {
            assert(spoken(after[k - 1]));
            assert forall|i: int| k - 1 < i < after.len() implies !spoken(#[trigger] after[i]) by {
                assert(draws(i + 1));
            }
            lemma_last_chosen(after, spoken, k - 1);
        }
    }
}

proof fn lemma_nothing_chosen(s: Seq<Seq<char>>, pred: spec_fn(Seq<char>) -> bool)
    requires
        forall|i: int| 0 <= i < s.len() ==> !pred(#[trigger] s[i]),
    ensures
        s.filter(pred).len() == 0,
    decreases s.len(),
{
    reveal(Seq::filter);
    if s.len() > 0 {
        let rest = s.drop_last();
        assert forall|i: int| 0 <= i < rest.len() implies !pred(#[trigger] rest[i]) by {
            assert(rest[i] == s[i]);
        }
        lemma_nothing_chosen(rest, pred);
        assert(!pred(s[s.len() - 1]));
    }
}

proof fn lemma_last_chosen(s: Seq<Seq<char>>, pred: spec_fn(Seq<char>) -> bool, k: int)
    requires
        0 <= k < s.len(),
        pred(s[k]),
        forall|i: int| k < i < s.len() ==> !pred(#[trigger] s[i]),
    ensures
        s.filter(pred).len() > 0,
        s.filter(pred).last() == s[k],
    decreases s.len(),
{
    reveal(Seq::filter);
    let rest = s.drop_last();
    if k < rest.len() {
        assert(rest[k] == s[k]);
        assert forall|i: int| k < i < rest.len() implies !pred(#[trigger] rest[i]) by {
            assert(rest[i] == s[i]);
        }
        lemma_last_chosen(rest, pred, k);
        assert(!pred(s[s.len() - 1]));
    }
}

/// A configuration shows in full, its three inclusion answers together.
pub proof fn law_configuration_shows_in_full(c: Config, e: AppError, message: Seq<char>)
    ensures
        c@.workers == c.workers,
        c@.writer_batch_rows == c.writer_batch_rows,
        c@.queue_items == c.queue_items,
        c@.throttle_ms_after_batch == c.throttle_ms_after_batch,
        c@.hash_policy == c.hash_policy@,
        c@.policy.skip_hidden == c.skip_hidden,
        c@.policy.skip_mount_boundaries == c.skip_mount_boundaries,
        c@.policy.follow_symlinks == c.follow_symlinks,
        c@.database_path == c.database_path@,
        c@.minimum_free_space_mib == c.minimum_free_space_mib,
        c@.keep_scans == c.keep_scans,
        misconfigured(e, message) <==> e.code == 3 && e.message@ == message,
{
}

} // verus!
