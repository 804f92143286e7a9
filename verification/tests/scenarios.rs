//! Whole scans of small trees held in memory: each one is walked, staged,
//! concluded and reported the way the command does it.

use std::collections::BTreeMap;

use metainjester::config::{Config, Policy};
use metainjester::db::{discover, existing_path, open_readonly, Contents};
use metainjester::error::{
    EXIT_CANCELLED, EXIT_CONFIG, EXIT_ERROR, EXIT_INCOMPLETE, EXIT_NO_SPACE, EXIT_OK, EXIT_POLICY,
};
use metainjester::hash::ContentHasher;
use metainjester::history::{ScanLog, ScanRow, ScanStatus};
use metainjester::paths::PathTable;
use metainjester::pipeline::{
    Worker, WorkerAction, WorkerEvent, Writer, WriterAction, WriterEvent,
};
use metainjester::promote::Promotion;
use metainjester::report::{no_database, report, status_base, BaseStatus};
use metainjester::rows::{Change, ErrorRow, Facts, FileRow, Presence, StageEntry};
use metainjester::scan::{
    conclude, exit_code, new_outcome, open_scan, preflight, register_base, staged_totals, Attempt,
    Base, Conclusion, Opening, Outcome,
};
use metainjester::stage::{BatchWrite, HashAttempt, WriteMsg};
use metainjester::walk::{
    unstatable_base, Counters, EntryKind, FailureKind, IoFailure, Meta, WalkAction, WalkEvent,
    WalkMsg, Walker,
};

fn config() -> Config {
    Config {
        workers: 1,
        writer_batch_rows: 1000,
        queue_items: 1000,
        throttle_ms_after_batch: 0,
        hash_policy: "reuse_when_metadata_matches".to_string(),
        skip_hidden: true,
        skip_mount_boundaries: true,
        follow_symlinks: false,
        database_path: "/db".to_string(),
        minimum_free_space_mib: 1,
        keep_scans: 0,
    }
}

const ROOM: u64 = 1 << 40;

enum Node {
    File { body: Vec<u8>, mtime: u128 },
    Dir { denied: bool },
    /// Points at a path below the base.
    Link(Vec<u8>),
    Fifo,
}

struct Tree {
    nodes: BTreeMap<Vec<u8>, (u64, u64, Node)>,
    clock: u128,
    /// The base cannot be examined, or cannot be listed.
    base_missing: bool,
    base_denied: bool,
    /// Files that cannot be opened.
    sealed: Vec<Vec<u8>>,
}

fn denied() -> IoFailure {
    IoFailure {
        raw_os_error: Some(13),
        kind: FailureKind::PermissionDenied,
        message: "Permission denied (os error 13)".to_string(),
    }
}

fn missing() -> IoFailure {
    IoFailure {
        raw_os_error: Some(2),
        kind: FailureKind::NotFound,
        message: "No such file or directory (os error 2)".to_string(),
    }
}

impl Tree {
    fn new() -> Tree {
        Tree {
            nodes: BTreeMap::new(),
            clock: 1000,
            base_missing: false,
            base_denied: false,
            sealed: Vec::new(),
        }
    }

    fn put(&mut self, rel: &[u8], node: Node) {
        for (i, b) in rel.iter().enumerate() {
            if *b == b'/' && !self.nodes.contains_key(&rel[..i]) {
                let ino = self.nodes.len() as u64 + 100;
                self.nodes.insert(rel[..i].to_vec(), (7, ino, Node::Dir { denied: false }));
            }
        }
        let ino = match self.nodes.get(rel) {
            Some((_, ino, _)) => *ino,
            None => self.nodes.len() as u64 + 100,
        };
        self.nodes.insert(rel.to_vec(), (7, ino, node));
    }

    fn write_raw(&mut self, rel: &[u8], body: &str) {
        self.clock += 1;
        let mtime = self.clock;
        self.put(rel, Node::File { body: body.as_bytes().to_vec(), mtime });
    }

    fn write(&mut self, rel: &str, body: &str) {
        self.write_raw(rel.as_bytes(), body);
    }

    fn link(&mut self, rel: &str, target: &str) {
        self.put(rel.as_bytes(), Node::Link(target.as_bytes().to_vec()));
    }

    fn remove(&mut self, rel: &str) {
        let below = format!("{rel}/").into_bytes();
        self.nodes.retain(|p, _| p != rel.as_bytes() && !p.starts_with(&below));
    }

    fn rename(&mut self, from: &str, to: &str) {
        let moved = self.nodes.remove(from.as_bytes()).unwrap();
        self.nodes.insert(to.as_bytes().to_vec(), moved);
    }

    fn lock(&mut self, rel: &str, shut: bool) {
        self.nodes.get_mut(rel.as_bytes()).unwrap().2 = Node::Dir { denied: shut };
    }

    fn move_device(&mut self, rel: &str, dev: u64) {
        self.nodes.get_mut(rel.as_bytes()).unwrap().0 = dev;
    }

    /// Where a path leads once every link on the way is followed; `last` says
    /// whether the final one is.
    fn resolve(&self, path: &[u8], last: bool) -> Vec<u8> {
        let mut real: Vec<u8> = Vec::new();
        let parts: Vec<&[u8]> = path.split(|b| *b == b'/').filter(|p| !p.is_empty()).collect();
        for (i, part) in parts.iter().enumerate() {
            if !real.is_empty() {
                real.push(b'/');
            }
            real.extend_from_slice(part);
            for _ in 0..8 {
                match self.nodes.get(&real) {
                    Some((_, _, Node::Link(to))) if last || i + 1 < parts.len() => {
                        real = to.clone();
                    }
                    _ => break,
                }
            }
        }
        real
    }

    fn names(&self, dir: &[u8]) -> Vec<Vec<u8>> {
        let mut prefix = dir.to_vec();
        if !prefix.is_empty() {
            prefix.push(b'/');
        }
        self.nodes
            .keys()
            .filter(|p| p.starts_with(&prefix) && p.len() > prefix.len())
            .map(|p| p[prefix.len()..].to_vec())
            .filter(|rest| !rest.contains(&b'/'))
            .collect()
    }

    fn meta(&self, real: &[u8]) -> Result<Meta, IoFailure> {
        let Some((dev, ino, node)) = self.nodes.get(real) else {
            return Err(missing());
        };
        let (kind, len, mtime) = match node {
            Node::File { body, mtime } => (EntryKind::File, body.len() as u64, *mtime),
            Node::Dir { .. } => (EntryKind::Dir, 4096, self.clock),
            Node::Link(_) => (EntryKind::Symlink, 1, 0),
            Node::Fifo => (EntryKind::Other, 0, 0),
        };
        Ok(Meta { kind, dev: *dev, ino: *ino, len, modified: Some(mtime), created: None })
    }

    fn open(&self, path: &[u8]) -> Result<Vec<Vec<u8>>, IoFailure> {
        if path.is_empty() {
            return if self.base_denied { Err(denied()) } else { Ok(self.names(b"")) };
        }
        let real = self.resolve(path, true);
        match self.nodes.get(&real) {
            Some((_, _, Node::Dir { denied: true })) => Err(denied()),
            Some((_, _, Node::Dir { .. })) => Ok(self.names(&real)),
            _ => Err(missing()),
        }
    }

    /// Walks the tree. One listing is open at a time; `limit` cancels the walk
    /// after that many messages.
    fn walk(&self, config: &Config, limit: Option<usize>) -> (Vec<WalkMsg>, Counters) {
        let mut sent: Vec<WalkMsg> = Vec::new();
        if self.base_missing {
            sent.push(unstatable_base(&missing()));
            return (sent, Counters::default());
        }
        let mut walker = Walker::new(b"/base".to_vec(), config, 7);
        let mut listing: Option<std::vec::IntoIter<Vec<u8>>> = None;
        let mut event = WalkEvent::Start;
        loop {
            let cancelled = limit.is_some_and(|n| sent.len() >= n);
            event = match walker.run(event, cancelled) {
                WalkAction::Open(p) => {
                    assert!(listing.is_none(), "two directories open at once");
                    match self.open(&p) {
                        Ok(names) => {
                            listing = Some(names.into_iter());
                            WalkEvent::Opened
                        }
                        Err(e) => WalkEvent::Failed(e),
                    }
                }
                WalkAction::Next => match listing.as_mut().unwrap().next() {
                    Some(name) => WalkEvent::Name(name),
                    None => {
                        listing = None;
                        WalkEvent::End
                    }
                },
                WalkAction::Stat(p) => match self.meta(&self.resolve(&p, false)) {
                    Ok(m) => WalkEvent::Meta(m),
                    Err(e) => WalkEvent::Failed(e),
                },
                WalkAction::Follow(p) => match self.meta(&self.resolve(&p, true)) {
                    Ok(m) => WalkEvent::Meta(m),
                    Err(e) => WalkEvent::Failed(e),
                },
                WalkAction::Send(m) => {
                    sent.push(m);
                    WalkEvent::Sent(true)
                }
                WalkAction::Finish => return (sent, walker.counts()),
            };
        }
    }

    fn read(&self, rel: &[u8]) -> HashAttempt {
        let real = self.resolve(rel, true);
        if self.sealed.contains(&real) {
            return HashAttempt::Failed(denied());
        }
        match self.nodes.get(&real) {
            Some((_, _, Node::File { body, .. })) => {
                let mut h = ContentHasher::new();
                h.update(body);
                HashAttempt::Read { contents: h, after: self.meta(&real).ok() }
            }
            _ => HashAttempt::Failed(missing()),
        }
    }
}

struct Catalogue {
    base: Option<Base>,
    scans: Vec<ScanRow>,
    files: PathTable<FileRow>,
    staged: BTreeMap<Vec<u8>, Facts>,
    errors: Vec<ErrorRow>,
    changes: Vec<(i64, Change)>,
}

struct Run {
    code: i32,
    out: String,
    outcome: Option<Outcome>,
    unreadable_dirs: u64,
    discovered_files: u64,
}

impl Run {
    /// The value after `key` anywhere in the report: the first occurrence that is
    /// followed by a number.
    fn num(&self, key: &str) -> i64 {
        let toks: Vec<&str> = self.out.split_whitespace().collect();
        toks.windows(2)
            .find(|w| w[0] == key && w[1].parse::<i64>().is_ok())
            .map(|w| w[1].parse().unwrap())
            .unwrap_or_else(|| panic!("no numeric `{key}` in:\n{}", self.out))
    }

    fn has(&self, needle: &str) -> bool {
        self.out.contains(needle)
    }

    fn ok(&self) -> &Run {
        assert_eq!(self.code, EXIT_OK, "expected success, got:\n{}", self.out);
        self
    }
}

/// How a scan is disturbed.
#[derive(Default)]
struct Trouble {
    /// The walk is cancelled after this many messages.
    cancel_after: Option<usize>,
    /// The process dies after this many messages.
    die_after: Option<usize>,
    /// The floor is crossed by the first batch.
    full: bool,
}

impl Catalogue {
    fn new() -> Catalogue {
        Catalogue {
            base: None,
            scans: Vec::new(),
            files: PathTable::new(),
            staged: BTreeMap::new(),
            errors: Vec::new(),
            changes: Vec::new(),
        }
    }

    fn log(&self) -> ScanLog {
        let mut log = ScanLog::new();
        for row in &self.scans {
            assert!(log.push(*row));
        }
        log
    }

    fn presence(&self, rel: &[u8]) -> Option<&'static str> {
        self.files.get(rel).map(|f| f.presence.as_str())
    }

    fn count(&self, presence: Presence) -> usize {
        (0..self.files.len()).filter(|i| self.files.row(*i).presence == presence).count()
    }

    fn status_count(&self, status: ScanStatus) -> usize {
        self.scans.iter().filter(|s| s.status == status).count()
    }

    fn changes_of(&self, scan_id: i64) -> usize {
        self.changes.iter().filter(|c| c.0 == scan_id).count()
    }

    fn entry(&self, rel: &[u8]) -> Option<StageEntry> {
        self.staged.get(rel).map(|f| StageEntry { facts: f.copy(), complete: true })
    }

    fn apply(&mut self, scan_id: i64, p: Promotion) {
        for c in p.added.into_iter().chain(p.updated).chain(p.deleted) {
            self.changes.push((scan_id, c));
        }
        for w in p.writes {
            self.files.insert(w.path, w.row);
        }
    }

    fn refusal(code: i32, message: String) -> Run {
        Run { code, out: message, outcome: None, unreadable_dirs: 0, discovered_files: 0 }
    }

    /// Hands one message to the writer. Says how the writer ended, if it did.
    fn write(
        &mut self,
        writer: &mut Writer,
        m: WriteMsg,
        walked: &mut PathTable<()>,
        free: u64,
        config: &Config,
    ) -> Option<bool> {
        let mut event = WriterEvent::Message(m);
        loop {
            event = match writer.run(event, config) {
                WriterAction::Receive => return None,
                WriterAction::TryReceive => WriterEvent::Empty,
                WriterAction::Write(flushed) => {
                    for w in flushed.writes {
                        match w {
                            BatchWrite::Stage { path, entry } => {
                                self.staged.insert(path, entry.facts);
                            }
                            BatchWrite::Walked(path) => walked.insert(path, ()),
                            BatchWrite::Problem(e) => self.errors.push(e),
                        }
                    }
                    WriterEvent::Written
                }
                WriterAction::Measure => WriterEvent::Free(free),
                WriterAction::Pause(_) => WriterEvent::Resumed,
                WriterAction::Finish { low_space } => return Some(low_space),
            };
        }
    }

    fn ingest(&mut self, tree: &Tree, config: &Config) -> Run {
        self.ingest_with(tree, config, Trouble::default())
    }

    fn ingest_with(&mut self, tree: &Tree, config: &Config, trouble: Trouble) -> Run {
        let stored = self.base.unwrap_or(Base { id: 1, baseline: None, policy: config.policy() });
        self.base = Some(stored);
        let base = match register_base(stored, config) {
            Ok(base) => base,
            Err(m) => return Catalogue::refusal(m.error.code, m.error.message),
        };
        let space = match preflight(ROOM, config) {
            Ok(space) => space,
            Err(e) => return Catalogue::refusal(e.code, e.message),
        };
        let (scan_id, resumed) = match open_scan(&self.log(), base, config, &space, 5) {
            Opening::Resume(id) => {
                self.errors.clear();
                (id, true)
            }
            Opening::Fresh(_) => {
                self.staged.clear();
                let id = self.scans.len() as i64 + 1;
                self.scans.push(ScanRow {
                    scan_id: id,
                    status: ScanStatus::Running,
                    started_at_ns: 5,
                });
                (id, false)
            }
        };
        let at = self.scans.iter().position(|s| s.scan_id == scan_id).unwrap();
        self.scans[at].status = ScanStatus::Running;

        let (messages, walked_counts) = tree.walk(config, trouble.cancel_after);
        let mut walked: PathTable<()> = PathTable::new();
        let mut stopped = trouble.cancel_after.is_some_and(|n| messages.len() >= n);
        let mut low_space = false;
        let mut worker = Worker::new();
        let mut writer = Writer::new();
        assert!(matches!(writer.run(WriterEvent::Start, config), WriterAction::Receive));
        let mut queue = messages.into_iter();
        let mut taken = 0;
        let mut event = WorkerEvent::Start;
        loop {
            event = match worker.run(event, false) {
                WorkerAction::Receive => {
                    if trouble.die_after == Some(taken) {
                        return Catalogue::refusal(-1, "killed".to_string());
                    }
                    taken += 1;
                    match queue.next() {
                        Some(msg) => WorkerEvent::Message(msg),
                        None => WorkerEvent::Closed,
                    }
                }
                WorkerAction::LookUp(rel) => WorkerEvent::Found {
                    staged: self.entry(&rel),
                    prior: self.files.get(&rel).map(|f| FileRow {
                        facts: f.facts.copy(),
                        presence: f.presence,
                        metadata_from_scan_id: f.metadata_from_scan_id,
                        deleted_in_scan_id: f.deleted_in_scan_id,
                    }),
                },
                WorkerAction::Hash(path) => {
                    assert!(path.starts_with(b"/base/"));
                    WorkerEvent::Hashed(tree.read(&path[6..]))
                }
                WorkerAction::Send(m) => {
                    let free = if trouble.full { 0 } else { ROOM };
                    match self.write(&mut writer, m, &mut walked, free, config) {
                        None => WorkerEvent::Sent(true),
                        Some(low) => {
                            low_space = low;
                            stopped = true;
                            WorkerEvent::Sent(false)
                        }
                    }
                }
                WorkerAction::Stop => break,
            };
        }
        let errors = writer.errors();
        let counts = walked_counts.with(&worker.counts());

        let table = |staged: &BTreeMap<Vec<u8>, Facts>| {
            let mut t: PathTable<StageEntry> = PathTable::new();
            for (p, f) in staged {
                assert!(t.push(p.clone(), StageEntry { facts: f.copy(), complete: true }));
            }
            t
        };
        let (staged_count, _) = staged_totals(&table(&self.staged)).ok().unwrap();
        let mut outcome = new_outcome(scan_id, resumed, staged_count, errors, &counts, space);
        let attempt = Attempt {
            staged: table(&self.staged),
            walked,
            errors: std::mem::take(&mut self.errors),
        };
        let concluded = conclude(&self.files, attempt, stopped, low_space, config, &mut outcome);
        match concluded.ok().unwrap() {
            Conclusion::Kept(end) => {
                self.scans[at].status = match end.status {
                    "cancelled" => ScanStatus::Cancelled,
                    _ => ScanStatus::Partial,
                };
            }
            Conclusion::Promoted { promotion, dropped, .. } => {
                for p in dropped {
                    self.staged.remove(&p);
                }
                self.apply(scan_id, promotion);
                self.staged.clear();
                self.scans[at].status = ScanStatus::Complete;
                self.base = Some(Base { baseline: Some(scan_id), ..base });
            }
        }
        let out = report("/db", "/base", config, &outcome, "0.01s").join("\n");
        Run {
            code: exit_code(&outcome),
            out,
            outcome: Some(outcome),
            unreadable_dirs: counts.unreadable_dirs,
            discovered_files: counts.discovered_files,
        }
    }
}

#[test]
fn fresh_scan_catalogues_every_file() {
    let mut s = Tree::new();
    s.write("a.txt", "a");
    s.write("sub/b.txt", "bb");
    s.write("sub/deeper/c.txt", "ccc");
    let mut c = Catalogue::new();

    let r = c.ingest(&s, &config());
    r.ok();
    assert_eq!(r.num("files"), 3);
    assert_eq!(r.num("added"), 3);
    assert_eq!(r.num("present"), 3);
    assert_eq!(r.num("errors"), 0);
    assert_eq!(c.count(Presence::Present), 3);
    assert_eq!(c.status_count(ScanStatus::Complete), 1);
}

#[test]
fn unchanged_rerun_hashes_nothing() {
    let mut s = Tree::new();
    s.write("a.txt", "a");
    s.write("sub/b.txt", "bb");
    let mut c = Catalogue::new();
    c.ingest(&s, &config()).ok();

    let r = c.ingest(&s, &config());
    r.ok();
    assert_eq!(r.num("hashed"), 0, "an unchanged rerun must not rehash");
    assert_eq!(r.num("unchanged"), 2);
    assert_eq!(r.num("added"), 0);
    assert_eq!(r.num("updated"), 0);
    // and it must not manufacture history
    assert_eq!(c.changes_of(2), 0);
}

#[test]
fn edited_file_is_an_update_not_a_rename() {
    let mut s = Tree::new();
    s.write("a.txt", "one");
    let mut c = Catalogue::new();
    c.ingest(&s, &config()).ok();
    s.write("a.txt", "two-different-length");

    let r = c.ingest(&s, &config());
    r.ok();
    assert_eq!(r.num("updated"), 1);
    assert_eq!(r.num("added"), 0);
    assert_eq!(r.num("deleted"), 0);
}

#[test]
fn rename_is_delete_plus_add() {
    let mut s = Tree::new();
    s.write("before.txt", "same bytes");
    let mut c = Catalogue::new();
    c.ingest(&s, &config()).ok();
    s.rename("before.txt", "after.txt");

    let r = c.ingest(&s, &config());
    r.ok();
    // A content-hash match is never treated as proof of a move.
    assert_eq!(r.num("added"), 1);
    assert_eq!(r.num("deleted"), 1);
    assert_eq!(c.presence(b"before.txt"), Some("deleted"));
    assert_eq!(c.presence(b"after.txt"), Some("present"));
}

#[test]
fn removed_file_is_recorded_deleted() {
    let mut s = Tree::new();
    s.write("keep.txt", "k");
    s.write("gone.txt", "g");
    let mut c = Catalogue::new();
    c.ingest(&s, &config()).ok();
    s.remove("gone.txt");

    let r = c.ingest(&s, &config());
    r.ok();
    assert_eq!(r.num("deleted"), 1);
    assert_eq!(c.presence(b"gone.txt"), Some("deleted"));
    assert_eq!(c.presence(b"keep.txt"), Some("present"));
}

#[test]
fn hidden_entries_are_excluded_by_count_only() {
    let mut s = Tree::new();
    s.write("visible.txt", "v");
    s.write(".hidden.txt", "h");
    s.write(".hiddendir/inside.txt", "i");
    let mut c = Catalogue::new();

    let r = c.ingest(&s, &config());
    r.ok();
    assert_eq!(r.num("files"), 1);
    // The hidden directory is counted once and never descended into.
    assert!(r.has("2 hidden"), "got:\n{}", r.out);
    assert_eq!(c.files.len(), 1);
}

#[test]
fn symlinks_are_excluded_unless_followed() {
    let mut s = Tree::new();
    s.write("real.txt", "r");
    s.link("link.txt", "real.txt");
    let mut c = Catalogue::new();

    let r = c.ingest(&s, &config());
    r.ok();
    assert_eq!(r.num("files"), 1, "a symlink is not a regular file");
    assert!(r.has("1 symlink"), "got:\n{}", r.out);

    // Following it makes the same path eligible, under a fresh base.
    let follow = Config { follow_symlinks: true, ..config() };
    let mut c2 = Catalogue::new();
    let r2 = c2.ingest(&s, &follow);
    r2.ok();
    assert_eq!(r2.num("files"), 2);
}

#[test]
fn symlink_loop_terminates() {
    let mut s = Tree::new();
    s.write("a/b/c/deep.txt", "d");
    s.write("a/top.txt", "t");
    // back -> a, so a naive walk would descend for ever.
    s.link("a/b/c/back", "a");
    let follow = Config { follow_symlinks: true, ..config() };
    let mut c = Catalogue::new();

    let r = c.ingest(&s, &follow);
    r.ok();
    assert_eq!(r.num("files"), 2, "each real file seen exactly once");
}

#[test]
fn two_links_to_one_directory_lead_through_it_once() {
    let mut s = Tree::new();
    s.write("real/f.txt", "f");
    s.link("one", "real");
    s.link("two", "real");
    let follow = Config { follow_symlinks: true, ..config() };
    let mut c = Catalogue::new();
    let r = c.ingest(&s, &follow);
    r.ok();
    assert_eq!(r.num("files"), 1);
    assert_eq!(c.presence(b"one/f.txt"), Some("present"), "the first name met is the one kept");
}

#[test]
fn changing_inclusion_policy_is_refused() {
    let mut s = Tree::new();
    s.write("visible.txt", "v");
    s.write(".hidden.txt", "h");
    let mut c = Catalogue::new();
    c.ingest(&s, &config()).ok();

    // Under the new policy every hidden path would look deleted, so the rescan
    // must refuse rather than record that.
    let r = c.ingest(&s, &Config { skip_hidden: false, ..config() });
    assert_eq!(r.code, EXIT_POLICY, "got:\n{}", r.out);
    assert!(r.has("policy_mismatch"));
    assert_eq!(c.count(Presence::Deleted), 0);
}

/// One listing is open at a time, however deep the tree: the driver panics on a
/// second one.
#[test]
fn deep_tree_survives_a_low_descriptor_limit() {
    let depth = 600;
    let mut s = Tree::new();
    let mut p = String::from("t");
    for _ in 0..depth {
        p.push_str("/d");
        s.write(&format!("{p}/f.txt"), "x");
    }
    let mut c = Catalogue::new();

    let r = c.ingest(&s, &config());
    r.ok();
    assert_eq!(r.num("files"), depth, "descriptors must not bound tree depth");
    assert_eq!(r.num("errors"), 0);
    assert_eq!(r.unreadable_dirs, 0);
}

#[test]
fn unreadable_directory_shields_its_rows_and_flags_the_gap() {
    let mut s = Tree::new();
    s.write("open/a.txt", "a");
    s.write("locked/b.txt", "b");
    let mut c = Catalogue::new();
    c.ingest(&s, &config()).ok();

    s.lock("locked", true);
    let r = c.ingest(&s, &config());
    // Promoted: one unreadable directory must not hold the whole scan hostage,
    // but not silently, and not with exit 0.
    assert_eq!(r.code, EXIT_INCOMPLETE, "got:\n{}", r.out);
    assert!(r.has("NOT catalogued"), "the gap must be stated:\n{}", r.out);
    assert_eq!(r.unreadable_dirs, 1);

    // Absence under an unreadable path is not proof of deletion.
    assert_eq!(c.presence(b"locked/b.txt"), Some("unreadable"));
    assert_eq!(c.presence(b"open/a.txt"), Some("present"));
    assert_eq!(c.count(Presence::Deleted), 0);

    // Restoring the permission lands exactly where a readable scan would have,
    // and records no change for a file that never changed.
    s.lock("locked", false);
    let r3 = c.ingest(&s, &config());
    r3.ok();
    assert_eq!(c.presence(b"locked/b.txt"), Some("present"));
    assert_eq!(c.changes_of(3), 0, "returning to readable is not itself a change");
}

#[test]
fn shielding_respects_path_boundaries() {
    let mut s = Tree::new();
    s.write("locked/a.txt", "a");
    s.write("lockedtoo/b.txt", "b");
    let mut c = Catalogue::new();
    c.ingest(&s, &config()).ok();

    s.lock("locked", true);
    // The sibling really is gone, and nothing about `locked` should save it.
    s.remove("lockedtoo");

    let r = c.ingest(&s, &config());
    assert_eq!(r.code, EXIT_INCOMPLETE, "got:\n{}", r.out);
    assert_eq!(c.presence(b"locked/a.txt"), Some("unreadable"));
    assert_eq!(
        c.presence(b"lockedtoo/b.txt"),
        Some("deleted"),
        "a sibling sharing a byte prefix must not be shielded"
    );
}

#[test]
fn unreadable_base_refuses_to_promote() {
    let mut s = Tree::new();
    s.write("a.txt", "a");
    let mut c = Catalogue::new();
    c.ingest(&s, &config()).ok();

    s.base_denied = true;
    let r = c.ingest(&s, &config());

    assert_ne!(r.code, EXIT_OK, "got:\n{}", r.out);
    assert!(r.has("baseline unchanged"), "got:\n{}", r.out);
    // The base prefixes every path, so nothing could be shielded: the baseline
    // has to be left exactly as it was instead.
    assert_eq!(c.presence(b"a.txt"), Some("present"));
    assert_eq!(c.status_count(ScanStatus::Partial), 1);
}

#[test]
fn unstatable_base_refuses_to_promote_too() {
    let mut s = Tree::new();
    s.write("a.txt", "a");
    let mut c = Catalogue::new();
    c.ingest(&s, &config()).ok();

    // Even a base that merely vanished proves nothing about what was below it.
    s.base_missing = true;
    let r = c.ingest(&s, &config());
    assert_eq!(r.code, EXIT_ERROR, "got:\n{}", r.out);
    assert!(r.has("could not read the base itself"));
    assert_eq!(c.presence(b"a.txt"), Some("present"));
}

#[test]
fn killed_scan_leaves_the_baseline_untouched_and_resumes() {
    let mut s = Tree::new();
    for i in 0..80 {
        s.write(&format!("f{i:03}.txt"), &format!("body {i}"));
    }
    let mut c = Catalogue::new();
    let trouble = Trouble { die_after: Some(20), ..Trouble::default() };
    let killed = c.ingest_with(&s, &config(), trouble);
    assert!(killed.outcome.is_none());

    assert_eq!(c.status_count(ScanStatus::Running), 1, "the kill lands while a scan is running");
    // Nothing was promoted: no baseline, and no file rows at all.
    assert_eq!(c.files.len(), 0);
    assert_eq!(c.base.unwrap().baseline, None);
    // The staged work survived the kill, which is what makes the resume cheap.
    assert!(!c.staged.is_empty());

    let r = c.ingest(&s, &config());
    r.ok();
    assert!(r.has("(resumed)"), "expected a resume, got:\n{}", r.out);
    assert_eq!(r.num("files"), 80);
    assert!(r.num("hashed") < 80, "durably staged rows must not be rehashed, got:\n{}", r.out);
    assert_eq!(r.num("hashed"), 60);
    assert_eq!(c.count(Presence::Present), 80);
    assert_eq!(c.staged.len(), 0);
}

#[test]
fn rerun_reuses_every_hash_and_keeps_every_row() {
    let mut s = Tree::new();
    for i in 0..7 {
        s.write(&format!("d{}/f{i}.txt", i % 3), &format!("body {i}"));
    }
    let mut c = Catalogue::new();
    let first = c.ingest(&s, &config());
    let o1 = first.ok().outcome.as_ref().unwrap();
    assert_eq!((o1.hashed, o1.reused_baseline, o1.reused_stage, o1.staged), (7, 0, 0, 7));

    let again = c.ingest(&s, &config());
    let o2 = again.ok().outcome.as_ref().unwrap();
    assert_eq!((o2.hashed, o2.reused_baseline, o2.reused_stage), (0, 7, 0));
    assert_eq!((o2.staged, o2.unchanged, o2.present), (7, 7, 7));
    assert_eq!((o2.added, o2.updated, o2.deleted, o2.errors), (0, 0, 0, 0));
    assert_eq!(c.changes_of(o2.scan_id), 0);
    for i in 0..c.files.len() {
        assert_eq!(c.files.row(i).metadata_from_scan_id, o1.scan_id);
    }
}

#[test]
fn every_file_met_is_counted_and_accounted_for() {
    let mut s = Tree::new();
    s.write("a.txt", "a");
    s.write("sub/b.txt", "bb");
    s.write("sub/deep/c.txt", "ccc");
    let mut c = Catalogue::new();
    c.ingest(&s, &config()).ok();
    s.write("sub/b.txt", "longer");
    s.write("d.txt", "dddd");

    let r = c.ingest(&s, &config());
    let o = r.ok().outcome.as_ref().unwrap();
    assert_eq!((r.discovered_files, o.discovered_bytes), (4, 14));
    assert_eq!((o.reused_stage, o.reused_baseline, o.hashed), (0, 2, 2));
}

#[test]
fn resume_takes_what_was_staged_and_reads_the_rest() {
    let mut s = Tree::new();
    for i in 0..9 {
        s.write(&format!("f{i}.txt"), &format!("body {i}"));
    }
    let mut c = Catalogue::new();
    let trouble = Trouble { die_after: Some(4), ..Trouble::default() };
    c.ingest_with(&s, &config(), trouble);
    assert_eq!(c.staged.len(), 4);

    let r = c.ingest(&s, &config());
    let o = r.ok().outcome.as_ref().unwrap();
    assert!(o.resumed);
    assert_eq!((o.reused_stage, o.reused_baseline, o.hashed), (4, 0, 5));
    assert_eq!((o.staged, o.present, o.added), (9, 9, 9));
}

#[test]
fn resume_passes_over_what_cannot_be_read() {
    let mut s = Tree::new();
    for i in 0..5 {
        s.write(&format!("f{i}.txt"), &format!("body {i}"));
    }
    let mut c = Catalogue::new();
    let trouble = Trouble { die_after: Some(2), ..Trouble::default() };
    c.ingest_with(&s, &config(), trouble);
    assert_eq!(c.staged.len(), 2);

    s.sealed.push(b"f4.txt".to_vec());
    let r = c.ingest(&s, &config());
    let o = r.outcome.as_ref().unwrap();
    assert_eq!(r.discovered_files, 5);
    assert_eq!((o.reused_stage, o.reused_baseline, o.hashed), (2, 0, 2));
    assert_eq!((o.staged, o.present, o.errors), (4, 4, 1));
    assert_eq!(c.presence(b"f4.txt"), None);
}

#[test]
fn reading_again_lands_where_reading_always_would_have() {
    let mut s = Tree::new();
    s.write("d/known.txt", "k");
    s.write("d/gone.txt", "g");
    s.write("d/edited.txt", "e");
    let mut blind = Catalogue::new();
    let mut direct = Catalogue::new();
    for c in [&mut blind, &mut direct] {
        c.ingest(&s, &config()).ok();
    }
    s.remove("d/gone.txt");
    for c in [&mut blind, &mut direct] {
        c.ingest(&s, &config()).ok();
    }
    s.write("d/new.txt", "n");
    s.write("d/edited.txt", "edited");
    s.remove("d/known.txt");

    s.lock("d", true);
    blind.ingest(&s, &config());
    assert_eq!(blind.presence(b"d/new.txt"), None);
    assert_eq!(blind.presence(b"d/gone.txt"), Some("deleted"));
    s.lock("d", false);
    let b = blind.ingest(&s, &config());
    let d = direct.ingest(&s, &config());
    let (b, d) = (b.ok().outcome.as_ref().unwrap(), d.ok().outcome.as_ref().unwrap());
    assert_eq!((b.added, b.updated, b.deleted), (1, 1, 1));
    assert_eq!((d.added, d.updated, d.deleted), (1, 1, 1));
    assert_eq!(blind.files.len(), direct.files.len());
    for i in 0..direct.files.len() {
        let path = direct.files.path(i);
        assert_eq!(blind.presence(path), direct.presence(path));
        let (x, y) = (blind.files.get(path).unwrap(), direct.files.row(i));
        assert_eq!(x.facts.content_hash, y.facts.content_hash);
        assert_eq!(x.facts.mtime_ns, y.facts.mtime_ns);
    }
}

#[test]
fn resume_drops_what_vanished_in_between() {
    let mut s = Tree::new();
    s.write("a.txt", "a");
    s.write("b.txt", "b");
    let mut c = Catalogue::new();
    let trouble = Trouble { die_after: Some(1), ..Trouble::default() };
    c.ingest_with(&s, &config(), trouble);
    assert_eq!(c.staged.len(), 1);

    s.remove("a.txt");
    let r = c.ingest(&s, &config());
    r.ok();
    assert_eq!(r.num("files"), 1);
    assert_eq!(c.presence(b"a.txt"), None);
    assert_eq!(c.presence(b"b.txt"), Some("present"));
}

#[test]
fn cancelled_scan_keeps_staging_and_baseline() {
    let mut s = Tree::new();
    s.write("a.txt", "a");
    s.write("b.txt", "b");
    s.write("c.txt", "c");
    let mut c = Catalogue::new();
    let trouble = Trouble { cancel_after: Some(2), ..Trouble::default() };
    let r = c.ingest_with(&s, &config(), trouble);
    assert_eq!(r.code, EXIT_CANCELLED);
    assert!(r.has("(cancelled, not promoted)"), "got:\n{}", r.out);
    assert_eq!(c.files.len(), 0);
    assert_eq!(c.changes.len(), 0);
    assert_eq!(c.staged.len(), 2);

    let again = c.ingest(&s, &config());
    again.ok();
    assert_eq!(again.num("hashed"), 1);
    assert!(again.has("2 staged"), "got:\n{}", again.out);
}

#[test]
fn crossing_the_floor_stops_the_scan_and_keeps_the_staging() {
    let mut s = Tree::new();
    s.write("a.txt", "a");
    s.write("b.txt", "b");
    let mut c = Catalogue::new();
    let r = c.ingest_with(&s, &config(), Trouble { full: true, ..Trouble::default() });
    assert_eq!(r.code, EXIT_NO_SPACE);
    assert!(r.has("stopped: reached the 1.0 MiB free-space floor"), "got:\n{}", r.out);
    assert_eq!(c.status_count(ScanStatus::Partial), 1);
    assert_eq!(c.staged.len(), 1);
    assert_eq!(c.files.len(), 0);
}

#[test]
fn other_filesystems_are_left_out_however_reached() {
    let mut s = Tree::new();
    s.write("here.txt", "h");
    s.write("mnt/there.txt", "t");
    s.move_device("mnt", 9);
    s.move_device("mnt/there.txt", 9);
    s.link("via.txt", "mnt/there.txt");
    let follow = Config { follow_symlinks: true, ..config() };
    let mut c = Catalogue::new();
    let r = c.ingest(&s, &follow);
    r.ok();
    assert_eq!(r.num("files"), 1);
    assert!(r.has("2 mount"), "got:\n{}", r.out);

    let cross = Config { skip_mount_boundaries: false, ..config() };
    let mut c2 = Catalogue::new();
    let r2 = c2.ingest(&s, &cross);
    r2.ok();
    assert_eq!(r2.num("files"), 2);
}

#[test]
fn devices_are_not_files() {
    let mut s = Tree::new();
    s.write("a.txt", "a");
    s.put(b"pipe", Node::Fifo);
    let mut c = Catalogue::new();
    let r = c.ingest(&s, &config());
    r.ok();
    assert_eq!(r.num("files"), 1);
    assert_eq!(r.num("errors"), 0);
}

#[test]
fn non_utf8_names_round_trip_as_bytes() {
    let mut s = Tree::new();
    s.write("plain.txt", "p");
    let raw: &[u8] = b"od\xffd\xfename.txt";
    let mut expected = b"dir/".to_vec();
    expected.extend_from_slice(raw);
    s.write_raw(&expected, "weird");
    let mut c = Catalogue::new();

    let r = c.ingest(&s, &config());
    r.ok();
    assert_eq!(r.num("files"), 2);
    assert_eq!(
        c.presence(&expected),
        Some("present"),
        "the exact bytes must be the stored identity"
    );
    // The lossy helper is a convenience beside it, never the identity.
    let lossy = (0..c.files.len())
        .filter(|i| c.files.row(*i).facts.name.ends_with("name.txt"))
        .count();
    assert_eq!(lossy, 1);

    // And it must still compare correctly on a rerun rather than churning.
    let r2 = c.ingest(&s, &config());
    r2.ok();
    assert_eq!(r2.num("unchanged"), 2);
    assert_eq!(r2.num("added"), 0);
}

#[test]
fn a_foreign_database_is_refused() {
    // Someone else's file, sitting where ours would go: a table, and no mark.
    let theirs = Contents { has_metadata: false, application_id: None, objects: 1 };
    let e = discover("/work/metainjester.sqlite3", Some(&theirs), "/db", None).err().unwrap();
    assert_eq!(e.code, EXIT_CONFIG, "got:\n{}", e.message);
    assert!(
        e.message.contains("not a metainjester database") || e.message.contains("not ours"),
        "got:\n{}",
        e.message
    );
}

#[test]
fn status_is_read_only_and_reports_no_database() {
    assert!(existing_path("/work/metainjester.sqlite3", false, "/db", false).is_none());
    let line = no_database();
    assert!(line.contains("none yet"), "got:\n{line}");
}

#[test]
fn status_reports_the_baseline_and_stays_read_only() {
    let mut s = Tree::new();
    s.write("a.txt", "a");
    let mut c = Catalogue::new();
    c.ingest(&s, &config()).ok();
    let ours = Contents {
        has_metadata: true,
        application_id: Some("metainjester".to_string()),
        objects: 12,
    };
    assert!(open_readonly("/db", &ours).is_ok());

    let base = c.base.unwrap();
    let log = c.log();
    let lines = status_base(
        &BaseStatus {
            base_path: "/base".to_string(),
            policy: base.policy,
            scan_id: base.baseline,
            finished: Some("3s".to_string()),
            present: Some(c.count(Presence::Present) as i64),
            resumable: log.resumable(),
            started: String::new(),
        },
        &config(),
    );
    assert!(lines.iter().any(|l| l.contains("baseline")), "got:\n{}", lines.join("\n"));
    assert_eq!(
        lines,
        vec![
            "base    /base".to_string(),
            "  baseline  scan 1, 3s ago, 1 file(s) present".to_string(),
            "  resumable none".to_string(),
        ]
    );
    assert_eq!(c.scans.len(), 1, "`status` started a scan");
}

#[test]
fn policies_of_the_tests_are_what_they_say() {
    let p = config().policy();
    assert_eq!(
        p,
        Policy { skip_hidden: true, skip_mount_boundaries: true, follow_symlinks: false }
    );
}
