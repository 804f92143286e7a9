//! The rules of the catalogue on concrete rows.

use metainjester::config::{
    candidate_files, expand_tilde, home_dir, join_path, merge, toml_reason, AutoOr, Config, Policy,
    RawFile, RawHistory, RawScan, RawStorage, Source,
};
use metainjester::db::{
    acquire_writer_lock, check_schema, discover, ensure_schema, existing_path, foreign_database,
    open_readonly, ownership, proc_entry, release_writer_lock, Contents, Ownership,
};
use metainjester::error::{EXIT_BUSY, EXIT_CONFIG, EXIT_NO_SPACE, EXIT_POLICY, EXIT_USAGE};
use metainjester::hash::ContentHasher;
use metainjester::history::{
    expired, plan_prune, prune_all, prune_base, BaseHistory, BasePrune, ChangeTally, FileTally,
    ScanLog, ScanRow, ScanStatus, Sweep,
};
use metainjester::paths::{place, PathTable, Place};
use metainjester::pipeline::{Worker, WorkerAction, WorkerEvent, Writer, WriterAction, WriterEvent};
use metainjester::promote::{promote, shielded};
use metainjester::report::{
    parse, prune, prune_policy, report, status, status_settings, BaseStatus, Candidate, Command,
    DatabaseStatus, USAGE,
};
use metainjester::rows::{
    ChangeKind, ErrorRow, Facts, FileRow, Presence, StageEntry, F_ADDED, F_HASH, F_MIME, F_MTIME,
    F_PRESENCE, F_SIZE,
};
use metainjester::scan::{
    base_unreadable, drop_vanished_staged, exit_code, finish_unpromoted, new_outcome, now_ns,
    open_scan, preflight, register_base, run_retention, staged_totals, stamp,
    unreadable_path_count, walk_totals, Base, NewScan, Opening, Outcome, Space,
};
use metainjester::stage::{
    after_batch, flush, free_bytes, free_space_floor, hash, stage, worker_died, AfterBatch,
    BatchWrite, HashAttempt, Progress, ProgressLine, StagedRow, Staging, WriteMsg,
};
use metainjester::walk::{
    unstatable_base, Counters, EntryKind, FailureKind, IoFailure, Meta, Observed, WalkMsg,
};

fn config() -> Config {
    Config {
        workers: 2,
        writer_batch_rows: 3,
        queue_items: 12,
        throttle_ms_after_batch: 7,
        hash_policy: "reuse_when_metadata_matches".to_string(),
        skip_hidden: true,
        skip_mount_boundaries: true,
        follow_symlinks: false,
        database_path: "/db".to_string(),
        minimum_free_space_mib: 500,
        keep_scans: 2,
    }
}

fn facts(size: i64, mtime: i64, hash: &[u8]) -> Facts {
    Facts {
        parent: None,
        name: "a.txt".to_string(),
        extension: Some("txt".to_string()),
        size_bytes: size,
        mtime_ns: mtime,
        created_ns: None,
        mime_type: Some("text/plain".to_string()),
        mime_source: "extension".to_string(),
        content_hash: hash.to_vec(),
        hash_status: "complete".to_string(),
    }
}

fn row(presence: Presence, size: i64) -> FileRow {
    FileRow {
        facts: facts(size, 1, b"h"),
        presence,
        metadata_from_scan_id: 1,
        deleted_in_scan_id: None,
    }
}

fn problem(rel: Option<&[u8]>, code: &str) -> ErrorRow {
    ErrorRow {
        rel: rel.map(|r| r.to_vec()),
        stage: "walk".to_string(),
        code: code.to_string(),
        message: "m".to_string(),
    }
}

fn scan(scan_id: i64, status: ScanStatus) -> ScanRow {
    ScanRow { scan_id, status, started_at_ns: 100 + scan_id }
}

fn log(rows: &[ScanRow]) -> ScanLog {
    let mut log = ScanLog::new();
    for r in rows {
        assert!(log.push(*r));
    }
    log
}

fn space() -> Space {
    Space { free_before: 9, required: 8, source: "s".to_string() }
}

// ---------------------------------------------------------------- config --

fn nothing() -> RawFile {
    RawFile { scan: None, storage: None, history: None }
}

fn scan_section() -> RawScan {
    RawScan {
        workers: None,
        writer_batch_rows: None,
        throttle_ms_after_batch: None,
        hash_policy: None,
        skip_hidden: None,
        skip_mount_boundaries: None,
        follow_symlinks: None,
    }
}

#[test]
fn defaults_stand_where_nothing_is_set() {
    let c = Config::load(vec![Source::Absent, Source::Absent], 16, Some("/home/u")).ok().unwrap();
    assert_eq!(c.workers, 4);
    assert_eq!(c.writer_batch_rows, 1000);
    assert_eq!(c.queue_items, 4000);
    assert_eq!(c.throttle_ms_after_batch, 0);
    assert_eq!(c.hash_policy, "reuse_when_metadata_matches");
    assert!(c.skip_hidden && c.skip_mount_boundaries && !c.follow_symlinks);
    assert_eq!(c.database_path, "/home/u/.local/share/metainjester/metainjester.sqlite3");
    assert_eq!(c.minimum_free_space_mib, 500);
    assert_eq!(c.keep_scans, 0);
    for (cpus, workers) in [(0, 1), (1, 1), (2, 1), (4, 2), (7, 3), (8, 4), (64, 4)] {
        let c = Config::resolve(nothing(), cpus, None).ok().unwrap();
        assert_eq!(c.workers, workers, "{cpus} processors");
    }
}

#[test]
fn the_higher_file_wins_key_by_key() {
    let system = RawFile {
        scan: Some(RawScan {
            workers: Some(AutoOr::Num(3)),
            skip_hidden: Some(false),
            ..scan_section()
        }),
        storage: Some(RawStorage {
            database_path: Some("~/x.db".to_string()),
            minimum_free_space_mib: Some(7),
        }),
        history: None,
    };
    let user = RawFile {
        scan: Some(RawScan { workers: Some(AutoOr::Num(9)), ..scan_section() }),
        storage: Some(RawStorage { database_path: None, minimum_free_space_mib: Some(8) }),
        history: Some(RawHistory { keep_scans: Some(5) }),
    };
    let c = Config::load(vec![Source::Parsed(system), Source::Parsed(user)], 1, Some("/h"))
        .ok()
        .unwrap();
    assert_eq!(c.workers, 9);
    assert!(!c.skip_hidden, "a key the user's file omits keeps the value below it");
    assert_eq!(c.database_path, "/h/x.db");
    assert_eq!(c.minimum_free_space_mib, 8);
    assert_eq!(c.keep_scans, 5);
}

#[test]
fn merging_nothing_changes_nothing() {
    let mut file = nothing();
    merge(
        &mut file,
        RawFile {
            scan: Some(RawScan { follow_symlinks: Some(true), ..scan_section() }),
            ..nothing()
        },
    );
    merge(&mut file, nothing());
    assert_eq!(file.scan.unwrap().follow_symlinks, Some(true));
    assert!(file.storage.is_none() && file.history.is_none());
}

#[test]
fn merging_order_of_three_files_makes_no_difference() {
    let file = |workers: Option<u64>, hidden: Option<bool>, keep: Option<u64>| RawFile {
        scan: Some(RawScan {
            workers: workers.map(AutoOr::Num),
            skip_hidden: hidden,
            ..scan_section()
        }),
        storage: None,
        history: keep.map(|n| RawHistory { keep_scans: Some(n) }),
    };
    let a = || file(Some(1), Some(true), None);
    let b = || file(None, Some(false), Some(4));
    let c = || file(Some(3), None, None);
    let mut left = a();
    merge(&mut left, b());
    merge(&mut left, c());
    let mut upper = b();
    merge(&mut upper, c());
    let mut right = a();
    merge(&mut right, upper);
    let read = |f: RawFile| {
        let c = Config::resolve(f, 8, None).ok().unwrap();
        (c.workers, c.skip_hidden, c.keep_scans)
    };
    assert_eq!(read(left), (3, false, 4));
    assert_eq!(read(right), (3, false, 4));
}

#[test]
fn bad_settings_are_refused() {
    let with = |scan: RawScan| RawFile { scan: Some(scan), ..nothing() };
    let refused = |raw: RawFile| {
        let e = Config::resolve(raw, 4, None).err().unwrap();
        assert_eq!(e.code, EXIT_CONFIG);
        e.message
    };
    assert_eq!(
        refused(with(RawScan { workers: Some(AutoOr::Num(0)), ..scan_section() })),
        "scan.workers: must be greater than 0"
    );
    assert_eq!(
        refused(with(RawScan {
            writer_batch_rows: Some(AutoOr::Word("many".to_string())),
            ..scan_section()
        })),
        "scan.writer_batch_rows: expected \"auto\" or a positive integer, got \"many\""
    );
    assert_eq!(
        refused(with(RawScan {
            hash_policy: Some("never".to_string()),
            ..scan_section()
        })),
        "scan.hash_policy: unknown policy \"never\""
    );
    let auto = with(RawScan {
        writer_batch_rows: Some(AutoOr::Word("auto".to_string())),
        ..scan_section()
    });
    assert_eq!(Config::resolve(auto, 4, None).ok().unwrap().writer_batch_rows, 1000);
}

#[test]
fn a_file_that_cannot_be_used_stops_the_start() {
    let unreadable = Source::Unreadable {
        path: "/etc/c".to_string(),
        reason: "Permission denied (os error 13)".to_string(),
    };
    let e = Config::load(vec![unreadable], 4, None).err().unwrap();
    assert_eq!(e.code, EXIT_CONFIG);
    assert_eq!(e.message, "cannot read /etc/c: Permission denied (os error 13)");

    let error = "TOML parse error at line 2, column 1\n  |\n2 | wrokers = 1\n  | ^^^^^^^\n\
                 unknown field `wrokers`\n";
    assert_eq!(
        toml_reason(error),
        "TOML parse error at line 2, column 1: unknown field `wrokers`"
    );
    let malformed = Source::Malformed { path: "/u".to_string(), error: error.to_string() };
    let e = Config::load(vec![Source::Absent, malformed], 4, None).err().unwrap();
    assert_eq!(
        e.message,
        "/u: TOML parse error at line 2, column 1: unknown field `wrokers`"
    );
}

#[test]
fn reasons_survive_odd_shapes() {
    assert_eq!(toml_reason(""), "");
    assert_eq!(toml_reason("only"), "only");
    assert_eq!(toml_reason("  same \n same"), "same");
    assert_eq!(toml_reason("first\n  | art\n  ^^^"), "first");
}

#[test]
fn real_parse_errors_keep_their_reason() {
    let e = toml::from_str::<toml::Table>("a = \n").err().unwrap().to_string();
    let reason = toml_reason(&e);
    assert!(reason.starts_with("TOML parse error at line 1"), "{reason}");
    assert!(reason.contains(": "), "{reason}");
}

#[test]
fn tildes_are_expanded_at_the_front_only() {
    assert_eq!(expand_tilde("~", Some("/h")), "/h");
    assert_eq!(expand_tilde("~/a", Some("/h")), "/h/a");
    assert_eq!(expand_tilde("~/a", None), "~/a");
    assert_eq!(expand_tilde("~user/a", Some("/h")), "~user/a");
    assert_eq!(expand_tilde("/x/~", Some("/h")), "/x/~");
    assert_eq!(join_path("/h", "a"), "/h/a");
    assert_eq!(join_path("/h/", "a"), "/h/a");
    assert_eq!(join_path("/h", "/a"), "/a");
    assert_eq!(home_dir(Some(String::new())), None);
    assert_eq!(home_dir(None), None);
    assert_eq!(home_dir(Some("/h".to_string())), Some("/h".to_string()));
}

#[test]
fn the_system_file_comes_before_the_users() {
    assert_eq!(
        candidate_files(Some("/h")),
        vec![
            "/etc/xdg/metainjester/metainjester.toml".to_string(),
            "/h/.config/metainjester/metainjester.toml".to_string(),
        ]
    );
    assert_eq!(candidate_files(None).len(), 1);
}

// -------------------------------------------------------------- database --

fn contents(id: Option<&str>, objects: i64) -> Contents {
    Contents {
        has_metadata: id.is_some(),
        application_id: id.map(|s| s.to_string()),
        objects,
    }
}

#[test]
fn ownership_goes_by_the_mark() {
    assert!(matches!(ownership(&contents(Some("metainjester"), 9)), Ownership::Ours));
    assert!(matches!(ownership(&contents(None, 0)), Ownership::Empty));
    match ownership(&contents(Some("other"), 9)) {
        Ownership::Foreign(id) => assert_eq!(id, "other"),
        _ => panic!("not ours"),
    }
    // A mark without its table is no mark.
    let loose = Contents {
        has_metadata: false,
        application_id: Some("metainjester".to_string()),
        objects: 0,
    };
    assert!(matches!(ownership(&loose), Ownership::Empty));
}

#[test]
fn discovery_prefers_the_working_directory() {
    let ours = contents(Some("metainjester"), 9);
    let blank = contents(None, 0);
    let o = discover("/w/d", Some(&ours), "/c/d", None).ok().unwrap();
    assert_eq!((o.path.as_str(), o.initialise), ("/w/d", false));
    let o = discover("/w/d", Some(&blank), "/c/d", Some(&ours)).ok().unwrap();
    assert_eq!((o.path.as_str(), o.initialise), ("/w/d", true));
    let o = discover("/w/d", None, "/c/d", None).ok().unwrap();
    assert_eq!((o.path.as_str(), o.initialise), ("/c/d", true));
    let o = discover("/w/d", None, "/c/d", Some(&ours)).ok().unwrap();
    assert_eq!((o.path.as_str(), o.initialise), ("/c/d", false));
    let o = discover("/w/d", None, "/c/d", Some(&blank)).ok().unwrap();
    assert_eq!((o.path.as_str(), o.initialise), ("/c/d", true));
}

#[test]
fn another_applications_mark_is_quoted() {
    let theirs = contents(Some("so\"me\n"), 9);
    let e = discover("/w/d", Some(&theirs), "/c/d", None).err().unwrap();
    assert_eq!(e.code, EXIT_CONFIG);
    assert_eq!(
        e.message,
        "/w/d is not a metainjester database (application_id = \"so\\\"me\\n\")"
    );
    assert_eq!(foreign_database("/x", "\"y\"").message.contains("\"y\""), true);
    let e = discover("/w/d", None, "/c/d", Some(&theirs)).err().unwrap();
    assert_eq!(
        e.message,
        "/c/d exists but is not a metainjester database; refusing to touch it"
    );
}

#[test]
fn read_only_commands_create_nothing() {
    assert_eq!(existing_path("/w", true, "/c", true), Some("/w".to_string()));
    assert_eq!(existing_path("/w", false, "/c", true), Some("/c".to_string()));
    assert_eq!(existing_path("/w", false, "/c", false), None);
    let e = open_readonly("/w", &contents(None, 0)).err().unwrap();
    assert_eq!(e.message, "/w is empty — `ingest <base-path>` initialises it");
    let e = open_readonly("/w", &contents(None, 3)).err().unwrap();
    assert!(e.message.contains("refusing to touch it"));
    let e = open_readonly("/w", &contents(Some("x"), 3)).err().unwrap();
    assert!(e.message.contains("refusing to touch it"));
}

#[test]
fn another_schema_is_refused() {
    assert_eq!(ensure_schema(None, "/d").ok(), Some(true));
    assert_eq!(ensure_schema(Some("2"), "/d").ok(), Some(false));
    assert!(check_schema(None, "/d").is_ok());
    assert!(check_schema(Some("2"), "/d").is_ok());
    let e = ensure_schema(Some("1"), "/d").err().unwrap();
    assert_eq!(e.code, EXIT_CONFIG);
    assert_eq!(
        e.message,
        "database schema_version is 1, this build needs 2.\n  this POC has no migrations yet — \
         delete the database and ingest again:\n  rm /d*"
    );
    assert_eq!(check_schema(Some("1"), "/d").err().unwrap().message, e.message);
}

#[test]
fn one_process_writes_at_a_time() {
    let mut lock = None;
    assert!(acquire_writer_lock(&mut lock, 10, false).is_ok());
    assert_eq!(lock, Some(10));
    let e = acquire_writer_lock(&mut lock, 11, true).err().unwrap();
    assert_eq!(e.code, EXIT_BUSY);
    assert_eq!(e.message, "database is busy: another metainjester (pid 10) is writing");
    assert_eq!(lock, Some(10));
    // The holder may take it again, and a dead holder's lock is reclaimed.
    assert!(acquire_writer_lock(&mut lock, 10, true).is_ok());
    assert!(acquire_writer_lock(&mut lock, 11, false).is_ok());
    assert_eq!(lock, Some(11));
    release_writer_lock(&mut lock, 10);
    assert_eq!(lock, Some(11));
    release_writer_lock(&mut lock, 11);
    assert_eq!(lock, None);
    assert_eq!(proc_entry(42), "/proc/42");
}

// ---------------------------------------------------------------- tables --

#[test]
fn tables_keep_byte_order() {
    let mut t: PathTable<u32> = PathTable::new();
    assert!(t.push(b"a".to_vec(), 1));
    assert!(t.push(b"a/b".to_vec(), 2));
    assert!(!t.push(b"a/b".to_vec(), 3), "a path stands once");
    assert!(!t.push(b"Z".to_vec(), 3), "out of order");
    t.insert(b"Z".to_vec(), 4);
    t.insert(b"a".to_vec(), 5);
    assert_eq!(t.len(), 3);
    assert_eq!(t.path(0), b"Z");
    assert_eq!(*t.row(1), 5);
    assert_eq!(t.get(b"a/b"), Some(&2));
    assert_eq!(t.get(b"missing"), None);
    assert!(matches!(place(b"a", b"a/b"), Place::Before));
    assert!(matches!(place(b"\xff", b"a"), Place::After));
    assert!(matches!(place(b"", b""), Place::Same));

    let mut keep: PathTable<()> = PathTable::new();
    keep.insert(b"a".to_vec(), ());
    keep.insert(b"other".to_vec(), ());
    let n = t.narrow(&keep);
    assert_eq!(n.kept.len(), 1);
    assert_eq!(n.kept.get(b"a"), Some(&5));
    assert_eq!(n.dropped, vec![b"Z".to_vec(), b"a/b".to_vec()]);
}

// -------------------------------------------------------------- promotion --

fn staged_table(rows: &[(&[u8], Facts, bool)]) -> PathTable<StageEntry> {
    let mut t = PathTable::new();
    for (p, f, complete) in rows {
        t.insert(p.to_vec(), StageEntry { facts: f.copy(), complete: *complete });
    }
    t
}

#[test]
fn promotion_settles_every_path() {
    let mut files: PathTable<FileRow> = PathTable::new();
    files.insert(b"back".to_vec(), row(Presence::Deleted, 1));
    files.insert(b"gone".to_vec(), row(Presence::Present, 1));
    files.insert(b"locked/x".to_vec(), row(Presence::Present, 1));
    files.insert(b"moved".to_vec(), row(Presence::Present, 1));
    files.insert(b"same".to_vec(), row(Presence::Present, 1));
    files.insert(b"seen again".to_vec(), row(Presence::Unreadable, 1));
    files.insert(b"still gone".to_vec(), row(Presence::Deleted, 1));
    let staged = staged_table(&[
        (b"back", facts(1, 1, b"h"), true),
        (b"moved", facts(2, 2, b"i"), true),
        (b"new", facts(3, 3, b"j"), true),
        (b"same", facts(1, 1, b"h"), true),
        (b"seen again", facts(1, 1, b"h"), true),
        (b"unfinished", facts(9, 9, b"z"), false),
    ]);
    let errors = vec![problem(Some(b"locked"), "permission_denied")];
    let p = promote(&files, &staged, &errors, 7);

    let added: Vec<&[u8]> = p.added.iter().map(|c| c.path.as_slice()).collect();
    assert_eq!(added, vec![b"back".as_slice(), b"new".as_slice()]);
    assert!(p.added.iter().all(|c| c.field_mask == F_ADDED && c.kind == ChangeKind::Added));
    assert!(p.added[0].old.is_some() && p.added[1].old.is_none());
    assert_eq!(p.updated.len(), 1);
    assert_eq!(p.updated[0].field_mask, F_SIZE + F_MTIME + F_HASH);
    assert_eq!(p.deleted.len(), 1);
    assert_eq!(p.deleted[0].path, b"gone".to_vec());
    assert_eq!(p.deleted[0].field_mask, F_PRESENCE);
    assert!(p.deleted[0].new.is_none());
    assert_eq!(p.unreadable, 1);
    assert_eq!(p.present, 5);
    assert_eq!(p.unchanged, 2);

    for w in p.writes {
        files.insert(w.path, w.row);
    }
    let at = |p: &[u8]| files.get(p).map(|f| (f.presence, f.metadata_from_scan_id));
    assert_eq!(at(b"same"), Some((Presence::Present, 1)));
    assert_eq!(at(b"seen again"), Some((Presence::Present, 7)));
    assert_eq!(at(b"locked/x"), Some((Presence::Unreadable, 1)));
    assert_eq!(at(b"gone"), Some((Presence::Deleted, 1)));
    assert_eq!(files.get(b"gone").unwrap().deleted_in_scan_id, Some(7));
    assert_eq!(files.get(b"still gone").unwrap().deleted_in_scan_id, None);
    assert_eq!(at(b"unfinished"), None);

    // The same evidence again changes nothing.
    let again = promote(&files, &staged, &errors, 8);
    assert_eq!(again.added.len() + again.updated.len() + again.deleted.len(), 0);
    assert_eq!(again.unchanged, 5);
}

#[test]
fn a_changed_type_alone_is_an_update() {
    let mut files: PathTable<FileRow> = PathTable::new();
    files.insert(b"a".to_vec(), row(Presence::Present, 1));
    let mut now = facts(1, 1, b"h");
    now.mime_type = None;
    let p = promote(&files, &staged_table(&[(b"a", now, true)]), &Vec::new(), 2);
    assert_eq!(p.updated[0].field_mask, F_MIME);
}

#[test]
fn shields_cover_whole_segments() {
    let errors = vec![
        problem(Some(b"locked"), "permission_denied"),
        problem(Some(b"gone"), "not_found"),
        problem(Some(b""), "io_error"),
        problem(None, "io_error"),
    ];
    assert!(shielded(b"locked", &errors));
    assert!(shielded(b"locked/deep/x", &errors));
    assert!(!shielded(b"lockedtoo", &errors));
    assert!(!shielded(b"lock", &errors));
    assert!(!shielded(b"gone/x", &errors));
    assert!(!shielded(b"elsewhere", &errors));
}

// --------------------------------------------------------------- staging --

fn item(size: i64, mtime: i64) -> Observed {
    Observed {
        path: b"/base/a.txt".to_vec(),
        rel: b"a.txt".to_vec(),
        size_bytes: size,
        mtime_ns: mtime,
        created_ns: Some(4),
    }
}

#[test]
fn a_hash_is_reused_for_an_exact_match_only() {
    let mut counts = Counters::default();
    let prior = row(Presence::Present, 1);
    match stage(item(1, 1), None, Some(&prior), &mut counts) {
        Staging::Send(WriteMsg::Row(r)) => {
            assert_eq!(r.content_hash, b"h".to_vec());
            assert_eq!(r.hash_status, "complete");
            assert_eq!(r.created_ns, Some(4));
        }
        other => panic!("{other:?}"),
    }
    assert_eq!(counts.reused_baseline, 1);
    for (size, mtime) in [(2, 1), (1, 2)] {
        let d = stage(item(size, mtime), None, Some(&prior), &mut counts);
        assert!(matches!(d, Staging::Hash(_)));
    }
    let absent = row(Presence::Unreadable, 1);
    assert!(matches!(stage(item(1, 1), None, Some(&absent), &mut counts), Staging::Hash(_)));
    let mut doubtful = row(Presence::Present, 1);
    doubtful.facts.hash_status = "changed_during_hash".to_string();
    assert!(matches!(stage(item(1, 1), None, Some(&doubtful), &mut counts), Staging::Hash(_)));

    let entry = StageEntry { facts: facts(1, 1, b"s"), complete: true };
    match stage(item(1, 1), Some(&entry), Some(&prior), &mut counts) {
        Staging::Send(WriteMsg::Reused(rel)) => assert_eq!(rel, b"a.txt".to_vec()),
        other => panic!("{other:?}"),
    }
    let partial = StageEntry { facts: facts(1, 1, b"s"), complete: false };
    assert!(matches!(stage(item(1, 1), Some(&partial), None, &mut counts), Staging::Hash(_)));
    assert_eq!(counts.reused_stage, 1);
    assert_eq!(counts.reused_baseline, 1);
}

fn meta(len: u64, modified: Option<u128>) -> Meta {
    Meta { kind: EntryKind::File, dev: 1, ino: 1, len, modified, created: None }
}

fn denied() -> IoFailure {
    IoFailure {
        raw_os_error: Some(13),
        kind: FailureKind::PermissionDenied,
        message: "denied".to_string(),
    }
}

fn taken_in(bytes: &[u8]) -> ContentHasher {
    let mut h = ContentHasher::new();
    h.update(bytes);
    h
}

#[test]
fn a_file_that_changed_while_read_is_marked() {
    let mut counts = Counters::default();
    let read = |after| HashAttempt::Read { contents: taken_in(b"hello"), after };
    let fine = hash(item(5, 9), read(Some(meta(5, Some(9)))), &mut counts);
    assert!(matches!(&fine[..], [WriteMsg::Row(r)] if r.hash_status == "complete"));
    let WriteMsg::Row(row) = &fine[0] else { unreachable!() };
    let hex: String = row.content_hash.iter().map(|b| format!("{b:02x}")).collect();
    assert_eq!(hex, "2cf24dba5fb0a30e26e83b2ac5b9e29e1b161e5c1fa7425e73043362938b9824");
    // What cannot be examined afterwards is given the benefit of the doubt.
    let unknown = hash(item(5, 9), read(None), &mut counts);
    assert_eq!(unknown.len(), 1);
    for after in [meta(6, Some(9)), meta(5, Some(10)), meta(5, None)] {
        let stale = hash(item(5, 9), read(Some(after)), &mut counts);
        match &stale[..] {
            [WriteMsg::Error { rel, stage, code, message }, WriteMsg::Row(r)] => {
                assert_eq!(rel.as_deref(), Some(b"a.txt".as_slice()));
                assert_eq!((*stage, *code), ("hash", "changed_during_hash"));
                assert_eq!(message, "file changed while being hashed");
                assert_eq!(r.hash_status, "changed_during_hash");
            }
            other => panic!("{other:?}"),
        }
    }
    assert_eq!(counts.hashed, 5);
    assert_eq!(counts.hashed_bytes, 25);
    assert_eq!(counts.changed_during_hash, 3);
    let failed = hash(item(5, 9), HashAttempt::Failed(denied()), &mut counts);
    assert!(matches!(
        &failed[..],
        [WriteMsg::Error { stage: "hash", code: "permission_denied", .. }]
    ));
    assert_eq!(counts.hashed, 5);
}

#[test]
fn a_batch_becomes_durable_effects() {
    let long = "x".repeat(400);
    let f = flush(vec![
        WriteMsg::Row(StagedRow {
            rel: b"d/pic.png".to_vec(),
            size_bytes: 1,
            mtime_ns: 2,
            created_ns: None,
            content_hash: vec![3],
            hash_status: "complete",
        }),
        WriteMsg::Reused(b"kept".to_vec()),
        WriteMsg::Error { rel: None, stage: "walk", code: "io_error", message: long },
    ]);
    assert_eq!((f.errors, f.files), (1, 2));
    match &f.writes[..] {
        [BatchWrite::Stage { path, entry }, BatchWrite::Walked(a), BatchWrite::Walked(b), BatchWrite::Problem(e)] =>
        {
            assert_eq!(path, b"d/pic.png");
            assert!(entry.complete);
            assert_eq!(entry.facts.parent.as_deref(), Some("d"));
            assert_eq!(entry.facts.name, "pic.png");
            assert_eq!(entry.facts.mime_type.as_deref(), Some("image/png"));
            assert_eq!(entry.facts.mime_source, "extension");
            assert_eq!(a, b"d/pic.png");
            assert_eq!(b, b"kept");
            assert_eq!(e.message.chars().count(), 301);
        }
        other => panic!("{other:?}"),
    }
}

#[test]
fn a_worker_that_cannot_start_says_so() {
    match worker_died("no shared memory") {
        WriteMsg::Error { rel, stage, code, message } => {
            assert_eq!(rel, None);
            assert_eq!((stage, code), ("worker", "io_error"));
            assert_eq!(message, "hash worker could not start: no shared memory");
        }
        other => panic!("{other:?}"),
    }
}

#[test]
fn the_floor_is_in_mebibytes_and_saturates() {
    assert_eq!(free_space_floor(&config()), 500 * 1024 * 1024);
    let huge = Config { minimum_free_space_mib: u64::MAX, ..config() };
    assert_eq!(free_space_floor(&huge), u64::MAX);
    assert_eq!(free_bytes(10, 4096), 40960);
    assert_eq!(free_bytes(u64::MAX, 2), u64::MAX);
    assert_eq!(after_batch(500 * 1024 * 1024, &config()), AfterBatch::Continue { pause_ms: 7 });
    assert_eq!(after_batch(500 * 1024 * 1024 - 1, &config()), AfterBatch::LowSpace);
}

#[test]
fn progress_is_shown_on_a_terminal_every_quarter_second() {
    let mut piped = Progress::new(10, false);
    assert_eq!(piped.tick(1, 1, false, 1000), None);
    let mut p = Progress::new(10, true);
    assert_eq!(p.tick(1, 1, false, 249), None);
    assert_eq!(p.tick(1, 1, true, 250), None);
    assert!(!p.active);
    assert_eq!(
        p.tick(5, 10, false, 250),
        Some(ProgressLine { discovered: 5, processed: 10, estimate: Some(10) })
    );
    assert!(p.active);
    assert_eq!(
        p.tick(5, 11, false, 250),
        Some(ProgressLine { discovered: 5, processed: 11, estimate: None })
    );
    let mut first = Progress::new(0, true);
    assert_eq!(first.tick(5, 0, false, 250).unwrap().estimate, None);
}

#[test]
fn the_writer_fills_batches_and_measures_after_each() {
    let c = config();
    let mut w = Writer::new();
    let msg = |i: u8| WriterEvent::Message(WriteMsg::Reused(vec![i]));
    assert!(matches!(w.run(WriterEvent::Start, &c), WriterAction::Receive));
    assert!(matches!(w.run(msg(1), &c), WriterAction::TryReceive));
    assert!(matches!(w.run(msg(2), &c), WriterAction::TryReceive));
    match w.run(msg(3), &c) {
        WriterAction::Write(f) => assert_eq!((f.writes.len(), f.files), (3, 3)),
        other => panic!("{other:?}"),
    }
    assert!(matches!(w.run(WriterEvent::Written, &c), WriterAction::Measure));
    assert!(matches!(w.run(WriterEvent::Free(u64::MAX), &c), WriterAction::Pause(7)));
    assert!(matches!(w.run(WriterEvent::Resumed, &c), WriterAction::Receive));
    let bad = WriteMsg::Error {
        rel: None,
        stage: "walk",
        code: "io_error",
        message: String::new(),
    };
    assert!(matches!(w.run(WriterEvent::Message(bad), &c), WriterAction::TryReceive));
    assert!(matches!(w.run(WriterEvent::Empty, &c), WriterAction::Write(_)));
    assert_eq!((w.errors(), w.processed()), (1, 3));
    assert!(matches!(w.run(WriterEvent::Written, &c), WriterAction::Measure));
    assert!(matches!(
        w.run(WriterEvent::Free(0), &c),
        WriterAction::Finish { low_space: true }
    ));

    // A queue that closes on a batch begun leaves nothing unwritten.
    let mut last = Writer::new();
    last.run(WriterEvent::Start, &c);
    assert!(matches!(last.run(msg(4), &c), WriterAction::TryReceive));
    match last.run(WriterEvent::Closed, &c) {
        WriterAction::Write(f) => assert_eq!((f.writes.len(), f.files), (1, 1)),
        other => panic!("{other:?}"),
    }
    assert!(matches!(last.run(WriterEvent::Written, &c), WriterAction::Measure));
    assert!(matches!(last.run(WriterEvent::Free(u64::MAX), &c), WriterAction::Pause(7)));
    assert!(matches!(last.run(WriterEvent::Resumed, &c), WriterAction::Receive));
    assert!(matches!(
        last.run(WriterEvent::Closed, &c),
        WriterAction::Finish { low_space: false }
    ));

    let mut idle = Writer::new();
    idle.run(WriterEvent::Start, &c);
    assert!(matches!(
        idle.run(WriterEvent::Closed, &c),
        WriterAction::Finish { low_space: false }
    ));
}

#[test]
fn a_worker_stops_when_nobody_listens() {
    let mut w = Worker::new();
    assert!(matches!(w.run(WorkerEvent::Start, false), WorkerAction::Receive));
    let base = unstatable_base(&denied());
    match w.run(WorkerEvent::Message(base), false) {
        WorkerAction::Send(WriteMsg::Error { rel, stage, code, message }) => {
            assert_eq!(rel, Some(Vec::new()));
            assert_eq!((stage, code), ("walk", "permission_denied"));
            assert_eq!(message, "cannot stat base: denied");
        }
        other => panic!("{other:?}"),
    }
    assert!(matches!(w.run(WorkerEvent::Sent(false), false), WorkerAction::Stop));

    let mut w = Worker::new();
    assert!(matches!(w.run(WorkerEvent::Start, true), WorkerAction::Stop));

    let mut w = Worker::new();
    w.run(WorkerEvent::Start, false);
    match w.run(WorkerEvent::Message(WalkMsg::Item(item(1, 1))), false) {
        WorkerAction::LookUp(rel) => assert_eq!(rel, b"a.txt".to_vec()),
        other => panic!("{other:?}"),
    }
    match w.run(WorkerEvent::Found { staged: None, prior: None }, false) {
        WorkerAction::Hash(path) => assert_eq!(path, b"/base/a.txt".to_vec()),
        other => panic!("{other:?}"),
    }
    let stale = HashAttempt::Read { contents: taken_in(b"x"), after: Some(meta(2, Some(1))) };
    assert!(matches!(
        w.run(WorkerEvent::Hashed(stale), false),
        WorkerAction::Send(WriteMsg::Error { .. })
    ));
    assert!(matches!(
        w.run(WorkerEvent::Sent(true), false),
        WorkerAction::Send(WriteMsg::Row(_))
    ));
    assert!(matches!(w.run(WorkerEvent::Sent(true), false), WorkerAction::Receive));
    assert!(matches!(w.run(WorkerEvent::Closed, false), WorkerAction::Stop));
    assert_eq!(w.counts().changed_during_hash, 1);
}

// ------------------------------------------------------------- lifecycle --

fn base() -> Base {
    Base { id: 3, baseline: Some(2), policy: config().policy() }
}

#[test]
fn another_policy_is_refused_in_words() {
    assert!(register_base(base(), &config()).is_ok());
    let other = Base {
        policy: Policy { skip_hidden: false, ..base().policy },
        ..base()
    };
    let m = register_base(other, &config()).err().unwrap();
    assert_eq!(
        m.note,
        "base was indexed with skip_hidden=false, skip_mount_boundaries=true, \
         follow_symlinks=false; configuration now says true, true, false"
    );
    assert_eq!(m.error.code, EXIT_POLICY);
    assert!(m.error.message.starts_with("policy_mismatch: base was indexed with"));
}

#[test]
fn a_scan_starts_only_above_the_floor() {
    let s = preflight(500 * 1024 * 1024, &config()).ok().unwrap();
    assert_eq!(s.required, 500 * 1024 * 1024);
    assert_eq!(s.source, "storage.minimum_free_space_mib = 500, rechecked every batch");
    let e = preflight(1024, &config()).err().unwrap();
    assert_eq!(e.code, EXIT_NO_SPACE);
    assert_eq!(
        e.message,
        "insufficient free space: 1.0 KiB available, 500.0 MiB must stay free \
         (storage.minimum_free_space_mib)"
    );
}

#[test]
fn the_newest_unfinished_scan_is_continued() {
    let l = log(&[
        scan(1, ScanStatus::Cancelled),
        scan(2, ScanStatus::Partial),
        scan(3, ScanStatus::Complete),
    ]);
    match open_scan(&l, base(), &config(), &space(), 77) {
        Opening::Resume(id) => assert_eq!(id, 2),
        other => panic!("{other:?}"),
    }
    let l = log(&[scan(1, ScanStatus::Complete)]);
    match open_scan(&l, base(), &config(), &space(), 77) {
        Opening::Fresh(NewScan {
            base_id,
            baseline,
            started_at_ns,
            workers,
            writer_batch_rows,
            throttle_ms_after_batch,
            free_bytes_before,
            required_free_bytes,
            estimate_source,
            ..
        }) => {
            assert_eq!((base_id, baseline, started_at_ns), (3, Some(2), 77));
            assert_eq!((workers, writer_batch_rows, throttle_ms_after_batch), (2, 3, 7));
            assert_eq!((free_bytes_before, required_free_bytes), (9, 8));
            assert_eq!(estimate_source, "s");
        }
        other => panic!("{other:?}"),
    }
    for status in [ScanStatus::Running, ScanStatus::Failed] {
        assert_eq!(log(&[scan(4, status)]).resumable().map(|r| r.scan_id), Some(4));
    }
    assert!(!log(&[scan(4, ScanStatus::Complete)]).push(scan(4, ScanStatus::Running)));
}

#[test]
fn totals_count_complete_entries() {
    let t = staged_table(&[
        (b"a", facts(5, 1, b""), true),
        (b"b", facts(7, 1, b""), false),
        (b"c", facts(6, 1, b""), true),
    ]);
    assert_eq!(staged_totals(&t).ok(), Some((2, 11)));
    let huge = staged_table(&[
        (b"a", facts(i64::MAX, 1, b""), true),
        (b"b", facts(1, 1, b""), true),
    ]);
    assert_eq!(staged_totals(&huge).err().unwrap().message, "database: integer overflow");
    let counts = Counters { discovered_files: 4, unreadable_dirs: 2, ..Counters::default() };
    let w = walk_totals(&counts, 2, 11, 3);
    assert_eq!((w.discovered_files, w.staged_files, w.staged_bytes), (4, 2, 11));
    assert_eq!((w.unreadable_dirs, w.error_count), (2, 3));

    let mut walked: PathTable<()> = PathTable::new();
    walked.insert(b"c".to_vec(), ());
    let n = drop_vanished_staged(t, &walked);
    assert_eq!(n.kept.len(), 1);
    assert_eq!(n.dropped, vec![b"a".to_vec(), b"b".to_vec()]);
}

#[test]
fn unread_paths_are_counted_once() {
    let errors = vec![
        problem(Some(b"a"), "permission_denied"),
        problem(Some(b"a"), "io_error"),
        problem(Some(b"b"), "resource_exhausted"),
        problem(Some(b"c"), "not_found"),
        problem(None, "io_error"),
    ];
    assert_eq!(unreadable_path_count(&errors), 2);
    assert!(!base_unreadable(&errors));
    assert!(base_unreadable(&vec![problem(Some(b""), "not_found")]));
}

fn outcome() -> Outcome {
    new_outcome(5, false, 4, 2, &Counters::default(), space())
}

#[test]
fn a_scan_that_is_not_promoted_says_why() {
    let c = config();
    let mut o = outcome();
    let end = finish_unpromoted(&c, true, &mut o);
    assert_eq!((end.status, end.code), ("cancelled", "cancelled"));
    assert_eq!(end.message, "2 error(s); baseline left unchanged");
    assert_eq!(exit_code(&o), 130);

    let mut o = Outcome { low_space: true, ..outcome() };
    let end = finish_unpromoted(&c, true, &mut o);
    assert_eq!((end.status, end.code), ("partial", "low_space"));
    assert_eq!(
        end.message,
        "stopped at the 500 MiB free-space floor; free space and rerun to resume"
    );
    assert_eq!(exit_code(&o), 5);

    let mut o = Outcome { base_unreadable: true, ..outcome() };
    let end = finish_unpromoted(&c, false, &mut o);
    assert_eq!((end.status, end.code), ("partial", "base_unreadable"));
    assert_eq!(end.message, "base directory is unreadable; baseline left unchanged");
    assert_eq!(exit_code(&o), 1);
    assert_eq!(exit_code(&outcome()), 0);
    assert_eq!(exit_code(&Outcome { unreadable_dirs: 1, ..outcome() }), 7);
}

#[test]
fn a_failed_prune_undoes_nothing() {
    let mut o = outcome();
    let pruned = BasePrune { base_path: String::new(), cutoff: Some(1), changes: 3, files: 4 };
    assert_eq!(run_retention(&mut o, Ok(pruned)), None);
    assert_eq!((o.pruned_changes, o.pruned_files), (3, 4));
    let mut o = outcome();
    let e = metainjester::error::AppError::db("locked");
    assert_eq!(
        run_retention(&mut o, Err(e)),
        Some("history prune failed: database: locked".to_string())
    );
    assert_eq!((o.pruned_changes, o.status), (0, "complete"));
}

#[test]
fn stored_words_are_read_back() {
    for p in [Presence::Present, Presence::Unreadable, Presence::Deleted] {
        assert_eq!(Presence::from_word(p.as_str()), Some(p));
    }
    assert_eq!(Presence::from_word("elsewhere"), None);
    for s in [
        ScanStatus::Running,
        ScanStatus::Complete,
        ScanStatus::Cancelled,
        ScanStatus::Failed,
        ScanStatus::Partial,
    ] {
        assert_eq!(ScanStatus::from_word(s.as_str()), Some(s));
    }
    assert_eq!(ScanStatus::from_word(""), None);
    let kinds = [ChangeKind::Added, ChangeKind::Updated, ChangeKind::Deleted];
    assert_eq!(kinds.map(|k| k.as_str()), ["added", "updated", "deleted"]);
}

#[test]
fn the_clock_is_read_in_nanoseconds() {
    assert_eq!(stamp(None), 0);
    assert_eq!(stamp(Some(12)), 12);
    let before = std::time::SystemTime::now()
        .duration_since(std::time::UNIX_EPOCH)
        .unwrap()
        .as_nanos() as i64;
    let now = now_ns();
    assert!(now >= before && now - before < 60_000_000_000);
}

// ------------------------------------------------------------- retention --

fn base_history() -> BaseHistory {
    BaseHistory {
        base_path: "/b".to_string(),
        baseline: Some(6),
        scans: log(&[
            scan(1, ScanStatus::Complete),
            scan(2, ScanStatus::Complete),
            scan(3, ScanStatus::Failed),
            scan(4, ScanStatus::Complete),
            scan(5, ScanStatus::Failed),
            scan(6, ScanStatus::Complete),
        ]),
        changes: vec![
            ChangeTally { scan_id: 1, rows: 10 },
            ChangeTally { scan_id: 2, rows: 20 },
            ChangeTally { scan_id: 4, rows: 40 },
            ChangeTally { scan_id: 6, rows: 60 },
        ],
        files: vec![
            FileTally { presence: Presence::Present, deleted_in_scan_id: None, rows: 100 },
            FileTally { presence: Presence::Unreadable, deleted_in_scan_id: Some(1), rows: 7 },
            FileTally { presence: Presence::Deleted, deleted_in_scan_id: Some(2), rows: 5 },
            FileTally { presence: Presence::Deleted, deleted_in_scan_id: Some(4), rows: 6 },
            FileTally { presence: Presence::Deleted, deleted_in_scan_id: None, rows: 8 },
        ],
    }
}

#[test]
fn history_outside_the_window_is_prunable() {
    let p = prune_base(&base_history(), &config());
    assert_eq!(p.cutoff, Some(4));
    assert_eq!((p.changes, p.files, p.total()), (30, 5, 35));
    let e = expired(&base_history(), &config());
    assert_eq!(e.changes.iter().map(|c| c.scan_id).collect::<Vec<_>>(), vec![1, 2]);
    assert_eq!(e.files.len(), 1);
    assert_eq!(e.files[0].rows, 5);

    let forever = Config { keep_scans: 0, ..config() };
    let p = prune_base(&base_history(), &forever);
    assert_eq!((p.cutoff, p.total()), (None, 0));
    assert!(expired(&base_history(), &forever).changes.is_empty());
    let wide = Config { keep_scans: 5, ..config() };
    assert_eq!(prune_base(&base_history(), &wide).cutoff, None);
    let all = Config { keep_scans: u64::MAX, ..config() };
    assert_eq!(prune_base(&base_history(), &all).cutoff, None);
}

#[test]
fn the_baseline_is_never_prunable() {
    let mut b = base_history();
    b.baseline = Some(2);
    let p = prune_base(&b, &Config { keep_scans: 1, ..config() });
    assert_eq!(p.cutoff, Some(2));
    assert_eq!((p.changes, p.files), (10, 0));
}

#[test]
fn every_base_is_pruned_on_its_own() {
    let mut second = base_history();
    second.base_path = "/c".to_string();
    second.scans = log(&[scan(9, ScanStatus::Complete)]);
    let all = prune_all(&vec![base_history(), second], &config());
    assert_eq!(all.len(), 2);
    assert_eq!((all[0].base_path.as_str(), all[0].total()), ("/b", 35));
    assert_eq!((all[1].base_path.as_str(), all[1].cutoff), ("/c", None));
}

#[test]
fn a_preview_neither_writes_nor_locks() {
    let steps = |keep_scans, apply| {
        let p = plan_prune(&Config { keep_scans, ..config() }, apply);
        (p.writes, p.prunes, p.locks)
    };
    assert_eq!(steps(3, false), (false, true, false));
    assert_eq!(steps(3, true), (true, true, true));
    assert_eq!(steps(0, false), (false, false, false));
    assert_eq!(steps(0, true), (true, false, false));
}

#[test]
fn a_sweep_removes_what_was_counted() {
    for batch in [1usize, 2, 3, 7, 100] {
        let mut groups: Vec<usize> = vec![5, 0, 6, 7];
        let mut s = Sweep::new(groups.len(), batch);
        let mut statements = 0;
        while let Some(i) = s.group() {
            let rows = groups[i].min(batch);
            groups[i] -= rows;
            s.removed(rows);
            statements += 1;
            assert!(statements < 100);
        }
        assert_eq!(s.total, 18, "batch {batch}");
        assert!(groups.iter().all(|g| *g == 0));
    }
}

// --------------------------------------------------------------- reports --

fn args(words: &[&str]) -> Vec<String> {
    words.iter().map(|w| w.to_string()).collect()
}

#[test]
fn the_command_line_sets_no_policy() {
    match parse(&args(&["ingest", "/x"])) {
        Ok(Command::Ingest(p)) => assert_eq!(p, "/x"),
        other => panic!("{other:?}"),
    }
    assert!(matches!(parse(&args(&["status"])), Ok(Command::Status)));
    assert!(matches!(
        parse(&args(&["history", "prune"])),
        Ok(Command::Prune { apply: false })
    ));
    assert!(matches!(
        parse(&args(&["history", "prune", "--apply"])),
        Ok(Command::Prune { apply: true })
    ));
    for bad in [
        args(&[]),
        args(&["ingest"]),
        args(&["ingest", "--skip-hidden", "/x"]),
        args(&["status", "/x"]),
        args(&["history"]),
        args(&["history", "prune", "--force"]),
        args(&["history", "prune", "--apply", "x"]),
        args(&["prune"]),
    ] {
        let e = parse(&bad).err().unwrap();
        assert_eq!(e.code, EXIT_USAGE);
        assert_eq!(e.message, USAGE);
    }
    assert_eq!(
        USAGE,
        "usage: metainjester ingest <base-path>\n       metainjester status\n       \
         metainjester history prune [--apply]\n  policy and storage settings come from the \
         configuration file, not flags"
    );
}

#[test]
fn a_complete_scan_is_reported_line_by_line() {
    let o = Outcome {
        added: 1,
        updated: 2,
        deleted: 3,
        unchanged: 4,
        present: 7,
        hashed: 3,
        hashed_bytes: 2048,
        reused_stage: 1,
        reused_baseline: 4,
        discovered_bytes: 1536,
        excluded_hidden: 1,
        excluded_symlink: 2,
        unreadable: 5,
        unreadable_paths: 1,
        unreadable_dirs: 1,
        pruned_changes: 8,
        pruned_files: 0,
        ..outcome()
    };
    let lines = report("/db", "/base", &config(), &o, "1.25s");
    let expected = [
        "base    /base",
        "db      /db",
        "scan    5  (fresh)",
        "workers 2  batch 3",
        "files   4",
        "bytes   1.5 KiB",
        "hashed  3 (2.0 KiB)  reused 4 baseline, 1 staged",
        "skipped 1 hidden, 0 mount, 2 symlink",
        "errors  2",
        "free    9 B at start, 8 B must stay free — s",
        "elapsed 1.25s",
        "added 1  updated 2  deleted 3  unchanged 4",
        "present 7",
        "pruned  8 change row(s), 0 dead file row(s) (history.keep_scans = 2)",
        "unreadable 1 path(s) could not be read; 5 file row(s) held as 'unreadable'",
        "  see: SELECT relative_path, error_code, message FROM scan_errors WHERE scan_id = 5;",
        "incomplete: 1 director(ies) could not be listed; what lies below is NOT catalogued, \
         and known rows there are held, not deleted (exit 7)",
    ];
    assert_eq!(lines, expected.map(|s| s.to_string()).to_vec());
}

#[test]
fn a_stopped_scan_is_reported_line_by_line() {
    let o = Outcome {
        status: "partial",
        resumed: true,
        low_space: true,
        base_unreadable: true,
        required_free: 1024,
        ..outcome()
    };
    let lines = report("/db", "/base", &config(), &o, "0.00s");
    assert_eq!(lines[2], "scan    5  (resumed, partial, not promoted)");
    assert_eq!(lines[7], "errors  2", "nothing was skipped, so nothing is said of it");
    assert_eq!(
        lines[10..],
        [
            "stopped: reached the 1.0 KiB free-space floor — free some space, then rerun",
            "stopped: could not read the base itself — every path in the baseline depends on \
             it, so nothing was promoted",
            "baseline unchanged; rerun `ingest` on the same path to resume",
            "  see: SELECT stage, error_code, message FROM scan_errors WHERE scan_id = 5;",
        ]
        .map(|s| s.to_string())
    );
}

#[test]
fn status_tells_the_settings() {
    let candidates = vec![
        Candidate { path: "/etc/c".to_string(), exists: false },
        Candidate { path: "/h/c".to_string(), exists: true },
    ];
    assert_eq!(
        status_settings(&candidates, &config()),
        vec![
            "config  /etc/c  (absent)".to_string(),
            "config  /h/c".to_string(),
            "policy  hidden skip  mounts skip  symlinks skip".to_string(),
            "limits  free floor 500.0 MiB  keep_scans 2".to_string(),
        ]
    );
    let open = Config {
        skip_hidden: false,
        skip_mount_boundaries: false,
        follow_symlinks: true,
        keep_scans: 0,
        ..config()
    };
    let lines = status_settings(&Vec::new(), &open);
    assert_eq!(lines[0], "policy  hidden include  mounts cross  symlinks follow");
    assert_eq!(lines[1], "limits  free floor 500.0 MiB  keep_scans unbounded");
}

#[test]
fn status_tells_every_base() {
    let empty = DatabaseStatus {
        path: "/d".to_string(),
        writer: Some(9),
        alive: false,
        bases: Vec::new(),
    };
    assert_eq!(
        status(&empty, &config()),
        vec![
            "db      /d".to_string(),
            "no bases yet — `ingest <base-path>` creates one".to_string(),
        ]
    );
    let other = Policy { skip_hidden: false, skip_mount_boundaries: true, follow_symlinks: true };
    let d = DatabaseStatus {
        path: "/d".to_string(),
        writer: Some(9),
        alive: true,
        bases: vec![
            BaseStatus {
                base_path: "/b".to_string(),
                policy: other,
                scan_id: None,
                finished: None,
                present: None,
                resumable: Some(scan(3, ScanStatus::Cancelled)),
                started: "2m".to_string(),
            },
            BaseStatus {
                base_path: "/c".to_string(),
                policy: config().policy(),
                scan_id: Some(4),
                finished: Some("1.0h".to_string()),
                present: None,
                resumable: None,
                started: String::new(),
            },
        ],
    };
    assert_eq!(
        status(&d, &config()),
        [
            "db      /d",
            "writer  pid 9 holds the write lock",
            "base    /b",
            "  baseline  none — no scan has completed yet",
            "  resumable scan 3 (cancelled, started 2m ago) — `ingest /b` continues it",
            "  POLICY    skip_hidden, follow_symlinks differ(s) from this baseline; `ingest` will \
             refuse (exit 6)",
            "base    /c",
            "  baseline  scan 4, 1.0h ago, 0 file(s) present",
            "  resumable none",
        ]
        .map(|s| s.to_string())
        .to_vec()
    );
}

#[test]
fn pruning_is_told_line_by_line() {
    let forever = Config { keep_scans: 0, ..config() };
    assert_eq!(prune_policy("/d", &forever).len(), 3);
    assert_eq!(
        prune_policy("/d", &config()),
        vec!["db      /d".to_string(), "policy  history.keep_scans = 2".to_string()]
    );
    let bases = vec![
        BasePrune { base_path: "/b".to_string(), cutoff: Some(4), changes: 30, files: 5 },
        BasePrune { base_path: "/c".to_string(), cutoff: None, changes: 0, files: 0 },
    ];
    assert_eq!(
        prune("/d", &bases, &config(), false),
        [
            "base    /b",
            "  keeping scans >= 4; 30 change row(s), 5 dead file row(s) prunable",
            "base    /c",
            "  fewer than 2 complete scans — nothing has aged out yet",
            "preview only — rerun with --apply to delete",
        ]
        .map(|s| s.to_string())
        .to_vec()
    );
    let applied = prune("/d", &bases, &config(), true);
    assert!(applied[1].ends_with(" removed"));
    assert_eq!(
        applied[4],
        "removed 35 row(s). The file will not shrink — freed pages are reused, so it stops \
         growing.\n  to reclaim the bytes: sqlite3 /d \"VACUUM INTO 'new.sqlite3'\" then swap it in"
    );
    assert_eq!(
        prune("/d", &Vec::new(), &config(), true),
        vec!["no bases in this database".to_string(), "nothing to do".to_string()]
    );
}
