//! The command line, and every line a command prints.

use vstd::prelude::*;
use vstd::string::*;

use crate::config::{Config, Policy};
use crate::error::{human, human_text, AppError, EXIT_USAGE};
use crate::history::{BasePrune, ScanRow};
use crate::scan::Outcome;
use crate::text::{decimal, push_number, push_signed, same_text, signed_decimal, texts};

verus! {

pub const USAGE: &'static str = "usage: metainjester ingest <base-path>\n       metainjester status\n       metainjester history prune [--apply]\n  policy and storage settings come from the configuration file, not flags";

/// What the user asked for.
#[derive(Debug)]
pub enum Command {
    Ingest(String),
    Status,
    Prune { apply: bool },
}

pub enum CommandView {
    Ingest(Seq<char>),
    Status,
    Prune { apply: bool },
}

impl View for Command {
    type V = CommandView;

    open spec fn view(&self) -> CommandView {
        match *self {
            Command::Ingest(base) => CommandView::Ingest(base@),
            Command::Status => CommandView::Status,
            Command::Prune { apply } => CommandView::Prune { apply },
        }
    }
}

/// What these arguments ask for, if anything.
pub open spec fn asked(args: Seq<Seq<char>>) -> Option<CommandView> {
    if args.len() == 2 && args[0] == "ingest"@ {
        Some(CommandView::Ingest(args[1]))
    } else if args.len() == 1 && args[0] == "status"@ {
        Some(CommandView::Status)
    } else if args.len() == 2 && args[0] == "history"@ && args[1] == "prune"@ {
        Some(CommandView::Prune { apply: false })
    } else if args.len() == 3 && args[0] == "history"@ && args[1] == "prune"@ && args[2]
        == "--apply"@ {
        Some(CommandView::Prune { apply: true })
    } else {
        None
    }
}

/// Reads the command line.
pub fn parse(args: &Vec<String>) -> (r: Result<Command, AppError>)
    ensures
        match (asked(texts(args@)), r) {
            (Some(c), Ok(command)) => command@ == c,
            (None, Err(e)) => e.code == EXIT_USAGE && e.message@ == USAGE@,
            _ => false,
        },
{
    let n: usize = args.len();
    assert(forall|i: int| 0 <= i < n ==> #[trigger] texts(args@)[i] == args@[i]@);
    if n == 2 && same_text(args[0].as_str(), "ingest") {
        return Ok(Command::Ingest(args[1].clone()));
    }
    if n == 1 && same_text(args[0].as_str(), "status") {
        return Ok(Command::Status);
    }
    if n >= 2 && same_text(args[0].as_str(), "history") && same_text(args[1].as_str(), "prune") {
        if n == 2 {
            return Ok(Command::Prune { apply: false });
        }
        if n == 3 && same_text(args[2].as_str(), "--apply") {
            return Ok(Command::Prune { apply: true });
        }
    }
    Err(AppError::usage(USAGE))
}

/// The command line sets no policy: beside its base, `ingest` takes nothing.
pub proof fn law_ingest_takes_no_flags(args: Seq<Seq<char>>)
    requires
        args.len() != 2,
    ensures
        !(asked(args) matches Some(CommandView::Ingest(_))),
{
}

/// Nothing is deleted unless that is asked for in so many words.
pub proof fn law_pruning_previews_by_default(args: Seq<Seq<char>>)
    ensures
        asked(args) matches Some(CommandView::Prune { apply }) ==> (apply <==> args.len() == 3
            && args[2] == "--apply"@),
{
}

fn say(out: &mut Vec<String>, line: String)
    ensures
        texts(final(out)@) == texts(old(out)@).push(line@),
{
    out.push(line);
    assert(texts(out@) =~= texts(old(out)@).push(line@));
}

fn nothing_said() -> (out: Vec<String>)
    ensures
        texts(out@) == Seq::<Seq<char>>::empty(),
{
    let out: Vec<String> = Vec::new();
    assert(texts(out@) =~= Seq::<Seq<char>>::empty());
    out
}

fn labelled(label: &str, value: &str) -> (r: String)
    ensures
        r@ == label@ + value@,
{
    let mut s = label.to_owned();
    s.append(value);
    s
}

fn push_human(s: &mut String, bytes: u64)
    ensures
        final(s)@ == old(s)@ + human_text(bytes as nat),
{
    let t = human(bytes);
    s.append(t.as_str());
}

/// How the scan began and ended.
pub open spec fn scan_note(resumed: bool, status: Seq<char>) -> Seq<char> {
    if status == "complete"@ {
        if resumed {
            "  (resumed)"@
        } else {
            "  (fresh)"@
        }
    } else if resumed {
        "  (resumed, "@ + status + ", not promoted)"@
    } else {
        "  ("@ + status + ", not promoted)"@
    }
}

fn push_scan_note(s: &mut String, resumed: bool, status: &str)
    ensures
        final(s)@ == old(s)@ + scan_note(resumed, status@),
{
    if same_text(status, "complete") {
        if resumed {
            s.append("  (resumed)");
        } else {
            s.append("  (fresh)");
        }
    } else {
        let mut note = if resumed {
            "  (resumed, ".to_owned()
        } else {
            "  (".to_owned()
        };
        note.append(status);
        note.append(", not promoted)");
        s.append(note.as_str());
    }
}

/// What is said of every scan. `elapsed` is how long it took, in words.
pub open spec fn summary(
    db_path: Seq<char>,
    base: Seq<char>,
    c: Config,
    o: Outcome,
    elapsed: Seq<char>,
) -> Seq<Seq<char>> {
    let l = Seq::<Seq<char>>::empty().push("base    "@ + base).push("db      "@ + db_path).push(
        "scan    "@ + signed_decimal(o.scan_id as int) + scan_note(o.resumed, o.status@),
    ).push(
        "workers "@ + decimal(c.workers as nat) + "  batch "@ + decimal(c.writer_batch_rows as nat),
    ).push("files   "@ + decimal(o.staged as nat)).push(
        "bytes   "@ + human_text(o.discovered_bytes as nat),
    ).push(
        "hashed  "@ + decimal(o.hashed as nat) + " ("@ + human_text(o.hashed_bytes as nat)
            + ")  reused "@ + decimal(o.reused_baseline as nat) + " baseline, "@ + decimal(
            o.reused_stage as nat,
        ) + " staged"@,
    );
    let l = if o.excluded_hidden > 0 || o.excluded_mount > 0 || o.excluded_symlink > 0 {
        l.push(
            "skipped "@ + decimal(o.excluded_hidden as nat) + " hidden, "@ + decimal(
                o.excluded_mount as nat,
            ) + " mount, "@ + decimal(o.excluded_symlink as nat) + " symlink"@,
        )
    } else {
        l
    };
    l.push("errors  "@ + decimal(o.errors as nat)).push(
        "free    "@ + human_text(o.free_before as nat) + " at start, "@ + human_text(
            o.required_free as nat,
        ) + " must stay free — "@ + o.estimate_source@,
    ).push("elapsed "@ + elapsed)
}

/// What is said of a promoted scan after that. What could not be read is a count,
/// not a list: it can cover a large subtree, and the paths can be queried.
pub open spec fn changes_told(l: Seq<Seq<char>>, c: Config, o: Outcome) -> Seq<Seq<char>> {
    let l = l.push(
        "added "@ + decimal(o.added as nat) + "  updated "@ + decimal(o.updated as nat)
            + "  deleted "@ + decimal(o.deleted as nat) + "  unchanged "@ + decimal(
            o.unchanged as nat,
        ),
    ).push("present "@ + decimal(o.present as nat));
    let l = if o.pruned_changes > 0 || o.pruned_files > 0 {
        l.push(
            "pruned  "@ + decimal(o.pruned_changes as nat) + " change row(s), "@ + decimal(
                o.pruned_files as nat,
            ) + " dead file row(s) (history.keep_scans = "@ + decimal(c.keep_scans as nat) + ")"@,
        )
    } else {
        l
    };
    let l = if o.unreadable_paths > 0 {
        l.push(
            "unreadable "@ + decimal(o.unreadable_paths as nat) + " path(s) could not be read; "@
                + decimal(o.unreadable as nat) + " file row(s) held as 'unreadable'"@,
        ).push(
            "  see: SELECT relative_path, error_code, message FROM scan_errors WHERE scan_id = "@
                + signed_decimal(o.scan_id as int) + ";"@,
        )
    } else {
        l
    };
    if o.unreadable_dirs > 0 {
        l.push(
            "incomplete: "@ + decimal(o.unreadable_dirs as nat)
                + " director(ies) could not be listed; what lies below is NOT catalogued, and known rows there are held, not deleted (exit 7)"@,
        )
    } else {
        l
    }
}

/// What is said of a scan that was not promoted.
pub open spec fn stop_told(l: Seq<Seq<char>>, o: Outcome) -> Seq<Seq<char>> {
    let l = if o.low_space {
        l.push(
            "stopped: reached the "@ + human_text(o.required_free as nat)
                + " free-space floor — free some space, then rerun"@,
        )
    } else {
        l
    };
    let l = if o.base_unreadable {
        l.push(
            "stopped: could not read the base itself — every path in the baseline depends on it, so nothing was promoted"@,
        )
    } else {
        l
    };
    let l = l.push("baseline unchanged; rerun `ingest` on the same path to resume"@);
    if o.errors > 0 {
        l.push(
            "  see: SELECT stage, error_code, message FROM scan_errors WHERE scan_id = "@
                + signed_decimal(o.scan_id as int) + ";"@,
        )
    } else {
        l
    }
}

/// The report of a scan.
pub open spec fn reported(
    db_path: Seq<char>,
    base: Seq<char>,
    c: Config,
    o: Outcome,
    elapsed: Seq<char>,
) -> Seq<Seq<char>> {
    let l = summary(db_path, base, c, o, elapsed);
    if o.status@ == "complete"@ {
        changes_told(l, c, o)
    } else {
        stop_told(l, o)
    }
}

fn summarise(db_path: &str, base: &str, config: &Config, o: &Outcome, elapsed: &str) -> (r: Vec<
    String,
>)
    ensures
        texts(r@) == summary(db_path@, base@, *config, *o, elapsed@),
{
    let mut out = nothing_said();
    say(&mut out, labelled("base    ", base));
    say(&mut out, labelled("db      ", db_path));
    let mut line = "scan    ".to_owned();
    push_signed(&mut line, o.scan_id);
    push_scan_note(&mut line, o.resumed, o.status);
    say(&mut out, line);
    let mut line = "workers ".to_owned();
    push_number(&mut line, config.workers as u64);
    line.append("  batch ");
    push_number(&mut line, config.writer_batch_rows as u64);
    say(&mut out, line);
    let mut line = "files   ".to_owned();
    push_number(&mut line, o.staged as u64);
    say(&mut out, line);
    let mut line = "bytes   ".to_owned();
    push_human(&mut line, o.discovered_bytes);
    say(&mut out, line);
    let mut line = "hashed  ".to_owned();
    push_number(&mut line, o.hashed);
    line.append(" (");
    push_human(&mut line, o.hashed_bytes);
    line.append(")  reused ");
    push_number(&mut line, o.reused_baseline);
    line.append(" baseline, ");
    push_number(&mut line, o.reused_stage);
    line.append(" staged");
    say(&mut out, line);
    if o.excluded_hidden > 0 || o.excluded_mount > 0 || o.excluded_symlink > 0 {
        let mut line = "skipped ".to_owned();
        push_number(&mut line, o.excluded_hidden);
        line.append(" hidden, ");
        push_number(&mut line, o.excluded_mount);
        line.append(" mount, ");
        push_number(&mut line, o.excluded_symlink);
        line.append(" symlink");
        say(&mut out, line);
    }
    let mut line = "errors  ".to_owned();
    push_number(&mut line, o.errors as u64);
    say(&mut out, line);
    let mut line = "free    ".to_owned();
    push_human(&mut line, o.free_before);
    line.append(" at start, ");
    push_human(&mut line, o.required_free);
    line.append(" must stay free — ");
    line.append(o.estimate_source.as_str());
    say(&mut out, line);
    say(&mut out, labelled("elapsed ", elapsed));
    out
}

fn tell_changes(out: &mut Vec<String>, config: &Config, o: &Outcome)
    ensures
        texts(final(out)@) == changes_told(texts(old(out)@), *config, *o),
{
    let mut line = "added ".to_owned();
    push_number(&mut line, o.added as u64);
    line.append("  updated ");
    push_number(&mut line, o.updated as u64);
    line.append("  deleted ");
    push_number(&mut line, o.deleted as u64);
    line.append("  unchanged ");
    push_number(&mut line, o.unchanged as u64);
    say(out, line);
    let mut line = "present ".to_owned();
    push_number(&mut line, o.present as u64);
    say(out, line);
    if o.pruned_changes > 0 || o.pruned_files > 0 {
        let mut line = "pruned  ".to_owned();
        push_number(&mut line, o.pruned_changes);
        line.append(" change row(s), ");
        push_number(&mut line, o.pruned_files);
        line.append(" dead file row(s) (history.keep_scans = ");
        push_number(&mut line, config.keep_scans);
        line.append(")");
        say(out, line);
    }
    if o.unreadable_paths > 0 {
        let mut line = "unreadable ".to_owned();
        push_number(&mut line, o.unreadable_paths as u64);
        line.append(" path(s) could not be read; ");
        push_number(&mut line, o.unreadable as u64);
        line.append(" file row(s) held as 'unreadable'");
        say(out, line);
        let mut line =
            "  see: SELECT relative_path, error_code, message FROM scan_errors WHERE scan_id = ".to_owned();
        push_signed(&mut line, o.scan_id);
        line.append(";");
        say(out, line);
    }
    if o.unreadable_dirs > 0 {
        let mut line = "incomplete: ".to_owned();
        push_number(&mut line, o.unreadable_dirs);
        line.append(
            " director(ies) could not be listed; what lies below is NOT catalogued, and known rows there are held, not deleted (exit 7)",
        );
        say(out, line);
    }
}

fn tell_stop(out: &mut Vec<String>, o: &Outcome)
    ensures
        texts(final(out)@) == stop_told(texts(old(out)@), *o),
{
    if o.low_space {
        let mut line = "stopped: reached the ".to_owned();
        push_human(&mut line, o.required_free);
        line.append(" free-space floor — free some space, then rerun");
        say(out, line);
    }
    if o.base_unreadable {
        say(
            out,
            "stopped: could not read the base itself — every path in the baseline depends on it, so nothing was promoted".to_owned(),
        );
    }
    say(out, "baseline unchanged; rerun `ingest` on the same path to resume".to_owned());
    if o.errors > 0 {
        let mut line =
            "  see: SELECT stage, error_code, message FROM scan_errors WHERE scan_id = ".to_owned();
        push_signed(&mut line, o.scan_id);
        line.append(";");
        say(out, line);
    }
}

/// Reports a scan, line by line.
pub fn report(db_path: &str, base: &str, config: &Config, o: &Outcome, elapsed: &str) -> (r: Vec<
    String,
>)
    ensures
        texts(r@) == reported(db_path@, base@, *config, *o, elapsed@),
{
    let mut out = summarise(db_path, base, config, o, elapsed);
    if same_text(o.status, "complete") {
        tell_changes(&mut out, config, o);
    } else {
        tell_stop(&mut out, o);
    }
    out
}

/// A place where configuration may stand, and whether it does.
#[derive(Debug)]
pub struct Candidate {
    pub path: String,
    pub exists: bool,
}

pub open spec fn candidate_line(c: Candidate) -> Seq<char> {
    "config  "@ + c.path@ + (if c.exists {
        ""@
    } else {
        "  (absent)"@
    })
}

pub open spec fn candidate_lines(candidates: Seq<Candidate>) -> Seq<Seq<char>>
    decreases candidates.len(),
{
    if candidates.len() == 0 {
        Seq::empty()
    } else {
        candidate_lines(candidates.drop_last()).push(candidate_line(candidates.last()))
    }
}

pub open spec fn either(b: bool, yes: Seq<char>, no: Seq<char>) -> Seq<char> {
    if b {
        yes
    } else {
        no
    }
}

/// What `status` says of the configuration in force.
pub open spec fn settings_told(candidates: Seq<Candidate>, c: Config) -> Seq<Seq<char>> {
    candidate_lines(candidates).push(
        "policy  hidden "@ + either(c.skip_hidden, "skip"@, "include"@) + "  mounts "@ + either(
            c.skip_mount_boundaries,
            "skip"@,
            "cross"@,
        ) + "  symlinks "@ + either(c.follow_symlinks, "follow"@, "skip"@),
    ).push(
        "limits  free floor "@ + human_text((c.minimum_free_space_mib * 1048576) as nat)
            + "  keep_scans "@ + (if c.keep_scans == 0 {
            "unbounded"@
        } else {
            decimal(c.keep_scans as nat)
        }),
    )
}

fn push_either(s: &mut String, b: bool, yes: &str, no: &str)
    ensures
        final(s)@ == old(s)@ + either(b, yes@, no@),
{
    if b {
        s.append(yes);
    } else {
        s.append(no);
    }
}

/// Tells the configuration in force.
pub fn status_settings(candidates: &Vec<Candidate>, config: &Config) -> (r: Vec<String>)
    requires
        config.minimum_free_space_mib * 1048576 <= u64::MAX,
    ensures
        texts(r@) == settings_told(candidates@, *config),
{
    let mut out = nothing_said();
    let mut i: usize = 0;
    assert(candidates@.take(0) =~= Seq::<Candidate>::empty());
    while i < candidates.len()
        invariant
            i <= candidates@.len(),
            texts(out@) == candidate_lines(candidates@.take(i as int)),
        decreases candidates.len() - i,
    {
        let c = &candidates[i];
        let mut line = "config  ".to_owned();
        line.append(c.path.as_str());
        push_either(&mut line, c.exists, "", "  (absent)");
        say(&mut out, line);
        assert(candidates@.take(i + 1).drop_last() =~= candidates@.take(i as int));
        i = i + 1;
    }
    assert(candidates@.take(i as int) =~= candidates@);
    let mut line = "policy  hidden ".to_owned();
    push_either(&mut line, config.skip_hidden, "skip", "include");
    line.append("  mounts ");
    push_either(&mut line, config.skip_mount_boundaries, "skip", "cross");
    line.append("  symlinks ");
    push_either(&mut line, config.follow_symlinks, "follow", "skip");
    say(&mut out, line);
    let mut line = "limits  free floor ".to_owned();
    push_human(&mut line, config.minimum_free_space_mib * 1048576);
    line.append("  keep_scans ");
    if config.keep_scans == 0 {
        line.append("unbounded");
    } else {
        push_number(&mut line, config.keep_scans);
    }
    say(&mut out, line);
    out
}

/// What a read-only command says where there is no database.
pub open spec fn no_database_told() -> Seq<char> {
    "db      none yet — `ingest <base-path>` creates one"@
}

pub fn no_database() -> (r: String)
    ensures
        r@ == no_database_told(),
{
    "db      none yet — `ingest <base-path>` creates one".to_owned()
}

/// The settings in which a baseline's policy differs from the configured one.
pub open spec fn differing(stored: Policy, configured: Policy) -> Seq<Seq<char>> {
    let l = Seq::<Seq<char>>::empty();
    let l = if stored.skip_hidden != configured.skip_hidden {
        l.push("skip_hidden"@)
    } else {
        l
    };
    let l = if stored.skip_mount_boundaries != configured.skip_mount_boundaries {
        l.push("skip_mount_boundaries"@)
    } else {
        l
    };
    if stored.follow_symlinks != configured.follow_symlinks {
        l.push("follow_symlinks"@)
    } else {
        l
    }
}

/// Texts with a comma between each two.
pub open spec fn listed(names: Seq<Seq<char>>) -> Seq<char>
    decreases names.len(),
{
    if names.len() == 0 {
        Seq::empty()
    } else if names.len() == 1 {
        names[0]
    } else {
        listed(names.drop_last()) + ", "@ + names.last()
    }
}

/// `status` warns of a policy exactly when a scan would refuse it.
pub proof fn law_status_mirrors_the_refusal(stored: Policy, configured: Policy)
    ensures
        differing(stored, configured).len() > 0 <==> stored != configured,
{
}

/// What `status` knows of one base. Times are in words, as a distance from now.
#[derive(Debug)]
pub struct BaseStatus {
    pub base_path: String,
    pub policy: Policy,
    /// The last complete scan, when it finished, and the files it left present.
    pub scan_id: Option<i64>,
    pub finished: Option<String>,
    pub present: Option<i64>,
    /// The scan the next ingest continues, and when it started.
    pub resumable: Option<ScanRow>,
    pub started: String,
}

pub open spec fn baseline_line(b: BaseStatus) -> Seq<char> {
    match (b.scan_id, b.finished) {
        (Some(id), Some(ago)) => "  baseline  scan "@ + signed_decimal(id as int) + ", "@ + ago@
            + " ago, "@ + signed_decimal(
            match b.present {
                Some(n) => n as int,
                None => 0,
            },
        ) + " file(s) present"@,
        _ => "  baseline  none — no scan has completed yet"@,
    }
}

pub open spec fn resumable_line(b: BaseStatus) -> Seq<char> {
    match b.resumable {
        Some(row) => "  resumable scan "@ + signed_decimal(row.scan_id as int) + " ("@
            + row.status.word() + ", started "@ + b.started@ + " ago) — `ingest "@ + b.base_path@
            + "` continues it"@,
        None => "  resumable none"@,
    }
}

pub open spec fn base_told(b: BaseStatus, configured: Policy) -> Seq<Seq<char>> {
    let l = Seq::<Seq<char>>::empty().push("base    "@ + b.base_path@).push(
        baseline_line(b),
    ).push(resumable_line(b));
    if differing(b.policy, configured).len() > 0 {
        l.push(
            "  POLICY    "@ + listed(differing(b.policy, configured))
                + " differ(s) from this baseline; `ingest` will refuse (exit 6)"@,
        )
    } else {
        l
    }
}

fn list_differences(stored: Policy, configured: Policy) -> (r: Option<String>)
    ensures
        match r {
            Some(names) => differing(stored, configured).len() > 0 && names@ == listed(
                differing(stored, configured),
            ),
            None => differing(stored, configured).len() == 0,
        },
{
    let hidden = stored.skip_hidden != configured.skip_hidden;
    let mounts = stored.skip_mount_boundaries != configured.skip_mount_boundaries;
    let links = stored.follow_symlinks != configured.follow_symlinks;
    let ghost all = differing(stored, configured);
    proof {
        reveal_with_fuel(listed, 4);
        if all.len() == 3 {
            assert(all.drop_last() =~= seq!["skip_hidden"@, "skip_mount_boundaries"@]);
            assert(all.drop_last().drop_last() =~= seq!["skip_hidden"@]);
        }
        if all.len() == 2 {
            assert(all.drop_last() =~= seq![all[0]]);
        }
    }
    if hidden {
        let mut names = "skip_hidden".to_owned();
        if mounts {
            names.append(", ");
            names.append("skip_mount_boundaries");
        }
        if links {
            names.append(", ");
            names.append("follow_symlinks");
        }
        Some(names)
    } else if mounts {
        let mut names = "skip_mount_boundaries".to_owned();
        if links {
            names.append(", ");
            names.append("follow_symlinks");
        }
        Some(names)
    } else if links {
        Some("follow_symlinks".to_owned())
    } else {
        None
    }
}

/// Tells one base, as `status` shows it.
pub fn status_base(b: &BaseStatus, config: &Config) -> (r: Vec<String>)
    ensures
        texts(r@) == base_told(*b, config@.policy),
{
    let mut out = nothing_said();
    say(&mut out, labelled("base    ", b.base_path.as_str()));
    let line = match (b.scan_id, &b.finished) {
        (Some(id), Some(ago)) => {
            let mut line = "  baseline  scan ".to_owned();
            push_signed(&mut line, id);
            line.append(", ");
            line.append(ago.as_str());
            line.append(" ago, ");
            let present: i64 = match b.present {
                Some(n) => n,
                None => 0,
            };
            push_signed(&mut line, present);
            line.append(" file(s) present");
            line
        },
        _ => "  baseline  none — no scan has completed yet".to_owned(),
    };
    say(&mut out, line);
    let line = match b.resumable {
        Some(row) => {
            let mut line = "  resumable scan ".to_owned();
            push_signed(&mut line, row.scan_id);
            line.append(" (");
            line.append(row.status.as_str());
            line.append(", started ");
            line.append(b.started.as_str());
            line.append(" ago) — `ingest ");
            line.append(b.base_path.as_str());
            line.append("` continues it");
            line
        },
        None => "  resumable none".to_owned(),
    };
    say(&mut out, line);
    if let Some(names) = list_differences(b.policy, config.policy()) {
        let mut line = "  POLICY    ".to_owned();
        line.append(names.as_str());
        line.append(" differ(s) from this baseline; `ingest` will refuse (exit 6)");
        say(&mut out, line);
    }
    out
}

/// What `status` knows of a database.
#[derive(Debug)]
pub struct DatabaseStatus {
    pub path: String,
    /// Who holds the writer lock, and whether that process is alive.
    pub writer: Option<i64>,
    pub alive: bool,
    pub bases: Vec<BaseStatus>,
}

pub open spec fn every_base_told(
    l: Seq<Seq<char>>,
    bases: Seq<BaseStatus>,
    configured: Policy,
) -> Seq<Seq<char>>
    decreases bases.len(),
{
    if bases.len() == 0 {
        l
    } else {
        every_base_told(l, bases.drop_last(), configured) + base_told(bases.last(), configured)
    }
}

/// What `status` says of a database. A lock whose holder is gone is not held: the
/// next writer reclaims it without a word.
pub open spec fn database_told(d: DatabaseStatus, configured: Policy) -> Seq<Seq<char>> {
    let l = Seq::<Seq<char>>::empty().push("db      "@ + d.path@);
    let l = match d.writer {
        Some(pid) => if d.alive {
            l.push("writer  pid "@ + signed_decimal(pid as int) + " holds the write lock"@)
        } else {
            l
        },
        None => l,
    };
    if d.bases@.len() == 0 {
        l.push("no bases yet — `ingest <base-path>` creates one"@)
    } else {
        every_base_told(l, d.bases@, configured)
    }
}

/// Tells a database, base by base.
pub fn status(d: &DatabaseStatus, config: &Config) -> (r: Vec<String>)
    ensures
        texts(r@) == database_told(*d, config@.policy),
{
    let mut out = nothing_said();
    say(&mut out, labelled("db      ", d.path.as_str()));
    if let Some(pid) = d.writer {
        if d.alive {
            let mut line = "writer  pid ".to_owned();
            push_signed(&mut line, pid);
            line.append(" holds the write lock");
            say(&mut out, line);
        }
    }
    if d.bases.len() == 0 {
        say(&mut out, "no bases yet — `ingest <base-path>` creates one".to_owned());
        return out;
    }
    let ghost head = texts(out@);
    let mut i: usize = 0;
    assert(d.bases@.take(0) =~= Seq::<BaseStatus>::empty());
    while i < d.bases.len()
        invariant
            i <= d.bases@.len(),
            texts(out@) == every_base_told(head, d.bases@.take(i as int), config@.policy),
        decreases d.bases.len() - i,
    {
        let mut lines = status_base(&d.bases[i], config);
        let ghost said = out@;
        let ghost more = lines@;
        out.append(&mut lines);
        proof {
            assert(out@ == said + more);
            assert(texts(out@) =~= texts(said) + texts(more));
            assert(d.bases@.take(i + 1).drop_last() =~= d.bases@.take(i as int));
        }
        i = i + 1;
    }
    assert(d.bases@.take(i as int) =~= d.bases@);
    out
}

/// The rows that pruning touches, over every base that has a cutoff.
pub open spec fn pruned_total(bases: Seq<BasePrune>) -> nat
    decreases bases.len(),
{
    if bases.len() == 0 {
        0
    } else {
        pruned_total(bases.drop_last()) + (if bases.last().cutoff is Some {
            (bases.last().changes + bases.last().files) as nat
        } else {
            0
        })
    }
}

pub open spec fn prune_line(b: BasePrune, keep: u64, apply: bool) -> Seq<char> {
    match b.cutoff {
        None => "  fewer than "@ + decimal(keep as nat)
            + " complete scans — nothing has aged out yet"@,
        Some(cutoff) => "  keeping scans >= "@ + signed_decimal(cutoff as int) + "; "@ + decimal(
            b.changes as nat,
        ) + " change row(s), "@ + decimal(b.files as nat) + " dead file row(s)"@ + either(
            apply,
            " removed"@,
            " prunable"@,
        ),
    }
}

pub open spec fn bases_told(bases: Seq<BasePrune>, keep: u64, apply: bool) -> Seq<Seq<char>>
    decreases bases.len(),
{
    if bases.len() == 0 {
        Seq::empty()
    } else {
        bases_told(bases.drop_last(), keep, apply).push("base    "@ + bases.last().base_path@).push(
            prune_line(bases.last(), keep, apply),
        )
    }
}

/// What pruning says first, and whether there is anything to prune.
pub open spec fn policy_told(db_path: Seq<char>, keep: u64) -> Seq<Seq<char>> {
    let l = Seq::<Seq<char>>::empty().push("db      "@ + db_path);
    if keep == 0 {
        l.push(
            "policy  history.keep_scans = 0 — history is kept forever, nothing to prune"@,
        ).push("  set [history] keep_scans = N in the configuration file to bound it"@)
    } else {
        l.push("policy  history.keep_scans = "@ + decimal(keep as nat))
    }
}

pub fn prune_policy(db_path: &str, config: &Config) -> (r: Vec<String>)
    ensures
        texts(r@) == policy_told(db_path@, config.keep_scans),
{
    let mut out = nothing_said();
    say(&mut out, labelled("db      ", db_path));
    if config.keep_scans == 0 {
        say(
            &mut out,
            "policy  history.keep_scans = 0 — history is kept forever, nothing to prune".to_owned(),
        );
        say(
            &mut out,
            "  set [history] keep_scans = N in the configuration file to bound it".to_owned(),
        );
    } else {
        let mut line = "policy  history.keep_scans = ".to_owned();
        push_number(&mut line, config.keep_scans);
        say(&mut out, line);
    }
    out
}

/// What pruning says of the bases. A preview and a deletion differ in two words.
pub open spec fn pruning_told(
    db_path: Seq<char>,
    bases: Seq<BasePrune>,
    keep: u64,
    apply: bool,
) -> Seq<Seq<char>> {
    let l = bases_told(bases, keep, apply);
    let l = if bases.len() == 0 {
        l.push("no bases in this database"@)
    } else {
        l
    };
    let total = pruned_total(bases);
    if total == 0 {
        l.push("nothing to do"@)
    } else if apply {
        l.push(
            "removed "@ + decimal(total)
                + " row(s). The file will not shrink — freed pages are reused, so it stops growing.\n  to reclaim the bytes: sqlite3 "@
                + db_path + " \"VACUUM INTO 'new.sqlite3'\" then swap it in"@,
        )
    } else {
        l.push("preview only — rerun with --apply to delete"@)
    }
}

proof fn lemma_pruned_grows(bases: Seq<BasePrune>, i: int)
    requires
        0 <= i <= bases.len(),
    ensures
        pruned_total(bases.take(i)) <= pruned_total(bases),
    decreases bases.len() - i,
{
    if i < bases.len() {
        lemma_pruned_grows(bases, i + 1);
        assert(bases.take(i + 1).drop_last() =~= bases.take(i));
    } else {
        assert(bases.take(i) =~= bases);
    }
}

/// Tells what pruning found, or removed.
pub fn prune(db_path: &str, bases: &Vec<BasePrune>, config: &Config, apply: bool) -> (r: Vec<
    String,
>)
    requires
        pruned_total(bases@) <= u64::MAX,
    ensures
        texts(r@) == pruning_told(db_path@, bases@, config.keep_scans, apply),
{
    let mut out = nothing_said();
    let mut total: u64 = 0;
    let mut i: usize = 0;
    assert(bases@.take(0) =~= Seq::<BasePrune>::empty());
    while i < bases.len()
        invariant
            i <= bases@.len(),
            total == pruned_total(bases@.take(i as int)),
            pruned_total(bases@) <= u64::MAX,
            texts(out@) == bases_told(bases@.take(i as int), config.keep_scans, apply),
        decreases bases.len() - i,
    {
        let b = &bases[i];
        proof {
            assert(bases@.take(i + 1).drop_last() =~= bases@.take(i as int));
            lemma_pruned_grows(bases@, i + 1);
        }
        say(&mut out, labelled("base    ", b.base_path.as_str()));
        let line = match b.cutoff {
            None => {
                let mut line = "  fewer than ".to_owned();
                push_number(&mut line, config.keep_scans);
                line.append(" complete scans — nothing has aged out yet");
                line
            },
            Some(cutoff) => {
                let mut line = "  keeping scans >= ".to_owned();
                push_signed(&mut line, cutoff);
                line.append("; ");
                push_number(&mut line, b.changes);
                line.append(" change row(s), ");
                push_number(&mut line, b.files);
                line.append(" dead file row(s)");
                push_either(&mut line, apply, " removed", " prunable");
                total = total + b.total();
                line
            },
        };
        say(&mut out, line);
        i = i + 1;
    }
    assert(bases@.take(i as int) =~= bases@);
    if bases.len() == 0 {
        say(&mut out, "no bases in this database".to_owned());
    }
    if total == 0 {
        say(&mut out, "nothing to do".to_owned());
    } else if apply {
        let mut line = "removed ".to_owned();
        push_number(&mut line, total);
        line.append(
            " row(s). The file will not shrink — freed pages are reused, so it stops growing.\n  to reclaim the bytes: sqlite3 ",
        );
        line.append(db_path);
        line.append(" \"VACUUM INTO 'new.sqlite3'\" then swap it in");
        say(&mut out, line);
    } else {
        say(&mut out, "preview only — rerun with --apply to delete".to_owned());
    }
    out
}

/// The command line knows these four forms, to the letter, and no other.
pub proof fn law_the_four_commands(args: Seq<Seq<char>>)
    ensures
        (asked(args) matches Some(CommandView::Ingest(base)) && base == args[1]) <==> args.len()
            == 2 && args[0] == "ingest"@,
        asked(args) == Some(CommandView::Status) <==> args.len() == 1 && args[0] == "status"@,
        asked(args) == Some(CommandView::Prune { apply: false }) <==> args.len() == 2 && args[0]
            == "history"@ && args[1] == "prune"@,
        asked(args) == Some(CommandView::Prune { apply: true }) <==> args.len() == 3 && args[0]
            == "history"@ && args[1] == "prune"@ && args[2] == "--apply"@,
        asked(args) is None <==> !(args.len() == 2 && args[0] == "ingest"@) && !(args.len() == 1
            && args[0] == "status"@) && !(2 <= args.len() <= 3 && args[0] == "history"@ && args[1]
            == "prune"@ && (args.len() == 3 ==> args[2] == "--apply"@)),
{
    reveal_strlit("ingest");
    reveal_strlit("history");
    assert("ingest"@.len() == 6);
    assert("history"@.len() == 7);
}

/// A command shows in full.
pub proof fn law_commands_show_in_full(base: String, apply: bool, lines: Seq<String>)
    ensures
        Command::Ingest(base)@ == CommandView::Ingest(base@),
        Command::Status@ == CommandView::Status,
        (Command::Prune { apply })@ == (CommandView::Prune { apply }),
        texts(lines).len() == lines.len(),
        forall|i: int| 0 <= i < lines.len() ==> #[trigger] texts(lines)[i] == lines[i]@,
{
}

/// A report says of every scan, line by line: the base, the database, the scan with
/// how it began and ended, the workers, the files staged, the bytes discovered, what
/// was read and reused; what was left out, where anything was; and the problems, the
/// free space and the time taken.
pub proof fn law_report_of_every_scan(
    db_path: Seq<char>,
    base: Seq<char>,
    c: Config,
    o: Outcome,
    elapsed: Seq<char>,
)
    ensures
        ({
            let r = reported(db_path, base, c, o, elapsed);
            let left_out = o.excluded_hidden > 0 || o.excluded_mount > 0 || o.excluded_symlink > 0;
            let k: int = if left_out {
                8
            } else {
                7
            };
            &&& r.len() >= k + 3
            &&& r[0] == "base    "@ + base
            &&& r[1] == "db      "@ + db_path
            &&& r[2] == "scan    "@ + signed_decimal(o.scan_id as int) + (if o.status@
                == "complete"@ {
                if o.resumed {
                    "  (resumed)"@
                } else {
                    "  (fresh)"@
                }
            } else {
                (if o.resumed {
                    "  (resumed, "@
                } else {
                    "  ("@
                }) + o.status@ + ", not promoted)"@
            })
            &&& r[3] == "workers "@ + decimal(c.workers as nat) + "  batch "@ + decimal(
                c.writer_batch_rows as nat,
            )
            &&& r[4] == "files   "@ + decimal(o.staged as nat)
            &&& r[5] == "bytes   "@ + human_text(o.discovered_bytes as nat)
            &&& r[6] == "hashed  "@ + decimal(o.hashed as nat) + " ("@ + human_text(
                o.hashed_bytes as nat,
            ) + ")  reused "@ + decimal(o.reused_baseline as nat) + " baseline, "@ + decimal(
                o.reused_stage as nat,
            ) + " staged"@
            &&& left_out ==> r[7] == "skipped "@ + decimal(o.excluded_hidden as nat) + " hidden, "@
                + decimal(o.excluded_mount as nat) + " mount, "@ + decimal(
                o.excluded_symlink as nat,
            ) + " symlink"@
            &&& r[k] == "errors  "@ + decimal(o.errors as nat)
            &&& r[k + 1] == "free    "@ + human_text(o.free_before as nat) + " at start, "@
                + human_text(o.required_free as nat) + " must stay free — "@ + o.estimate_source@
            &&& r[k + 2] == "elapsed "@ + elapsed
        }),
{
}

/// After that, a report of a promoted scan says what changed and what is present;
/// then what was pruned, what could not be read, and what was never listed, each where
/// there is anything to say.
pub proof fn law_report_of_a_promoted_scan(
    db_path: Seq<char>,
    base: Seq<char>,
    c: Config,
    o: Outcome,
    elapsed: Seq<char>,
)
    requires
        o.status@ == "complete"@,
    ensures
        ({
            let r = reported(db_path, base, c, o, elapsed);
            let left_out = o.excluded_hidden > 0 || o.excluded_mount > 0 || o.excluded_symlink > 0;
            let a: int = if left_out {
                11
            } else {
                10
            };
            let pruned = o.pruned_changes > 0 || o.pruned_files > 0;
            let b: int = if pruned {
                a + 3
            } else {
                a + 2
            };
            let d: int = if o.unreadable_paths > 0 {
                b + 2
            } else {
                b
            };
            &&& r[a] == "added "@ + decimal(o.added as nat) + "  updated "@ + decimal(
                o.updated as nat,
            ) + "  deleted "@ + decimal(o.deleted as nat) + "  unchanged "@ + decimal(
                o.unchanged as nat,
            )
            &&& r[a + 1] == "present "@ + decimal(o.present as nat)
            &&& pruned ==> r[a + 2] == "pruned  "@ + decimal(o.pruned_changes as nat)
                + " change row(s), "@ + decimal(o.pruned_files as nat)
                + " dead file row(s) (history.keep_scans = "@ + decimal(c.keep_scans as nat) + ")"@
            &&& o.unreadable_paths > 0 ==> r[b] == "unreadable "@ + decimal(
                o.unreadable_paths as nat,
            ) + " path(s) could not be read; "@ + decimal(o.unreadable as nat)
                + " file row(s) held as 'unreadable'"@
            &&& o.unreadable_paths > 0 ==> r[b + 1]
                == "  see: SELECT relative_path, error_code, message FROM scan_errors WHERE scan_id = "@
                + signed_decimal(o.scan_id as int) + ";"@
            &&& o.unreadable_dirs > 0 ==> r[d] == "incomplete: "@ + decimal(
                o.unreadable_dirs as nat,
            )
                + " director(ies) could not be listed; what lies below is NOT catalogued, and known rows there are held, not deleted (exit 7)"@
            &&& r.len() == (if o.unreadable_dirs > 0 {
                d + 1
            } else {
                d
            })
        }),
{
}

/// After that, a report of a scan that was not promoted says what stopped it, that
/// the baseline is unchanged, and where its problems are to be found, if it met any.
pub proof fn law_report_of_an_unpromoted_scan(
    db_path: Seq<char>,
    base: Seq<char>,
    c: Config,
    o: Outcome,
    elapsed: Seq<char>,
)
    requires
        o.status@ != "complete"@,
    ensures
        ({
            let r = reported(db_path, base, c, o, elapsed);
            let left_out = o.excluded_hidden > 0 || o.excluded_mount > 0 || o.excluded_symlink > 0;
            let a: int = if left_out {
                11
            } else {
                10
            };
            let b: int = if o.low_space {
                a + 1
            } else {
                a
            };
            let d: int = if o.base_unreadable {
                b + 1
            } else {
                b
            };
            &&& o.low_space ==> r[a] == "stopped: reached the "@ + human_text(
                o.required_free as nat,
            ) + " free-space floor — free some space, then rerun"@
            &&& o.base_unreadable ==> r[b]
                == "stopped: could not read the base itself — every path in the baseline depends on it, so nothing was promoted"@
            &&& r[d] == "baseline unchanged; rerun `ingest` on the same path to resume"@
            &&& o.errors > 0 ==> r[d + 1]
                == "  see: SELECT stage, error_code, message FROM scan_errors WHERE scan_id = "@
                + signed_decimal(o.scan_id as int) + ";"@
            &&& r.len() == (if o.errors > 0 {
                d + 2
            } else {
                d + 1
            })
        }),
{
}

/// `status` names every place where configuration may stand, and says which are
/// empty.
pub proof fn law_every_candidate_is_named(candidates: Seq<Candidate>, c: Candidate)
    ensures
        candidate_lines(Seq::empty()) == Seq::<Seq<char>>::empty(),
        candidate_lines(candidates.push(c)).len() == candidate_lines(candidates).len() + 1,
        candidate_lines(candidates.push(c)).drop_last() == candidate_lines(candidates),
        c.exists ==> candidate_lines(candidates.push(c)).last() == "config  "@ + c.path@,
        !c.exists ==> candidate_lines(candidates.push(c)).last() == "config  "@ + c.path@
            + "  (absent)"@,
{
    assert(candidates.push(c).drop_last() =~= candidates);
    assert(candidate_lines(candidates.push(c)).drop_last() =~= candidate_lines(candidates));
    reveal_strlit("");
    assert("config  "@ + c.path@ + ""@ =~= "config  "@ + c.path@);
}

/// After the places, `status` tells the policy and the limits in force.
pub proof fn law_settings_in_force_are_told(candidates: Seq<Candidate>, c: Config)
    ensures
        ({
            let r = settings_told(candidates, c);
            let n = candidate_lines(candidates).len() as int;
            &&& r.len() == n + 2
            &&& r.take(n) == candidate_lines(candidates)
            &&& r[n] == "policy  hidden "@ + (if c.skip_hidden {
                "skip"@
            } else {
                "include"@
            }) + "  mounts "@ + (if c.skip_mount_boundaries {
                "skip"@
            } else {
                "cross"@
            }) + "  symlinks "@ + (if c.follow_symlinks {
                "follow"@
            } else {
                "skip"@
            })
            &&& r[n + 1] == "limits  free floor "@ + human_text(
                (c.minimum_free_space_mib * 1048576) as nat,
            ) + "  keep_scans "@ + (if c.keep_scans == 0 {
                "unbounded"@
            } else {
                decimal(c.keep_scans as nat)
            })
        }),
{
    let r = settings_told(candidates, c);
    assert(r.take(candidate_lines(candidates).len() as int) =~= candidate_lines(candidates));
}

/// A read-only command without a database says how one comes about.
pub proof fn law_no_database_is_told()
    ensures
        no_database_told() == "db      none yet — `ingest <base-path>` creates one"@,
{
}

/// The settings in which two policies differ are named, in order, with commas between
/// them.
pub proof fn law_differences_are_named(stored: Policy, configured: Policy)
    ensures
        ({
            let d = differing(stored, configured);
            &&& d.contains("skip_hidden"@) <==> stored.skip_hidden != configured.skip_hidden
            &&& d.contains("skip_mount_boundaries"@) <==> stored.skip_mount_boundaries
                != configured.skip_mount_boundaries
            &&& d.contains("follow_symlinks"@) <==> stored.follow_symlinks
                != configured.follow_symlinks
            &&& d.len() == (if stored.skip_hidden != configured.skip_hidden {
                1int
            } else {
                0
            }) + (if stored.skip_mount_boundaries != configured.skip_mount_boundaries {
                1int
            } else {
                0
            }) + (if stored.follow_symlinks != configured.follow_symlinks {
                1int
            } else {
                0
            })
            &&& stored.skip_hidden != configured.skip_hidden ==> d[0] == "skip_hidden"@
            &&& stored.follow_symlinks != configured.follow_symlinks ==> d.last()
                == "follow_symlinks"@
        }),
{
    reveal_strlit("skip_hidden");
    reveal_strlit("skip_mount_boundaries");
    reveal_strlit("follow_symlinks");
    assert("skip_hidden"@.len() == 11);
    assert("skip_mount_boundaries"@.len() == 21);
    assert("follow_symlinks"@.len() == 15);
    let d = differing(stored, configured);
    let hidden = stored.skip_hidden != configured.skip_hidden;
    let mounts = stored.skip_mount_boundaries != configured.skip_mount_boundaries;
    let links = stored.follow_symlinks != configured.follow_symlinks;
    if hidden {
        assert(d[0] == "skip_hidden"@);
    }
    if mounts {
        assert(d[if hidden {
            1int
        } else {
            0
        }] == "skip_mount_boundaries"@);
    }
    if links {
        assert(d[d.len() - 1] == "follow_symlinks"@);
    }
    assert(forall|i: int|
        0 <= i < d.len() ==> (#[trigger] d[i] == "skip_hidden"@ && hidden) || (d[i]
            == "skip_mount_boundaries"@ && mounts) || (d[i] == "follow_symlinks"@ && links));
}

/// A list of names puts a comma and a space before each but the first.
pub proof fn law_lists_put_commas_between(names: Seq<Seq<char>>, name: Seq<char>)
    ensures
        listed(Seq::empty()) == Seq::<char>::empty(),
        listed(seq![name]) == name,
        names.len() > 0 ==> listed(names.push(name)) == listed(names) + ", "@ + name,
{
    assert(names.push(name).drop_last() =~= names);
}

/// `status` says of a base where it is, what its baseline is, which scan is to be
/// continued, and, exactly when the policies differ, that a scan will be refused.
pub proof fn law_a_base_is_told(b: BaseStatus, configured: Policy)
    ensures
        ({
            let r = base_told(b, configured);
            &&& r[0] == "base    "@ + b.base_path@
            &&& (b.scan_id is Some && b.finished is Some) ==> r[1] == "  baseline  scan "@
                + signed_decimal(b.scan_id->0 as int) + ", "@ + (b.finished->0)@ + " ago, "@
                + signed_decimal(
                if b.present is Some {
                    b.present->0 as int
                } else {
                    0
                },
            ) + " file(s) present"@
            &&& !(b.scan_id is Some && b.finished is Some) ==> r[1]
                == "  baseline  none — no scan has completed yet"@
            &&& b.resumable is None ==> r[2] == "  resumable none"@
            &&& b.resumable matches Some(row) ==> r[2] == "  resumable scan "@ + signed_decimal(
                row.scan_id as int,
            ) + " ("@ + row.status.word() + ", started "@ + b.started@ + " ago) — `ingest "@
                + b.base_path@ + "` continues it"@
            &&& b.policy == configured ==> r.len() == 3
            &&& b.policy != configured ==> r.len() == 4 && r[3] == "  POLICY    "@ + listed(
                differing(b.policy, configured),
            ) + " differ(s) from this baseline; `ingest` will refuse (exit 6)"@
        }),
{
    law_status_mirrors_the_refusal(b.policy, configured);
}

/// `status` says of a database where it is, who is writing to it, if anyone alive is,
/// and then tells every base, or that there is none.
pub proof fn law_a_database_is_told(d: DatabaseStatus, configured: Policy)
    ensures
        ({
            let r = database_told(d, configured);
            let busy = d.writer is Some && d.alive;
            let head = if busy {
                seq![
                    "db      "@ + d.path@,
                    "writer  pid "@ + signed_decimal(d.writer->0 as int) + " holds the write lock"@,
                ]
            } else {
                seq!["db      "@ + d.path@]
            };
            &&& d.bases@.len() == 0 ==> r == head + seq![
                "no bases yet — `ingest <base-path>` creates one"@,
            ]
            &&& d.bases@.len() > 0 ==> r == every_base_told(head, d.bases@, configured)
        }),
{
    let r = database_told(d, configured);
    let l = Seq::<Seq<char>>::empty().push("db      "@ + d.path@);
    assert(l =~= seq!["db      "@ + d.path@]);
    if d.writer is Some && d.alive {
        let line = "writer  pid "@ + signed_decimal(d.writer->0 as int) + " holds the write lock"@;
        assert(l.push(line) =~= seq!["db      "@ + d.path@, line]);
    }
    if d.bases@.len() == 0 {
        let busy = d.writer is Some && d.alive;
        let head = if busy {
            seq![
                "db      "@ + d.path@,
                "writer  pid "@ + signed_decimal(d.writer->0 as int) + " holds the write lock"@,
            ]
        } else {
            seq!["db      "@ + d.path@]
        };
        assert(r =~= head + seq!["no bases yet — `ingest <base-path>` creates one"@]);
    }
}

/// Bases are told one after the other.
pub proof fn law_bases_are_told_one_after_the_other(
    l: Seq<Seq<char>>,
    bases: Seq<BaseStatus>,
    b: BaseStatus,
    configured: Policy,
)
    ensures
        every_base_told(l, Seq::empty(), configured) == l,
        every_base_told(l, bases.push(b), configured) == every_base_told(l, bases, configured)
            + base_told(b, configured),
{
    assert(bases.push(b).drop_last() =~= bases);
}

/// What pruning touches is counted base by base, where there is a cutoff.
pub proof fn law_pruned_rows_are_counted_base_by_base(bases: Seq<BasePrune>, b: BasePrune)
    ensures
        pruned_total(Seq::empty()) == 0,
        b.cutoff is Some ==> pruned_total(bases.push(b)) == pruned_total(bases) + b.changes
            + b.files,
        b.cutoff is None ==> pruned_total(bases.push(b)) == pruned_total(bases),
{
    assert(bases.push(b).drop_last() =~= bases);
}

/// Pruning tells each base with its own line: that its window is not full yet, or
/// which scans are kept and how many rows went, or would go.
pub proof fn law_each_base_has_its_line(bases: Seq<BasePrune>, b: BasePrune, keep: u64, apply: bool)
    ensures
        bases_told(Seq::empty(), keep, apply) == Seq::<Seq<char>>::empty(),
        bases_told(bases.push(b), keep, apply) == bases_told(bases, keep, apply) + seq![
            "base    "@ + b.base_path@,
            prune_line(b, keep, apply),
        ],
        b.cutoff is None ==> prune_line(b, keep, apply) == "  fewer than "@ + decimal(keep as nat)
            + " complete scans — nothing has aged out yet"@,
        b.cutoff matches Some(cutoff) ==> prune_line(b, keep, apply) == "  keeping scans >= "@
            + signed_decimal(cutoff as int) + "; "@ + decimal(b.changes as nat)
            + " change row(s), "@ + decimal(b.files as nat) + " dead file row(s)"@ + (if apply {
            " removed"@
        } else {
            " prunable"@
        }),
{
    assert(bases.push(b).drop_last() =~= bases);
    assert(bases_told(bases.push(b), keep, apply) =~= bases_told(bases, keep, apply) + seq![
        "base    "@ + b.base_path@,
        prune_line(b, keep, apply),
    ]);
}

/// Pruning begins with the database and the window, and how to set one where there
/// is none.
pub proof fn law_the_window_is_told(db_path: Seq<char>, keep: u64)
    ensures
        policy_told(db_path, keep)[0] == "db      "@ + db_path,
        keep == 0 ==> policy_told(db_path, keep).len() == 3 && policy_told(db_path, keep)[1]
            == "policy  history.keep_scans = 0 — history is kept forever, nothing to prune"@
            && policy_told(db_path, keep)[2]
            == "  set [history] keep_scans = N in the configuration file to bound it"@,
        keep > 0 ==> policy_told(db_path, keep).len() == 2 && policy_told(db_path, keep)[1]
            == "policy  history.keep_scans = "@ + decimal(keep as nat),
{
}

/// Pruning ends by saying that there was nothing to do, how many rows went, or that it
/// was only a preview.
pub proof fn law_pruning_ends_with_what_it_did(
    db_path: Seq<char>,
    bases: Seq<BasePrune>,
    keep: u64,
    apply: bool,
)
    ensures
        ({
            let r = pruning_told(db_path, bases, keep, apply);
            let total = pruned_total(bases);
            let told = bases_told(bases, keep, apply);
            &&& bases.len() > 0 ==> r.drop_last() == told
            &&& bases.len() == 0 ==> r.drop_last() == seq!["no bases in this database"@]
            &&& total == 0 ==> r.last() == "nothing to do"@
            &&& total > 0 && !apply ==> r.last() == "preview only — rerun with --apply to delete"@
            &&& total > 0 && apply ==> r.last() == "removed "@ + decimal(total)
                + " row(s). The file will not shrink — freed pages are reused, so it stops growing.\n  to reclaim the bytes: sqlite3 "@
                + db_path + " \"VACUUM INTO 'new.sqlite3'\" then swap it in"@
        }),
{
    let r = pruning_told(db_path, bases, keep, apply);
    let told = bases_told(bases, keep, apply);
    if bases.len() == 0 {
        assert(r.drop_last() =~= seq!["no bases in this database"@]);
    } else {
        assert(r.drop_last() =~= told);
    }
}

} // verus!
