//! Which database a command uses, whether it may, and the single-writer guard.

use vstd::prelude::*;
use vstd::string::*;

use crate::error::{AppError, EXIT_BUSY, EXIT_CONFIG};
use crate::text::{push_signed, same_text, signed_decimal};

verus! {

pub const CWD_DB: &'static str = "metainjester.sqlite3";
pub const APPLICATION_ID: &'static str = "metainjester";
pub const SCHEMA_VERSION: &'static str = "2";

/// Whose a database is.
#[derive(Debug)]
pub enum Ownership {
    Ours,
    /// It carries no mark. Only an empty one may be adopted.
    Empty,
    /// It carries another application's mark.
    Foreign(String),
}

/// What a database file says of itself.
#[derive(Debug)]
pub struct Contents {
    /// Whether the table of marks is there.
    pub has_metadata: bool,
    /// The application's mark, where that table holds one.
    pub application_id: Option<String>,
    /// How many tables, indexes and views there are.
    pub objects: i64,
}

/// Marked as ours.
pub open spec fn is_ours(c: Contents) -> bool {
    c.has_metadata && (c.application_id matches Some(id) && id@ == "metainjester"@)
}

/// Marked as another application's, with this mark.
pub open spec fn foreign_mark(c: Contents) -> Option<Seq<char>> {
    match c.application_id {
        Some(id) => if c.has_metadata && id@ != "metainjester"@ {
            Some(id@)
        } else {
            None
        },
        None => None,
    }
}

/// Holds nothing at all, so that it is ours to initialise.
pub open spec fn is_blank(c: Contents) -> bool {
    !is_ours(c) && foreign_mark(c) is None && c.objects == 0
}

pub fn ownership(c: &Contents) -> (r: Ownership)
    ensures
        match r {
            Ownership::Ours => is_ours(*c),
            Ownership::Foreign(id) => foreign_mark(*c) == Some(id@),
            Ownership::Empty => !is_ours(*c) && foreign_mark(*c) is None,
        },
{
    if !c.has_metadata {
        return Ownership::Empty;
    }
    match &c.application_id {
        Some(id) => if same_text(id.as_str(), APPLICATION_ID) {
            Ownership::Ours
        } else {
            Ownership::Foreign(id.clone())
        },
        None => Ownership::Empty,
    }
}

/// `format!` of a string under `{:?}`: the text quoted, with escapes, as the
/// standard library writes it.
pub uninterp spec fn quoted(s: Seq<char>) -> Seq<char>;

/// Quotes a text with `format!` under `{:?}`. What the quoted text looks like is
/// left to the standard library.
#[verifier::external_body]
fn quote(s: &str) -> (r: String)
    ensures
        r@ == quoted(s@),
{
    format!("{:?}", s)
}

/// The refusal of a database that carries another application's mark, which is
/// given quoted.
pub open spec fn foreign_text(path: Seq<char>, mark: Seq<char>) -> Seq<char> {
    path + " is not a metainjester database (application_id = "@ + mark + ")"@
}

pub fn foreign_database(path: &str, mark: &str) -> (r: AppError)
    ensures
        r.code == EXIT_CONFIG,
        r.message@ == foreign_text(path@, mark@),
{
    let mut m = path.to_owned();
    m.append(" is not a metainjester database (application_id = ");
    m.append(mark);
    m.append(")");
    AppError::config(m.as_str())
}

/// The refusal of a database that is not ours.
pub open spec fn refused(e: AppError, path: Seq<char>) -> bool {
    e.code == EXIT_CONFIG && e.message@ == path
        + " exists but is not a metainjester database; refusing to touch it"@
}

/// The database a writing command uses.
#[derive(Debug)]
pub struct Opened {
    pub path: String,
    /// It is blank: create the tables and put our mark on it.
    pub initialise: bool,
}

/// Chooses the database to write to. One in the working directory wins, but only
/// if it is ours or blank: another is an error, never silently adopted. Without
/// one, the configured file is used, and created where there is none.
///
/// `here` and `there` are what the two files say of themselves, where they exist.
pub fn discover(
    cwd_db: &str,
    here: Option<&Contents>,
    configured: &str,
    there: Option<&Contents>,
) -> (r: Result<Opened, AppError>)
    ensures
        match here {
            Some(c) => match r {
                Ok(o) => o.path@ == cwd_db@ && (is_ours(*c) || is_blank(*c)) && o.initialise
                    == is_blank(*c),
                Err(e) => {
                    &&& !is_ours(*c) && !is_blank(*c)
                    &&& match foreign_mark(*c) {
                        Some(id) => e.code == EXIT_CONFIG && e.message@ == foreign_text(
                            cwd_db@,
                            quoted(id),
                        ),
                        None => refused(e, cwd_db@),
                    }
                },
            },
            None => match (r, there) {
                (Ok(o), None) => o.path@ == configured@ && o.initialise,
                (Ok(o), Some(c)) => o.path@ == configured@ && (is_ours(*c) || is_blank(*c))
                    && o.initialise == is_blank(*c),
                (Err(e), Some(c)) => !is_ours(*c) && !is_blank(*c) && refused(e, configured@),
                (Err(_), None) => false,
            },
        },
{
    if let Some(c) = here {
        return match ownership(c) {
            Ownership::Ours => Ok(Opened { path: cwd_db.to_owned(), initialise: false }),
            Ownership::Empty => if c.objects == 0 {
                Ok(Opened { path: cwd_db.to_owned(), initialise: true })
            } else {
                Err(AppError::not_ours(cwd_db))
            },
            Ownership::Foreign(id) => {
                let mark = quote(id.as_str());
                Err(foreign_database(cwd_db, mark.as_str()))
            },
        };
    }
    match there {
        None => Ok(Opened { path: configured.to_owned(), initialise: true }),
        Some(c) => match ownership(c) {
            Ownership::Ours => Ok(Opened { path: configured.to_owned(), initialise: false }),
            Ownership::Empty => if c.objects == 0 {
                Ok(Opened { path: configured.to_owned(), initialise: true })
            } else {
                Err(AppError::not_ours(configured))
            },
            Ownership::Foreign(_) => Err(AppError::not_ours(configured)),
        },
    }
}

/// The database a read-only command uses, where there is one. It brings none into
/// existence.
pub fn existing_path(
    cwd_db: &str,
    here: bool,
    configured: &str,
    there: bool,
) -> (r: Option<String>)
    ensures
        match r {
            Some(p) => if here {
                p@ == cwd_db@
            } else {
                there && p@ == configured@
            },
            None => !here && !there,
        },
{
    if here {
        Some(cwd_db.to_owned())
    } else if there {
        Some(configured.to_owned())
    } else {
        None
    }
}

/// Accepts an existing database for a command that promises not to write.
pub fn open_readonly(path: &str, c: &Contents) -> (r: Result<(), AppError>)
    ensures
        match r {
            Ok(_) => is_ours(*c),
            Err(e) => !is_ours(*c) && if is_blank(*c) {
                e.code == EXIT_CONFIG && e.message@ == path@
                    + " is empty — `ingest <base-path>` initialises it"@
            } else {
                refused(e, path@)
            },
        },
{
    match ownership(c) {
        Ownership::Ours => Ok(()),
        Ownership::Empty => if c.objects == 0 {
            let mut m = path.to_owned();
            m.append(" is empty — `ingest <base-path>` initialises it");
            Err(AppError::config(m.as_str()))
        } else {
            Err(AppError::not_ours(path))
        },
        Ownership::Foreign(_) => Err(AppError::not_ours(path)),
    }
}

/// A database of another schema version, which has to be made anew.
pub open spec fn outdated(e: AppError, version: Seq<char>, path: Seq<char>) -> bool {
    e.code == EXIT_CONFIG && e.message@ == "database schema_version is "@ + version
        + ", this build needs "@ + "2"@
        + ".\n  this POC has no migrations yet — delete the database and ingest again:\n  rm "@
        + path + "*"@
}

fn outdated_schema(version: &str, path: &str) -> (e: AppError)
    ensures
        outdated(e, version@, path@),
{
    let mut m = "database schema_version is ".to_owned();
    m.append(version);
    m.append(", this build needs ");
    m.append(SCHEMA_VERSION);
    m.append(
        ".\n  this POC has no migrations yet — delete the database and ingest again:\n  rm ",
    );
    m.append(path);
    m.append("*");
    AppError::config(m.as_str())
}

/// Checks the version a database is stamped with, before writing to it. `true`
/// means that it carries none and is to be stamped.
pub fn ensure_schema(version: Option<&str>, path: &str) -> (r: Result<bool, AppError>)
    ensures
        match version {
            None => r == Ok::<bool, AppError>(true),
            Some(v) => match r {
                Ok(stamp) => v@ == "2"@ && !stamp,
                Err(e) => v@ != "2"@ && outdated(e, v@, path@),
            },
        },
{
    match version {
        None => Ok(true),
        Some(v) => if same_text(v, SCHEMA_VERSION) {
            Ok(false)
        } else {
            Err(outdated_schema(v, path))
        },
    }
}

/// Checks the version without stamping anything: a database that carries none is
/// accepted as it is.
pub fn check_schema(version: Option<&str>, path: &str) -> (r: Result<(), AppError>)
    ensures
        match (version, r) {
            (None, Ok(_)) => true,
            (Some(v), Ok(_)) => v@ == "2"@,
            (Some(v), Err(e)) => v@ != "2"@ && outdated(e, v@, path@),
            (None, Err(_)) => false,
        },
{
    match version {
        None => Ok(()),
        Some(v) => if same_text(v, SCHEMA_VERSION) {
            Ok(())
        } else {
            Err(outdated_schema(v, path))
        },
    }
}

/// Another process that is alive holds the lock.
pub open spec fn locked_out(lock: Option<i64>, pid: i64, alive: bool) -> bool {
    lock matches Some(other) && other != pid && alive
}

/// Takes the writer lock for `pid`. `alive` says whether the holder's process is:
/// a lock left by a process that is gone is reclaimed, so a crash never wedges the
/// database.
pub fn acquire_writer_lock(lock: &mut Option<i64>, pid: i64, alive: bool) -> (r: Result<
    (),
    AppError,
>)
    ensures
        match r {
            Ok(_) => !locked_out(*old(lock), pid, alive) && *final(lock) == Some(pid),
            Err(e) => {
                &&& locked_out(*old(lock), pid, alive)
                &&& *final(lock) == *old(lock)
                &&& e.code == EXIT_BUSY
                &&& e.message@ == "database is busy: another metainjester (pid "@ + signed_decimal(
                    old(lock)->0 as int,
                ) + ") is writing"@
            },
        },
{
    if let Some(other) = *lock {
        if other != pid && alive {
            return Err(AppError::busy(other));
        }
    }
    *lock = Some(pid);
    Ok(())
}

/// Gives the writer lock back, if `pid` holds it.
pub fn release_writer_lock(lock: &mut Option<i64>, pid: i64)
    ensures
        *final(lock) == (if *old(lock) == Some(pid) {
            None
        } else {
            *old(lock)
        }),
{
    if let Some(holder) = *lock {
        if holder == pid {
            *lock = None;
        }
    }
}

/// The entry whose existence means that a process is alive.
pub fn proc_entry(pid: i64) -> (r: String)
    ensures
        r@ == "/proc/"@ + signed_decimal(pid as int),
{
    let mut s = "/proc/".to_owned();
    push_signed(&mut s, pid);
    s
}

/// While one process holds the lock, every other is locked out for as long as the
/// first is alive, and none is once it is gone.
pub proof fn law_one_writer(holder: i64, pid: i64)
    ensures
        locked_out(Some(holder), pid, true) <==> holder != pid,
        !locked_out(Some(holder), pid, false),
        !locked_out(None, pid, true),
{
}

/// A database is ours, blank, or refused; never two of these at once.
pub proof fn law_only_blank_databases_are_adopted(c: Contents)
    ensures
        !(is_ours(c) && is_blank(c)),
        is_blank(c) ==> c.objects == 0 && foreign_mark(c) is None,
{
}

/// A database is ours exactly when its table of marks holds our mark. One with
/// another mark is foreign, whatever else it holds. One without a mark is blank where
/// it holds nothing.
pub proof fn law_whose_a_database_is(c: Contents)
    ensures
        is_ours(c) <==> c.has_metadata && (c.application_id matches Some(id) && id@
            == "metainjester"@),
        foreign_mark(c) is Some <==> c.has_metadata && (c.application_id matches Some(id) && id@
            != "metainjester"@),
        foreign_mark(c) matches Some(mark) ==> mark == (c.application_id->0)@,
        is_blank(c) <==> c.objects == 0 && !(c.has_metadata && c.application_id is Some),
{
}

/// Refusals name the file, and the mark or the version that they are about.
pub proof fn law_refusals_name_the_file(
    e: AppError,
    path: Seq<char>,
    mark: Seq<char>,
    version: Seq<char>,
)
    ensures
        foreign_text(path, mark) == path + " is not a metainjester database (application_id = "@
            + mark + ")"@,
        refused(e, path) <==> e.code == 3 && e.message@ == path
            + " exists but is not a metainjester database; refusing to touch it"@,
        outdated(e, version, path) <==> e.code == 3 && e.message@ == "database schema_version is "@
            + version + ", this build needs "@ + "2"@
            + ".\n  this POC has no migrations yet — delete the database and ingest again:\n  rm "@
            + path + "*"@,
{
}

/// The names that this build goes by.
pub proof fn law_names_of_this_build()
    ensures
        CWD_DB@ == "metainjester.sqlite3"@,
        APPLICATION_ID@ == "metainjester"@,
        SCHEMA_VERSION@ == "2"@,
{
}

} // verus!
