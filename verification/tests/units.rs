//! Single functions on concrete values.

use metainjester::error::{
    human, AppError, EXIT_BUSY, EXIT_CONFIG, EXIT_ERROR, EXIT_NO_SPACE, EXIT_POLICY, EXIT_USAGE,
};
use metainjester::hash::ContentHasher;
use metainjester::names::{helpers, take_apart, with_mime};
use metainjester::stage::truncate;
use metainjester::text::{number, push_signed};
use metainjester::walk::{
    error_code, is_unreadable_code, system_time_ns, FailureKind, IoFailure, UNREADABLE_CODES,
};

fn err(raw: i32) -> IoFailure {
    let e = std::io::Error::from_raw_os_error(raw);
    IoFailure {
        raw_os_error: e.raw_os_error(),
        kind: match e.kind() {
            std::io::ErrorKind::NotFound => FailureKind::NotFound,
            std::io::ErrorKind::PermissionDenied => FailureKind::PermissionDenied,
            std::io::ErrorKind::InvalidData => FailureKind::InvalidData,
            _ => FailureKind::Other,
        },
        message: e.to_string(),
    }
}

#[test]
fn descriptor_exhaustion_has_its_own_code() {
    let mfile = rustix::io::Errno::MFILE.raw_os_error();
    let nfile = rustix::io::Errno::NFILE.raw_os_error();
    assert_eq!(error_code(&err(mfile)), "resource_exhausted");
    assert_eq!(error_code(&err(nfile)), "resource_exhausted");
}

/// Running out of descriptors leaves a directory's contents just as unknown
/// as a permission denial does, so it must shield the baseline beneath it.
#[test]
fn every_unknown_contents_code_shields() {
    assert!(UNREADABLE_CODES.contains(&"resource_exhausted"));
    assert!(UNREADABLE_CODES.contains(&"permission_denied"));
    assert!(UNREADABLE_CODES.contains(&"io_error"));
    assert!(UNREADABLE_CODES.contains(&"invalid_data"));
    // A path that merely vanished is not in doubt and must never shield.
    assert!(!UNREADABLE_CODES.contains(&"not_found"));
    for code in UNREADABLE_CODES {
        assert!(is_unreadable_code(code));
    }
    assert!(!is_unreadable_code("not_found"));
    assert!(!is_unreadable_code(""));
}

#[test]
fn vanished_and_denied_keep_their_own_codes() {
    let denied = rustix::io::Errno::ACCESS.raw_os_error();
    let missing = rustix::io::Errno::NOENT.raw_os_error();
    assert_eq!(error_code(&err(denied)), "permission_denied");
    assert_eq!(error_code(&err(missing)), "not_found");
}

#[test]
fn other_failures_have_codes_too() {
    assert_eq!(error_code(&err(rustix::io::Errno::IO.raw_os_error())), "io_error");
    let bad = IoFailure {
        raw_os_error: None,
        kind: FailureKind::InvalidData,
        message: "bad".to_string(),
    };
    assert_eq!(error_code(&bad), "invalid_data");
}

#[test]
fn helpers_split_parent_from_name() {
    let h = helpers(b"a/b/c.txt");
    assert_eq!(h.parent.as_deref(), Some("a/b"));
    assert_eq!(h.name, "c.txt");
    assert_eq!(h.extension.as_deref(), Some("txt"));

    let top = helpers(b"c.txt");
    assert_eq!(top.parent, None);
    assert_eq!(top.name, "c.txt");
}

/// `Path::extension` semantics, which the helper columns have to match or a
/// query on `extension` disagrees with the MIME guess beside it.
#[test]
fn extension_follows_path_semantics() {
    assert_eq!(helpers(b".bashrc").extension, None, "leading dot is a stem");
    assert_eq!(helpers(b"trailing.").extension, None, "trailing dot is not an extension");
    assert_eq!(helpers(b"none").extension, None);
    assert_eq!(helpers(b"a.TXT").extension.as_deref(), Some("txt"), "lowercased");
    assert_eq!(helpers(b"a.tar.gz").extension.as_deref(), Some("gz"));
}

#[test]
fn mime_comes_from_extension_only() {
    let h = helpers(b"x/y.png");
    assert_eq!(h.mime_type.as_deref(), Some("image/png"));
    assert_eq!(h.mime_source, "extension");

    let unknown = helpers(b"x/y.zzzzz");
    assert_eq!(unknown.mime_type, None);
    assert_eq!(unknown.mime_source, "unknown");
}

/// The path is kept as bytes; the helper columns are a lossy convenience.
/// A name that is not valid UTF-8 must still produce usable helpers rather
/// than panicking or dropping the row.
#[test]
fn helpers_survive_non_utf8_names() {
    let h = helpers(b"dir/bad\xff.txt");
    assert_eq!(h.parent.as_deref(), Some("dir"));
    assert!(h.name.ends_with(".txt"));
    assert_eq!(h.extension.as_deref(), Some("txt"));
    assert_eq!(h.name, "bad\u{fffd}.txt");
}

#[test]
fn a_name_without_extension_has_no_mime_type() {
    let parts = take_apart("bin/tool");
    assert_eq!(parts.parent.as_deref(), Some("bin"));
    assert_eq!(parts.name, "tool");
    assert_eq!(parts.extension, None);
    let h = with_mime(parts, None);
    assert_eq!(h.mime_source, "unknown");
}

#[test]
fn digests_are_those_of_sha256() {
    let hex = |d: Vec<u8>| d.iter().map(|b| format!("{b:02x}")).collect::<Vec<_>>().concat();
    let mut h = ContentHasher::new();
    h.update(b"abc");
    assert_eq!(
        hex(h.finish()),
        "ba7816bf8f01cfea414140de5dae2223b00361a396177a9cb410ff61f20015ad"
    );
    assert_eq!(
        hex(ContentHasher::new().finish()),
        "e3b0c44298fc1c149afbf4c8996fb92427ae41e4649b934ca495991b7852b855"
    );
}

#[test]
fn a_digest_does_not_depend_on_the_pieces() {
    let body: Vec<u8> = (0..1000u32).map(|i| (i % 251) as u8).collect();
    let mut whole = ContentHasher::new();
    whole.update(&body);
    let mut pieces = ContentHasher::new();
    for piece in body.chunks(37) {
        pieces.update(piece);
    }
    let digest = whole.finish();
    assert_eq!(digest.len(), 32);
    assert_eq!(digest, pieces.finish());
}

fn by_division(bytes: u64) -> String {
    const UNITS: [&str; 5] = ["B", "KiB", "MiB", "GiB", "TiB"];
    let mut value = bytes as f64;
    let mut unit = 0;
    while value >= 1024.0 && unit < UNITS.len() - 1 {
        value /= 1024.0;
        unit += 1;
    }
    if unit == 0 {
        format!("{bytes} B")
    } else {
        format!("{value:.1} {}", UNITS[unit])
    }
}

#[test]
fn sizes_read_as_floating_point_would_print_them() {
    let mut samples: Vec<u64> = vec![
        0,
        1,
        1023,
        1024,
        1025,
        1075,
        1076,
        1126,
        1152,
        1280,
        1408,
        1536,
        1_048_575,
        1_048_576,
        52_428,
        1_073_741_823,
        1_099_511_627_775,
        1_099_511_627_776,
        u64::MAX,
        u64::MAX - 1,
        9_007_199_254_740_993,
        9_007_199_254_740_992,
        18_014_398_509_481_985,
    ];
    let mut x: u64 = 0x9e37_79b9_7f4a_7c15;
    for _ in 0..20_000 {
        x ^= x << 13;
        x ^= x >> 7;
        x ^= x << 17;
        samples.push(x >> (x % 64));
    }
    // Ties: a multiple of a twentieth of the unit that a double holds exactly.
    for unit in [1024u64, 1 << 20, 1 << 30, 1 << 40] {
        for n in 0..200u64 {
            samples.push(unit + unit / 4 * n);
            samples.push(unit + unit / 64 * n);
        }
    }
    for bytes in samples {
        assert_eq!(human(bytes), by_division(bytes), "{bytes}");
    }
    assert_eq!(human(1536), "1.5 KiB");
    assert_eq!(human(1280), "1.2 KiB");
}

#[test]
fn failures_carry_their_exit_codes() {
    assert_eq!(AppError::usage("u").code, EXIT_USAGE);
    assert_eq!(AppError::config("c").code, EXIT_CONFIG);
    assert_eq!(AppError::io("i").code, EXIT_ERROR);
    let db = AppError::db("disk I/O error");
    assert_eq!((db.message.as_str(), db.code), ("database: disk I/O error", EXIT_ERROR));
    let at = AppError::db_at("/x", "denied");
    assert_eq!((at.message.as_str(), at.code), ("cannot open /x: denied", EXIT_ERROR));
    let busy = AppError::busy(-42);
    assert_eq!(
        (busy.message.as_str(), busy.code),
        ("database is busy: another metainjester (pid -42) is writing", EXIT_BUSY)
    );
    let space = AppError::no_space(1536, 500 * 1024 * 1024);
    assert_eq!(
        (space.message.as_str(), space.code),
        (
            "insufficient free space: 1.5 KiB available, 500.0 MiB must stay free \
             (storage.minimum_free_space_mib)",
            EXIT_NO_SPACE
        )
    );
    let policy = AppError::policy_mismatch("m");
    assert_eq!(policy.code, EXIT_POLICY);
    assert!(policy.message.starts_with("policy_mismatch: m\n  deletion detection"));
    let theirs = AppError::not_ours("/x");
    assert_eq!(theirs.code, EXIT_CONFIG);
    assert_eq!(
        theirs.message,
        "/x exists but is not a metainjester database; refusing to touch it"
    );
}

#[test]
fn numbers_print_in_decimal() {
    assert_eq!(number(0), "0");
    assert_eq!(number(10), "10");
    assert_eq!(number(u64::MAX), u64::MAX.to_string());
    for n in [0i64, -1, 7, i64::MIN, i64::MAX] {
        let mut s = String::new();
        push_signed(&mut s, n);
        assert_eq!(s, n.to_string());
    }
}

#[test]
fn long_messages_are_cut_at_a_character() {
    let short = "x".repeat(300);
    assert_eq!(truncate(&short), short);
    let long = "x".repeat(301);
    assert_eq!(truncate(&long), format!("{}…", "x".repeat(300)));
    // A two-byte character straddles the limit and is left out whole.
    let straddling = format!("{}é{}", "x".repeat(299), "y".repeat(20));
    assert_eq!(truncate(&straddling), format!("{}…", "x".repeat(299)));
}

#[test]
fn timestamps_are_nanoseconds_since_the_epoch() {
    assert_eq!(system_time_ns(None), None);
    assert_eq!(system_time_ns(Some(0)), Some(0));
    assert_eq!(system_time_ns(Some(1_700_000_000_000_000_001)), Some(1_700_000_000_000_000_001));
}
