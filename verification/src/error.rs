//! Failures and the exit code each one ends the process with.

use vstd::prelude::*;
use vstd::string::*;

use crate::text::{decimal, digit, push_number, push_signed, signed_decimal};

verus! {

pub const EXIT_OK: i32 = 0;
pub const EXIT_ERROR: i32 = 1;
pub const EXIT_USAGE: i32 = 2;
pub const EXIT_CONFIG: i32 = 3;
pub const EXIT_BUSY: i32 = 4;
pub const EXIT_NO_SPACE: i32 = 5;
pub const EXIT_POLICY: i32 = 6;
/// The scan was promoted, but part of the tree was never listed.
pub const EXIT_INCOMPLETE: i32 = 7;
/// Follows the shell convention for SIGINT.
pub const EXIT_CANCELLED: i32 = 130;

/// What went wrong, in words, and the exit code that reports it.
#[derive(Debug)]
pub struct AppError {
    pub message: String,
    pub code: i32,
}

impl AppError {
    pub fn usage(m: &str) -> (r: AppError)
        ensures
            r.message@ == m@,
            r.code == EXIT_USAGE,
    {
        AppError { message: m.to_owned(), code: EXIT_USAGE }
    }

    pub fn config(m: &str) -> (r: AppError)
        ensures
            r.message@ == m@,
            r.code == EXIT_CONFIG,
    {
        AppError { message: m.to_owned(), code: EXIT_CONFIG }
    }

    pub fn io(m: &str) -> (r: AppError)
        ensures
            r.message@ == m@,
            r.code == EXIT_ERROR,
    {
        AppError { message: m.to_owned(), code: EXIT_ERROR }
    }

    /// `reason` is the database's own description of the failure.
    pub fn db(reason: &str) -> (r: AppError)
        ensures
            r.message@ == "database: "@ + reason@,
            r.code == EXIT_ERROR,
    {
        let mut s = "database: ".to_owned();
        s.append(reason);
        AppError { message: s, code: EXIT_ERROR }
    }

    pub fn db_at(path: &str, reason: &str) -> (r: AppError)
        ensures
            r.message@ == "cannot open "@ + path@ + ": "@ + reason@,
            r.code == EXIT_ERROR,
    {
        let mut s = "cannot open ".to_owned();
        s.append(path);
        s.append(": ");
        s.append(reason);
        AppError { message: s, code: EXIT_ERROR }
    }

    pub fn not_ours(path: &str) -> (r: AppError)
        ensures
            r.message@ == path@
                + " exists but is not a metainjester database; refusing to touch it"@,
            r.code == EXIT_CONFIG,
    {
        let mut s = path.to_owned();
        s.append(" exists but is not a metainjester database; refusing to touch it");
        AppError { message: s, code: EXIT_CONFIG }
    }

    pub fn busy(pid: i64) -> (r: AppError)
        ensures
            r.message@ == "database is busy: another metainjester (pid "@ + signed_decimal(
                pid as int,
            ) + ") is writing"@,
            r.code == EXIT_BUSY,
    {
        let mut s = "database is busy: another metainjester (pid ".to_owned();
        push_signed(&mut s, pid);
        s.append(") is writing");
        AppError { message: s, code: EXIT_BUSY }
    }

    pub fn policy_mismatch(m: &str) -> (r: AppError)
        ensures
            r.message@ == "policy_mismatch: "@ + m@
                + "\n  deletion detection is only safe under the rules the baseline was built with.\n  restore the previous settings, or index this base into a fresh database."@,
            r.code == EXIT_POLICY,
    {
        let mut s = "policy_mismatch: ".to_owned();
        s.append(m);
        s.append(
            "\n  deletion detection is only safe under the rules the baseline was built with.\n  restore the previous settings, or index this base into a fresh database.",
        );
        AppError { message: s, code: EXIT_POLICY }
    }

    pub fn no_space(free: u64, required: u64) -> (r: AppError)
        ensures
            r.message@ == "insufficient free space: "@ + human_text(free as nat)
                + " available, "@ + human_text(required as nat)
                + " must stay free (storage.minimum_free_space_mib)"@,
            r.code == EXIT_NO_SPACE,
    {
        let mut s = "insufficient free space: ".to_owned();
        let free_text = human(free);
        s.append(free_text.as_str());
        s.append(" available, ");
        let required_text = human(required);
        s.append(required_text.as_str());
        s.append(" must stay free (storage.minimum_free_space_mib)");
        AppError { message: s, code: EXIT_NO_SPACE }
    }
}

/// The integer nearest to `a / b`, the even one when two are equally near.
pub open spec fn nearest(a: nat, b: nat) -> nat {
    let q = a / b;
    let r = a % b;
    if 2 * r < b || (2 * r == b && q % 2 == 0) {
        q
    } else {
        q + 1
    }
}

/// The spacing of double-precision values around `n`.
pub open spec fn double_step(n: nat) -> nat
    decreases n,
{
    if n < 9007199254740992 {
        1
    } else {
        2 * double_step(n / 2)
    }
}

/// `n` as the nearest double-precision value.
pub open spec fn as_double(n: nat) -> nat {
    nearest(n, double_step(n)) * double_step(n)
}

/// Bytes in the unit that `bytes` is shown in.
pub open spec fn unit_size(bytes: nat) -> nat {
    if bytes < 1024 {
        1
    } else if bytes < 1048576 {
        1024
    } else if bytes < 1073741824 {
        1048576
    } else if bytes < 1099511627776 {
        1073741824
    } else {
        1099511627776
    }
}

/// Name of the unit that `bytes` is shown in, with the space before it.
pub open spec fn unit_name(bytes: nat) -> Seq<char> {
    if bytes < 1024 {
        " B"@
    } else if bytes < 1048576 {
        " KiB"@
    } else if bytes < 1073741824 {
        " MiB"@
    } else if bytes < 1099511627776 {
        " GiB"@
    } else {
        " TiB"@
    }
}

/// A byte count for people: whole bytes below one KiB, one decimal place above.
/// The quantity is rounded to double precision first, then to tenths of the
/// unit, ties going to the even digit both times.
pub open spec fn human_text(bytes: nat) -> Seq<char> {
    if bytes < 1024 {
        decimal(bytes) + " B"@
    } else {
        let tenths = nearest(10 * as_double(bytes), unit_size(bytes));
        decimal(tenths / 10) + "."@ + seq![digit(tenths % 10)] + unit_name(bytes)
    }
}

fn round_quotient(a: u128, b: u128) -> (q: u128)
    requires
        0 < b,
        a < 0x1_0000_0000_0000_0000_0000,
        b < 0x1_0000_0000_0000_0000_0000,
    ensures
        q == nearest(a as nat, b as nat),
        q * b <= a + b,
{
    let q: u128 = a / b;
    let r: u128 = a % b;
    assert(q <= a && r < b && q * b <= a && (q + 1) * b <= a + b) by (nonlinear_arith)
        requires
            0 < b,
            q == a / b,
            r == a % b,
    ;
    if 2 * r < b || (2 * r == b && q % 2 == 0) {
        q
    } else {
        q + 1
    }
}

fn step_at(n: u64) -> (r: u64)
    ensures
        r == double_step(n as nat),
        1 <= r,
        r == 1 || r * 4503599627370496 <= n,
    decreases n,
{
    if n < 9007199254740992 {
        1
    } else {
        2 * step_at(n / 2)
    }
}

/// A byte count for people.
pub fn human(bytes: u64) -> (r: String)
    ensures
        r@ == human_text(bytes as nat),
{
    let mut s = String::new();
    if bytes < 1024 {
        push_number(&mut s, bytes);
        s.append(" B");
        assert(s@ =~= human_text(bytes as nat));
        return s;
    }
    let step: u64 = step_at(bytes);
    let multiples: u128 = round_quotient(bytes as u128, step as u128);
    let exact: u128 = multiples * (step as u128);
    let (unit, name): (u64, &str) = if bytes < 1048576 {
        (1024, " KiB")
    } else if bytes < 1073741824 {
        (1048576, " MiB")
    } else if bytes < 1099511627776 {
        (1073741824, " GiB")
    } else {
        (1099511627776, " TiB")
    };
    let tenths: u128 = round_quotient(10 * exact, unit as u128);
    assert(tenths < 0x1_0000_0000_0000_0000) by (nonlinear_arith)
        requires
            tenths * unit <= 10 * exact + unit,
            exact <= 0x1_0000_0000_0000_2000int,
            1024 <= unit,
    ;
    let whole: u64 = (tenths / 10) as u64;
    let part: u64 = (tenths % 10) as u64;
    push_number(&mut s, whole);
    s.append(".");
    push_number(&mut s, part);
    s.append(name);
    assert(s@ =~= human_text(bytes as nat));
    s
}

/// The exit codes of the command.
pub proof fn law_exit_codes()
    ensures
        EXIT_OK == 0,
        EXIT_ERROR == 1,
        EXIT_USAGE == 2,
        EXIT_CONFIG == 3,
        EXIT_BUSY == 4,
        EXIT_NO_SPACE == 5,
        EXIT_POLICY == 6,
        EXIT_INCOMPLETE == 7,
        EXIT_CANCELLED == 130,
{
}

/// A rounded quotient is as near to the exact one as a whole number can be, and even
/// where two are equally near.
pub proof fn law_rounding_goes_to_the_nearest(a: nat, b: nat)
    requires
        b > 0,
    ensures
        2 * (nearest(a, b) * b) <= 2 * a + b,
        2 * a <= 2 * (nearest(a, b) * b) + b,
        2 * (nearest(a, b) * b) == 2 * a + b || 2 * a == 2 * (nearest(a, b) * b) + b ==> nearest(
            a,
            b,
        ) % 2 == 0,
{
    let q = a / b;
    let r = a % b;
    assert(q * b + r == a && 0 <= r < b && (q + 1) * b == q * b + b) by (nonlinear_arith)
        requires
            b > 0,
            q == a / b,
            r == a % b,
    ;
}

/// Counts below 2^53 are exact in double precision. From there on the spacing doubles
/// with every doubling of the count, and a count goes to the nearest multiple of it.
pub proof fn law_double_precision(n: nat)
    ensures
        double_step(n) >= 1,
        n < 0x20_0000_0000_0000 ==> as_double(n) == n,
        n >= 0x10_0000_0000_0000 ==> double_step(2 * n) == 2 * double_step(n) && double_step(
            2 * n + 1,
        ) == 2 * double_step(n),
        2 * as_double(n) <= 2 * n + double_step(n),
        2 * n <= 2 * as_double(n) + double_step(n),
{
    lemma_step_is_positive(n);
    law_rounding_goes_to_the_nearest(n, double_step(n));
    assert((2 * n) / 2 == n);
    assert((2 * n + 1) / 2 == n);
    if n < 0x20_0000_0000_0000 {
        assert(n / 1 == n && n % 1 == 0);
    }
}

proof fn lemma_step_is_positive(n: nat)
    ensures
        double_step(n) >= 1,
    decreases n,
{
    if n >= 9007199254740992 {
        lemma_step_is_positive(n / 2);
    }
}

/// A byte count is told in the largest unit that it reaches, up to TiB. Below one KiB
/// it is told whole; above, in tenths, rounded to the nearest.
pub proof fn law_sizes_are_told_in_tenths_of_a_unit(bytes: nat)
    ensures
        bytes < 1024 ==> human_text(bytes) == decimal(bytes) + " B"@,
        1024 <= bytes < 0x10_0000 ==> told_in_tenths(bytes, 1024, " KiB"@),
        0x10_0000 <= bytes < 0x4000_0000 ==> told_in_tenths(bytes, 0x10_0000, " MiB"@),
        0x4000_0000 <= bytes < 0x100_0000_0000 ==> told_in_tenths(bytes, 0x4000_0000, " GiB"@),
        0x100_0000_0000 <= bytes ==> told_in_tenths(bytes, 0x100_0000_0000, " TiB"@),
{
    if bytes >= 1024 {
        let unit = unit_size(bytes);
        let exact = as_double(bytes);
        let tenths = nearest(10 * exact, unit);
        law_rounding_goes_to_the_nearest(10 * exact, unit);
        law_double_precision(bytes);
        assert(seq![digit(tenths % 10)] =~= decimal(tenths % 10));
        assert(human_text(bytes) =~= decimal(tenths / 10) + "."@ + decimal(tenths % 10) + unit_name(
            bytes,
        ));
        assert(tells(bytes, tenths, unit, unit_name(bytes)));
    }
}

/// `bytes` is told as this many tenths of the unit: a whole part, one decimal place,
/// and the unit's name. Up to 2^53 the tenths are the nearest ones, the even one where
/// two are equally near; beyond, they are nearest to the count in double precision.
pub open spec fn tells(bytes: nat, tenths: nat, unit: nat, name: Seq<char>) -> bool {
    &&& human_text(bytes) == decimal(tenths / 10) + "."@ + decimal(tenths % 10) + name
    &&& 2 * (tenths * unit) <= 20 * as_double(bytes) + unit
    &&& 20 * as_double(bytes) <= 2 * (tenths * unit) + unit
    &&& 2 * (tenths * unit) == 20 * as_double(bytes) + unit || 20 * as_double(bytes) == 2 * (tenths
        * unit) + unit ==> tenths % 2 == 0
}

pub open spec fn told_in_tenths(bytes: nat, unit: nat, name: Seq<char>) -> bool {
    exists|tenths: nat| #[trigger] tells(bytes, tenths, unit, name)
}

} // verus!
