//! Text assembly. Messages and reports are built by appending, so that what a
//! line says can be stated as a concatenation of its parts.

use vstd::prelude::*;
use vstd::string::*;

verus! {

/// The decimal digit `d`, for `d < 10`.
pub open spec fn digit(d: nat) -> char {
    (('0' as u32) + d) as char
}

/// `n` in decimal, without leading zeros.
pub open spec fn decimal(n: nat) -> Seq<char>
    decreases n,
{
    if n < 10 {
        seq![digit(n)]
    } else {
        decimal(n / 10).push(digit(n % 10))
    }
}

/// `n` in decimal, with a leading minus sign when it is negative.
pub open spec fn signed_decimal(n: int) -> Seq<char> {
    if n < 0 {
        seq!['-'] + decimal((-n) as nat)
    } else {
        decimal(n as nat)
    }
}

/// `std`'s `String::push`: the character goes to the end of the string.
pub assume_specification[ String::push ](s: &mut String, c: char)
    ensures
        final(s)@ == old(s)@.push(c),
;

fn digit_char(d: u64) -> (c: char)
    requires
        d < 10,
    ensures
        c == digit(d as nat),
{
    if d == 0 {
        '0'
    } else if d == 1 {
        '1'
    } else if d == 2 {
        '2'
    } else if d == 3 {
        '3'
    } else if d == 4 {
        '4'
    } else if d == 5 {
        '5'
    } else if d == 6 {
        '6'
    } else if d == 7 {
        '7'
    } else if d == 8 {
        '8'
    } else {
        '9'
    }
}

/// Appends `n` in decimal.
pub fn push_number(s: &mut String, n: u64)
    ensures
        final(s)@ == old(s)@ + decimal(n as nat),
    decreases n,
{
    if n >= 10 {
        push_number(s, n / 10);
    }
    s.push(digit_char(n % 10));
    assert(s@ =~= old(s)@ + decimal(n as nat));
}

/// Appends `n` in decimal, with its sign.
pub fn push_signed(s: &mut String, n: i64)
    ensures
        final(s)@ == old(s)@ + signed_decimal(n as int),
{
    if n < 0 {
        s.push('-');
        if n == i64::MIN {
            push_number(s, 9223372036854775808);
        } else {
            push_number(s, (-n) as u64);
        }
        assert(s@ =~= old(s)@ + signed_decimal(n as int));
    } else {
        push_number(s, n as u64);
    }
}

/// `n` in decimal.
pub fn number(n: u64) -> (r: String)
    ensures
        r@ == decimal(n as nat),
{
    let mut s = String::new();
    push_number(&mut s, n);
    assert(s@ =~= decimal(n as nat));
    s
}

/// Whether two texts hold the same characters.
pub fn same_text(a: &str, b: &str) -> (r: bool)
    ensures
        r == (a@ == b@),
{
    a.to_owned() == b.to_owned()
}

/// The characters of a text.
pub fn chars_of(s: &str) -> (r: Vec<char>)
    ensures
        r@ == s@,
{
    let mut r: Vec<char> = Vec::new();
    for c in it: s.chars()
        invariant
            r@ == it.seq().take(it.index()),
            it.seq() == s@,
    {
        proof {
            assert(it.seq().take(it.index() + 1) =~= it.seq().take(it.index()).push(c));
        }
        r.push(c);
    }
    assert(s@.take(s@.len() as int) =~= s@);
    r
}

/// The text made of the characters from `from` up to `to`.
pub fn text_between(chars: &Vec<char>, from: usize, to: usize) -> (r: String)
    requires
        from <= to <= chars@.len(),
    ensures
        r@ == chars@.subrange(from as int, to as int),
{
    let mut r = String::new();
    let mut i: usize = from;
    while i < to
        invariant
            from <= i <= to <= chars@.len(),
            r@ == chars@.subrange(from as int, i as int),
        decreases to - i,
    {
        r.push(chars[i]);
        i = i + 1;
        assert(r@ =~= chars@.subrange(from as int, i as int));
    }
    r
}

/// Position of the last `c` in `s`, or -1 where there is none.
pub open spec fn last_position(s: Seq<char>, c: char) -> int
    decreases s.len(),
{
    if s.len() == 0 {
        -1
    } else if s.last() == c {
        s.len() - 1
    } else {
        last_position(s.drop_last(), c)
    }
}

/// Position of the last `c`.
pub fn find_last(s: &Vec<char>, c: char) -> (r: Option<usize>)
    ensures
        match r {
            Some(i) => last_position(s@, c) == i && i < s@.len() && s@[i as int] == c,
            None => last_position(s@, c) == -1,
        },
{
    let mut i: usize = s.len();
    assert(s@.take(i as int) =~= s@);
    while i > 0
        invariant
            i <= s@.len(),
            last_position(s@.take(i as int), c) == last_position(s@, c),
        decreases i,
    {
        if s[i - 1] == c {
            assert(s@.take(i as int).last() == c);
            return Some(i - 1);
        }
        assert(s@.take(i as int).drop_last() =~= s@.take(i - 1));
        i = i - 1;
    }
    None
}

/// `c` with an ASCII capital made small.
pub open spec fn lowered(c: char) -> char {
    if 'A' <= c <= 'Z' {
        ((c as u32) + 32) as char
    } else {
        c
    }
}

/// A text with its ASCII capitals made small.
pub open spec fn lowercase(s: Seq<char>) -> Seq<char> {
    s.map_values(|c: char| lowered(c))
}

fn lower_char(c: char) -> (r: char)
    ensures
        r == lowered(c),
{
    if 'A' <= c && c <= 'Z' {
        let code: u8 = c as u8;
        assert(65 <= code <= 90);
        (code + 32) as char
    } else {
        c
    }
}

/// The text from `from` up to `to`, with its ASCII capitals made small.
pub fn lowercase_between(chars: &Vec<char>, from: usize, to: usize) -> (r: String)
    requires
        from <= to <= chars@.len(),
    ensures
        r@ == lowercase(chars@.subrange(from as int, to as int)),
{
    let mut r = String::new();
    let mut i: usize = from;
    while i < to
        invariant
            from <= i <= to <= chars@.len(),
            r@ == lowercase(chars@.subrange(from as int, i as int)),
        decreases to - i,
    {
        r.push(lower_char(chars[i]));
        i = i + 1;
        assert(r@ =~= lowercase(chars@.subrange(from as int, i as int)));
    }
    r
}

/// How many bytes `c` takes in UTF-8.
pub open spec fn utf8_width(c: char) -> nat {
    if (c as u32) < 0x80 {
        1
    } else if (c as u32) < 0x800 {
        2
    } else if (c as u32) < 0x10000 {
        3
    } else {
        4
    }
}

/// How many bytes a text takes in UTF-8.
pub open spec fn utf8_size(s: Seq<char>) -> nat
    decreases s.len(),
{
    if s.len() == 0 {
        0
    } else {
        utf8_size(s.drop_last()) + utf8_width(s.last())
    }
}

/// `max` bytes of `s` at most, cut between characters, with an ellipsis in
/// place of what was cut.
pub open spec fn shortened(s: Seq<char>, max: nat) -> Seq<char> {
    if utf8_size(s) <= max {
        s
    } else {
        s.take(fitting(s, max) as int) + "…"@
    }
}

/// How many leading characters of `s` fit into `max` bytes.
pub open spec fn fitting(s: Seq<char>, max: nat) -> nat
    decreases s.len(),
{
    if s.len() == 0 || utf8_size(s) <= max {
        s.len()
    } else {
        fitting(s.drop_last(), max)
    }
}

fn char_width(c: char) -> (w: usize)
    ensures
        w == utf8_width(c),
{
    let code: u32 = c as u32;
    if code < 0x80 {
        1
    } else if code < 0x800 {
        2
    } else if code < 0x10000 {
        3
    } else {
        4
    }
}

proof fn lemma_size_grows(s: Seq<char>, i: int, j: int)
    requires
        0 <= i <= j <= s.len(),
    ensures
        utf8_size(s.take(i)) <= utf8_size(s.take(j)),
    decreases j - i,
{
    if i < j {
        lemma_size_grows(s, i, j - 1);
        assert(s.take(j).drop_last() =~= s.take(j - 1));
    }
}

proof fn lemma_fitting(s: Seq<char>, max: nat, k: int)
    requires
        0 <= k < s.len(),
        utf8_size(s.take(k)) <= max,
        utf8_size(s.take(k + 1)) > max,
    ensures
        fitting(s, max) == k,
        utf8_size(s) > max,
    decreases s.len(),
{
    lemma_size_grows(s, k + 1, s.len() as int);
    assert(s.take(s.len() as int) =~= s);
    reveal_with_fuel(fitting, 2);
    let rest = s.drop_last();
    if k == rest.len() {
        assert(rest =~= s.take(k));
    } else {
        assert(rest.take(k) =~= s.take(k));
        assert(rest.take(k + 1) =~= s.take(k + 1));
        lemma_fitting(rest, max, k);
    }
}

/// Cuts a text to `max` bytes, never inside a character.
pub fn shorten(s: &str, max: usize) -> (r: String)
    requires
        max <= 0x7fff_ffff,
    ensures
        r@ == shortened(s@, max as nat),
{
    let chars = chars_of(s);
    let mut size: usize = 0;
    let mut i: usize = 0;
    assert(chars@.take(0) =~= Seq::<char>::empty());
    while i < chars.len()
        invariant
            i <= chars@.len(),
            size == utf8_size(chars@.take(i as int)),
            size <= max <= 0x7fff_ffff,
            chars@ == s@,
        decreases chars.len() - i,
    {
        let w: usize = char_width(chars[i]);
        assert(chars@.take(i + 1).drop_last() =~= chars@.take(i as int));
        if size + w > max {
            proof {
                lemma_fitting(chars@, max as nat, i as int);
            }
            let mut r = text_between(&chars, 0, i);
            r.append("…");
            assert(chars@.subrange(0, i as int) =~= chars@.take(i as int));
            return r;
        }
        size = size + w;
        i = i + 1;
    }
    assert(chars@.take(i as int) =~= s@);
    s.to_owned()
}

/// The characters of each text, in order.
pub open spec fn texts(lines: Seq<String>) -> Seq<Seq<char>> {
    lines.map_values(|l: String| l@)
}

/// The last position of a character is a place where it stands, and it stands
/// nowhere after it; where it stands nowhere, there is none.
pub proof fn law_last_position_is_the_last(s: Seq<char>, c: char)
    ensures
        -1 <= last_position(s, c) < s.len(),
        last_position(s, c) >= 0 <==> s.contains(c),
        last_position(s, c) >= 0 ==> s[last_position(s, c)] == c,
        forall|k: int| last_position(s, c) < k < s.len() ==> #[trigger] s[k] != c,
    decreases s.len(),
{
    if s.len() > 0 {
        let rest = s.drop_last();
        law_last_position_is_the_last(rest, c);
        assert(s[s.len() - 1] == s.last());
        assert(forall|k: int| 0 <= k < rest.len() ==> #[trigger] rest[k] == s[k]);
        if s.contains(c) && s.last() != c {
            let k = s.index_of(c);
            assert(rest[k] == c);
        }
        if rest.contains(c) {
            let k = rest.index_of(c);
            assert(s[k] == c);
        }
        assert forall|k: int| last_position(s, c) < k < s.len() implies #[trigger] s[k] != c by {
            if k < rest.len() {
                assert(rest[k] == s[k]);
            }
        }
    }
}

/// Making a text small touches its ASCII capitals alone: each moves to the small
/// letter it belongs to, and the length stays.
pub proof fn law_only_ascii_capitals_are_lowered(s: Seq<char>)
    ensures
        lowercase(s).len() == s.len(),
        forall|i: int|
            0 <= i < s.len() ==> (#[trigger] lowercase(s)[i]) as u32 == (if 65 <= s[i] as u32
                && s[i] as u32 <= 90 {
                s[i] as u32 + 32
            } else {
                s[i] as u32 as int
            }),
{
    assert forall|i: int| 0 <= i < s.len() implies (#[trigger] lowercase(s)[i]) as u32 == (if 65
        <= s[i] as u32 && s[i] as u32 <= 90 {
        s[i] as u32 + 32
    } else {
        s[i] as u32 as int
    }) by {
        assert(lowercase(s)[i] == lowered(s[i]));
    }
}

/// The number that a string of decimal digits stands for.
pub open spec fn digits_value(digits: Seq<char>) -> int
    decreases digits.len(),
{
    if digits.len() == 0 {
        0
    } else {
        10 * digits_value(digits.drop_last()) + (digits.last() as u32 - 48)
    }
}

/// A number written in decimal reads back as itself: only digits are written, and
/// none of them is a needless zero in front.
pub proof fn law_decimal_reads_back(n: nat)
    ensures
        digits_value(decimal(n)) == n,
        decimal(n).len() > 0,
        forall|i: int| 0 <= i < decimal(n).len() ==> 48 <= (#[trigger] decimal(n)[i]) as u32 <= 57,
        decimal(n)[0] == '0' ==> n == 0 && decimal(n).len() == 1,
    decreases n,
{
    if n >= 10 {
        law_decimal_reads_back(n / 10);
        let rest = decimal(n / 10);
        assert(decimal(n).drop_last() =~= rest);
        assert(decimal(n)[0] == rest[0]);
    } else {
        assert(decimal(n).drop_last() =~= Seq::<char>::empty());
        reveal_with_fuel(digits_value, 2);
    }
}

/// A negative number is written as a minus sign and its distance from zero, any
/// other without a sign.
pub proof fn law_sign_goes_in_front(n: int)
    ensures
        n >= 0 ==> digits_value(signed_decimal(n)) == n && signed_decimal(n)[0] != '-',
        n < 0 ==> signed_decimal(n)[0] == '-' && digits_value(signed_decimal(n).skip(1)) == -n,
{
    if n >= 0 {
        law_decimal_reads_back(n as nat);
    } else {
        law_decimal_reads_back((-n) as nat);
        assert(signed_decimal(n).skip(1) =~= decimal((-n) as nat));
    }
}

/// The size of a text is that of its UTF-8 encoding.
pub proof fn law_size_is_that_of_the_encoding(s: Seq<char>)
    ensures
        utf8_size(s) == vstd::utf8::encode_utf8(s).len(),
    decreases s.len(),
{
    if s.len() > 0 {
        law_size_is_that_of_the_encoding(s.drop_last());
        lemma_encoding_grows(s.drop_last(), s.last());
        assert(s.drop_last().push(s.last()) =~= s);
    }
}

/// A text that fits is kept as it is. Another keeps as many of its leading
/// characters as fit, and ends in an ellipsis.
pub proof fn law_shortening_keeps_what_fits(s: Seq<char>, max: nat)
    ensures
        vstd::utf8::encode_utf8(s).len() <= max ==> shortened(s, max) == s,
        vstd::utf8::encode_utf8(s).len() > max ==> exists|k: int|
            #![trigger s.take(k)]
            0 <= k < s.len() && shortened(s, max) == s.take(k) + seq!['\u{2026}']
                && vstd::utf8::encode_utf8(s.take(k)).len() <= max && vstd::utf8::encode_utf8(
                s.take(k + 1),
            ).len() > max,
{
    law_size_is_that_of_the_encoding(s);
    if utf8_size(s) > max {
        lemma_some_fit(s, max);
        let k = fitting(s, max) as int;
        law_size_is_that_of_the_encoding(s.take(k));
        law_size_is_that_of_the_encoding(s.take(k + 1));
        reveal_strlit("…");
        assert("…"@ =~= seq!['\u{2026}']);
        assert(shortened(s, max) == s.take(k) + seq!['\u{2026}']);
    }
}

proof fn lemma_some_fit(s: Seq<char>, max: nat)
    requires
        utf8_size(s) > max,
    ensures
        fitting(s, max) < s.len(),
        utf8_size(s.take(fitting(s, max) as int)) <= max,
        utf8_size(s.take(fitting(s, max) as int + 1)) > max,
    decreases s.len(),
{
    let rest = s.drop_last();
    if utf8_size(rest) > max {
        lemma_some_fit(rest, max);
        let k = fitting(rest, max) as int;
        assert(rest.take(k) =~= s.take(k));
        assert(rest.take(k + 1) =~= s.take(k + 1));
    } else {
        reveal_with_fuel(fitting, 2);
        assert(rest =~= s.take(rest.len() as int));
        assert(s =~= s.take(rest.len() as int + 1));
    }
}

proof fn lemma_encoding_grows(s: Seq<char>, c: char)
    ensures
        vstd::utf8::encode_utf8(s.push(c)).len() == vstd::utf8::encode_utf8(s).len() + utf8_width(c),
    decreases s.len(),
{
    let all = s.push(c);
    if s.len() == 0 {
        assert(all.drop_first() =~= s);
        reveal_with_fuel(vstd::utf8::encode_utf8, 2);
    } else {
        assert(all.drop_first() =~= s.drop_first().push(c));
        lemma_encoding_grows(s.drop_first(), c);
    }
}

} // verus!
