//! The columns that make a catalogue pleasant to search: parent, name,
//! extension, and the MIME type the extension implies.
//!
//! The exact bytes of a path are its identity. What stands here is a lossy
//! reading of them, and the MIME type is a guess from the extension alone; the
//! file is never opened.

use vstd::prelude::*;
use vstd::utf8::*;

use crate::rows::text_of;
use crate::text::{
    chars_of, find_last, last_position, law_last_position_is_the_last,
    law_only_ascii_capitals_are_lowered, lowercase, lowercase_between, text_between,
};

verus! {

/// What `String::from_utf8_lossy` reads in a byte string.
pub uninterp spec fn lossy_text(bytes: Seq<u8>) -> Seq<char>;

/// `std`'s `String::from_utf8_lossy`: bytes that are valid UTF-8 come out as the
/// text they encode, and otherwise each invalid stretch as U+FFFD.
#[verifier::external_body]
fn decode_lossy(bytes: &[u8]) -> (r: String)
    ensures
        r@ == lossy_text(bytes@),
        valid_utf8(bytes@) ==> r@ == decode_utf8(bytes@),
{
    String::from_utf8_lossy(bytes).into_owned()
}

/// The essence of the first type that `mime_guess` knows for an extension.
pub uninterp spec fn mime_by_extension(extension: Seq<char>) -> Option<Seq<char>>;

/// `mime_guess::from_ext`, its first guess, and that guess's type and subtype.
/// An extension that is empty or unknown has no guess.
#[verifier::external_body]
fn guess_mime(extension: &str) -> (r: Option<String>)
    ensures
        text_of(r) == mime_by_extension(extension@),
        extension@.len() == 0 ==> r is None,
{
    match mime_guess::from_ext(extension).first() {
        Some(m) => Some(m.essence_str().to_string()),
        None => None,
    }
}

/// What comes before the last separator, where there is one.
pub open spec fn parent_of(text: Seq<char>) -> Option<Seq<char>> {
    let i = last_position(text, '/');
    if i >= 0 {
        Some(text.take(i))
    } else {
        None
    }
}

/// What comes after the last separator.
pub open spec fn name_of(text: Seq<char>) -> Seq<char> {
    text.skip(last_position(text, '/') + 1)
}

/// What comes after the last dot of a name, in small letters. A leading dot
/// belongs to the stem, and a trailing one starts no extension.
pub open spec fn extension_of(name: Seq<char>) -> Option<Seq<char>> {
    let i = last_position(name, '.');
    if 0 < i && i + 1 < name.len() {
        Some(lowercase(name.skip(i + 1)))
    } else {
        None
    }
}

/// A path, taken apart.
#[derive(Debug)]
pub struct NameParts {
    pub parent: Option<String>,
    pub name: String,
    pub extension: Option<String>,
}

/// Base-relative path split into the search columns, plus the MIME guess.
#[derive(Debug)]
pub struct Helpers {
    pub parent: Option<String>,
    pub name: String,
    pub extension: Option<String>,
    pub mime_type: Option<String>,
    pub mime_source: &'static str,
}

proof fn lemma_last_position(s: Seq<char>, c: char)
    ensures
        -1 <= last_position(s, c) < s.len(),
    decreases s.len(),
{
    if s.len() > 0 {
        lemma_last_position(s.drop_last(), c);
    }
}

/// Takes a path apart into parent, name and extension.
pub fn take_apart(text: &str) -> (r: NameParts)
    ensures
        text_of(r.parent) == parent_of(text@),
        r.name@ == name_of(text@),
        text_of(r.extension) == extension_of(name_of(text@)),
{
    let chars = chars_of(text);
    let n: usize = chars.len();
    proof {
        lemma_last_position(text@, '/');
    }
    let (parent, start): (Option<String>, usize) = match find_last(&chars, '/') {
        Some(i) => {
            assert(chars@.subrange(0, i as int) =~= text@.take(i as int));
            (Some(text_between(&chars, 0, i)), i + 1)
        },
        None => (None, 0),
    };
    let name = text_between(&chars, start, n);
    assert(name@ =~= name_of(text@));
    let letters = chars_of(name.as_str());
    let extension: Option<String> = match find_last(&letters, '.') {
        Some(i) => {
            if i > 0 && i + 1 < letters.len() {
                assert(letters@.subrange(i + 1, letters@.len() as int) =~= name@.skip(i + 1));
                Some(lowercase_between(&letters, i + 1, letters.len()))
            } else {
                None
            }
        },
        None => None,
    };
    NameParts { parent, name, extension }
}

/// Where a MIME type came from.
pub open spec fn source_of(mime_type: Option<Seq<char>>) -> Seq<char> {
    if mime_type is Some {
        "extension"@
    } else {
        "unknown"@
    }
}

/// The MIME type of a name with this extension.
pub open spec fn mime_of(extension: Option<Seq<char>>) -> Option<Seq<char>> {
    match extension {
        Some(x) => mime_by_extension(x),
        None => None,
    }
}

/// Puts a guess beside the parts of a name.
pub fn with_mime(parts: NameParts, mime_type: Option<String>) -> (r: Helpers)
    ensures
        r.parent == parts.parent,
        r.name == parts.name,
        r.extension == parts.extension,
        r.mime_type == mime_type,
        r.mime_source@ == source_of(text_of(mime_type)),
{
    let mime_source: &'static str = if mime_type.is_some() {
        "extension"
    } else {
        "unknown"
    };
    Helpers {
        parent: parts.parent,
        name: parts.name,
        extension: parts.extension,
        mime_type,
        mime_source,
    }
}

/// The search columns of a path.
pub fn helpers(rel: &[u8]) -> (r: Helpers)
    ensures
        text_of(r.parent) == parent_of(lossy_text(rel@)),
        r.name@ == name_of(lossy_text(rel@)),
        text_of(r.extension) == extension_of(name_of(lossy_text(rel@))),
        text_of(r.mime_type) == mime_of(extension_of(name_of(lossy_text(rel@)))),
        r.mime_source@ == source_of(text_of(r.mime_type)),
        match r.extension {
            Some(x) => match mime_by_extension(x@) {
                Some(known) => r.mime_source@ == "extension"@ && (r.mime_type matches Some(t) && t@
                    == known),
                None => r.mime_source@ == "unknown"@ && r.mime_type is None,
            },
            None => r.mime_source@ == "unknown"@ && r.mime_type is None,
        },
        match r.parent {
            Some(parent) => lossy_text(rel@) == parent@.push('/') + r.name@,
            None => lossy_text(rel@) == r.name@,
        },
        !r.name@.contains('/'),
        valid_utf8(rel@) ==> lossy_text(rel@) == decode_utf8(rel@),
{
    let text = decode_lossy(rel);
    proof {
        law_path_is_parent_then_name(text@);
    }
    let parts = take_apart(text.as_str());
    let mime_type: Option<String> = match &parts.extension {
        Some(x) => guess_mime(x.as_str()),
        None => None,
    };
    with_mime(parts, mime_type)
}

/// A path is its parent, a separator and its name; one without a parent is its name
/// alone. A name holds no separator.
pub proof fn law_path_is_parent_then_name(text: Seq<char>)
    ensures
        match parent_of(text) {
            Some(parent) => text == parent.push('/') + name_of(text),
            None => text == name_of(text),
        },
        !name_of(text).contains('/'),
{
    law_last_position_is_the_last(text, '/');
    let i = last_position(text, '/');
    let name = name_of(text);
    if i >= 0 {
        assert(text =~= text.take(i).push('/') + name);
    } else {
        assert(text =~= name);
    }
    if name.contains('/') {
        let k = name.index_of('/');
        assert(text[i + 1 + k] == '/');
    }
}

/// The extension is what follows the last dot of a name, with its ASCII capitals
/// made small, however long it is. A dot that comes first or last starts none.
pub proof fn law_extension_follows_the_last_dot(name: Seq<char>, i: int)
    requires
        0 <= i < name.len(),
        name[i] == '.',
        forall|k: int| i < k < name.len() ==> #[trigger] name[k] != '.',
    ensures
        extension_of(name) is Some <==> 0 < i && i + 1 < name.len(),
        extension_of(name) matches Some(x) ==> {
            &&& x.len() == name.len() - i - 1
            &&& forall|k: int|
                0 <= k < x.len() ==> (#[trigger] x[k]) as u32 == (if 65 <= name[i + 1 + k] as u32
                    && name[i + 1 + k] as u32 <= 90 {
                    name[i + 1 + k] as u32 + 32
                } else {
                    name[i + 1 + k] as u32 as int
                })
        },
{
    law_last_position_is_the_last(name, '.');
    assert(name.contains('.'));
    assert(last_position(name, '.') == i);
    law_only_ascii_capitals_are_lowered(name.skip(i + 1));
    if let Some(x) = extension_of(name) {
        assert forall|k: int| 0 <= k < x.len() implies (#[trigger] x[k]) as u32 == (if 65
            <= name[i + 1 + k] as u32 && name[i + 1 + k] as u32 <= 90 {
            name[i + 1 + k] as u32 + 32
        } else {
            name[i + 1 + k] as u32 as int
        }) by {
            assert(name.skip(i + 1)[k] == name[i + 1 + k]);
            assert(lowercase(name.skip(i + 1))[k] == x[k]);
        }
    }
}

/// A name without a dot has no extension.
pub proof fn law_no_dot_no_extension(name: Seq<char>)
    requires
        !name.contains('.'),
    ensures
        extension_of(name) is None,
{
    law_last_position_is_the_last(name, '.');
}

/// The type of a file is exactly what the guesser knows for its extension, whatever
/// the extension is, and it is said to come from the extension wherever the guesser
/// knows one. Without an extension nothing is known.
pub proof fn law_type_is_what_the_guesser_knows(extension: Option<Seq<char>>)
    ensures
        match extension {
            Some(x) => {
                &&& mime_of(extension) == mime_by_extension(x)
                &&& mime_by_extension(x) is Some ==> source_of(mime_of(extension)) == "extension"@
                &&& mime_by_extension(x) is None ==> source_of(mime_of(extension)) == "unknown"@
            },
            None => mime_of(extension) is None && source_of(mime_of(extension)) == "unknown"@,
        },
{
}

} // verus!
