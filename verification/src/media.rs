//! The media type that a file is sent with, told by the extension of its name.

use std::path::Path;

use vstd::prelude::*;
use vstd::utf8::*;

use crate::components::{components, file_name, file_name_is_the_last_component, DOT, SLASH};
use crate::paths::path_bytes;

verus! {

/// `mime_guess::MimeGuess`, the media types that go with an extension.
#[verifier::external_type_specification]
#[verifier::external_body]
pub struct ExMimeGuess(mime_guess::MimeGuess);

/// The media types that a guess holds, as text, the most likely one first.
pub uninterp spec fn guessed(guess: &mime_guess::MimeGuess) -> Seq<Seq<char>>;

/// The media types that `mime_guess` knows for an extension.
pub uninterp spec fn types_of_extension(extension: Seq<char>) -> Seq<Seq<char>>;

/// The position of the last dot in a name, or -1.
pub open spec fn last_dot(name: Seq<u8>) -> int
    decreases name.len(),
{
    if name.len() == 0 {
        -1
    } else if name.last() == DOT {
        name.len() - 1
    } else {
        last_dot(name.drop_last())
    }
}

/// The extension of the file name of a path: what follows its last dot, unless the name has
/// no dot but one at its start.
pub open spec fn extension(path: Seq<u8>) -> Option<Seq<u8>> {
    match file_name(path) {
        Some(name) if last_dot(name) > 0 => Some(name.skip(last_dot(name) + 1)),
        _ => None,
    }
}

/// A text with its ASCII letters in lower case.
pub open spec fn ascii_lower(s: Seq<char>) -> Seq<char> {
    s.map_values(
        |c: char|
            if 'A' <= c && c <= 'Z' {
                (c as u32 + 32) as char
            } else {
                c
            },
    )
}

/// The extension that a path is looked up by, where it has one that is text. The case of its
/// ASCII letters does not matter.
pub open spec fn known_extension(path: Seq<u8>) -> Option<Seq<char>> {
    match extension(path) {
        Some(e) if e.len() > 0 && valid_utf8(e) => Some(ascii_lower(decode_utf8(e))),
        _ => None,
    }
}

/// The media types that go with the extension of a path.
pub open spec fn types_of_path(path: Seq<u8>) -> Seq<Seq<char>> {
    match known_extension(path) {
        Some(e) => types_of_extension(e),
        None => Seq::empty(),
    }
}

/// The first of some media types, or that of arbitrary bytes where there is none.
pub open spec fn first_type(types: Seq<Seq<char>>) -> Seq<char> {
    if types.len() > 0 {
        types[0]
    } else {
        "application/octet-stream"@
    }
}

/// `mime_guess::from_path` looks the extension of a path up in its table. It reads the path
/// alone, not the disk; the guess is empty where the path has no extension, and where the
/// extension is empty, not UTF-8 or not known.
#[verifier::external_body]
fn from_path(path: &Path) -> (guess: mime_guess::MimeGuess)
    ensures
        guessed(&guess) == match known_extension(path_bytes(path)) {
            Some(e) => types_of_extension(e),
            None => Seq::empty(),
        },
{
    mime_guess::from_path(path)
}

/// `MimeGuess::first_or_octet_stream` takes the first media type of a guess, or
/// `application/octet-stream` where the guess is empty.
#[verifier::external_body]
fn first_or_octet_stream(guess: &mime_guess::MimeGuess) -> (text: String)
    ensures
        text@ == first_type(guessed(guess)),
{
    guess.first_or_octet_stream().to_string()
}

/// The media type of a file, by the extension of its path; `application/octet-stream` where
/// the extension tells none.
pub fn mime_for(path: &Path) -> (mime: String)
    ensures
        mime@ == first_type(types_of_path(path_bytes(path))),
{
    let guess = from_path(path);
    first_or_octet_stream(&guess)
}

/// A path without an extension is sent as arbitrary bytes.
pub proof fn no_extension_is_octet_stream(path: Seq<u8>)
    requires
        extension(path) is None,
    ensures
        first_type(types_of_path(path)) == "application/octet-stream"@,
{
}

/// Whether two extensions differ in the case of ASCII letters only.
pub open spec fn same_but_case(a: Seq<u8>, b: Seq<u8>) -> bool {
    a.len() > 0 && b.len() > 0 && valid_utf8(a) && valid_utf8(b) && ascii_lower(decode_utf8(a))
        == ascii_lower(decode_utf8(b))
}

/// The media type depends on the extension alone, not on its case.
pub proof fn type_follows_extension(a: Seq<u8>, b: Seq<u8>)
    requires
        extension(a) == extension(b) || (extension(a) is Some && extension(b) is Some
            && same_but_case(extension(a)->0, extension(b)->0)),
    ensures
        first_type(types_of_path(a)) == first_type(types_of_path(b)),
{
}

/// The last dot of a name is where nothing but its extension follows.
proof fn last_dot_before(stem: Seq<u8>, ext: Seq<u8>)
    requires
        forall|i: int| 0 <= i < ext.len() ==> ext[i] != DOT,
    ensures
        last_dot(stem.push(DOT) + ext) == stem.len(),
    decreases ext.len(),
{
    let name = stem.push(DOT) + ext;
    if ext.len() > 0 {
        last_dot_before(stem, ext.drop_last());
        assert(name.drop_last() =~= stem.push(DOT) + ext.drop_last());
        assert(ext[ext.len() - 1] != DOT);
    } else {
        assert(name.last() == DOT);
    }
}

/// A name whose only dot can be its first byte has no later dot.
proof fn last_dot_of_a_bare_name(name: Seq<u8>)
    requires
        forall|i: int| 1 <= i < name.len() ==> name[i] != DOT,
    ensures
        last_dot(name) <= 0,
    decreases name.len(),
{
    if name.len() > 0 {
        last_dot_of_a_bare_name(name.drop_last());
        if name.len() > 1 {
            assert(name[name.len() - 1] != DOT);
        }
    }
}

/// A file named `stem.ext`, wherever it is, has the first of the types that are known for its
/// extension with `A` to `Z` in lower case, or is sent as arbitrary bytes where none is known.
pub proof fn named_files_have_the_type_of_their_extension(
    path: Seq<u8>,
    stem: Seq<u8>,
    ext: Seq<u8>,
    lower: Seq<char>,
)
    requires
        components(path).len() > 0,
        components(path)[components(path).len() - 1] == stem.push(DOT) + ext,
        stem.len() > 0,
        ext.len() > 0,
        forall|i: int| 0 <= i < ext.len() ==> ext[i] != DOT,
        valid_utf8(ext),
        lower.len() == decode_utf8(ext).len(),
        forall|i: int|
            0 <= i < lower.len() ==> (if 'A' <= decode_utf8(ext)[i] && decode_utf8(ext)[i] <= 'Z' {
                #[trigger] lower[i] as int == decode_utf8(ext)[i] as int + 32
            } else {
                lower[i] == decode_utf8(ext)[i]
            }),
    ensures
        types_of_extension(lower).len() > 0 ==> first_type(types_of_path(path))
            == types_of_extension(lower)[0],
        types_of_extension(lower).len() == 0 ==> first_type(types_of_path(path))
            == "application/octet-stream"@,
{
    let name = stem.push(DOT) + ext;
    file_name_is_the_last_component(path);
    assert(name[stem.len() as int] == DOT && name[name.len() - 1] == ext[ext.len() - 1]);
    assert(name != seq![SLASH] && name != seq![DOT]) by {
        assert(seq![SLASH].len() == 1 && seq![DOT].len() == 1);
    }
    assert(name != seq![DOT, DOT]) by {
        assert(seq![DOT, DOT].len() == 2);
    }
    last_dot_before(stem, ext);
    assert(name.skip(stem.len() as int + 1) =~= ext);
    assert(ascii_lower(decode_utf8(ext)) =~= lower) by {
        assert forall|i: int| 0 <= i < lower.len() implies ascii_lower(decode_utf8(ext))[i]
            == lower[i] by {
            let c = decode_utf8(ext)[i];
            assert(lower[i] == lower[i]);
            if 'A' <= c && c <= 'Z' {
                assert(((c as u32 + 32) as char) as int == c as int + 32);
            }
        }
    }
}

/// A file without a dot after the first byte of its name, or without a byte after the last dot, is
/// sent as arbitrary bytes.
pub proof fn bare_files_are_octet_streams(path: Seq<u8>, name: Seq<u8>)
    requires
        components(path).len() > 0,
        components(path)[components(path).len() - 1] == name,
        (forall|i: int| 1 <= i < name.len() ==> name[i] != DOT) || (name.len() > 0 && name[name.len()
            - 1] == DOT),
    ensures
        first_type(types_of_path(path)) == "application/octet-stream"@,
{
    file_name_is_the_last_component(path);
    if forall|i: int| 1 <= i < name.len() ==> name[i] != DOT {
        last_dot_of_a_bare_name(name);
    }
}

/// A path without components, and one whose extension is not UTF-8, is sent as arbitrary bytes.
pub proof fn files_of_unknown_kind_are_octet_streams(path: Seq<u8>, stem: Seq<u8>, ext: Seq<u8>)
    requires
        components(path).len() == 0 || (components(path)[components(path).len() - 1] == stem.push(
            DOT,
        ) + ext && (forall|i: int| 0 <= i < ext.len() ==> ext[i] != DOT) && !valid_utf8(ext)),
    ensures
        first_type(types_of_path(path)) == "application/octet-stream"@,
{
    file_name_is_the_last_component(path);
    if components(path).len() > 0 {
        last_dot_before(stem, ext);
        assert((stem.push(DOT) + ext).skip(stem.len() as int + 1) =~= ext);
    }
}

} // verus!
