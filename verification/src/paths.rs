//! `std::path` on Unix, as this crate sees it: a path holds bytes, and the few calls that make or
//! resolve paths are described by what they do to those bytes.

use std::path::{Path, PathBuf};

use vstd::prelude::*;
use vstd::utf8::*;

use crate::components::{build, components, is_canonical, push_path};

verus! {

/// `std::path::Path`.
#[verifier::external_type_specification]
#[verifier::external_body]
pub struct ExPath(std::path::Path);

/// `std::path::PathBuf`.
#[verifier::external_type_specification]
#[verifier::external_body]
pub struct ExPathBuf(std::path::PathBuf);

/// The bytes that a borrowed path holds.
pub uninterp spec fn path_bytes(path: &Path) -> Seq<u8>;

/// The bytes that an owned path holds.
pub uninterp spec fn buf_bytes(path: &PathBuf) -> Seq<u8>;

/// Whether resolving the path `path` can end with `outcome`, the bytes of the canonical path,
/// or nothing where it fails. Which outcome comes is up to the disk at that moment.
pub uninterp spec fn canonicalizes(path: Seq<u8>, outcome: Option<Seq<u8>>) -> bool;

/// The text that the lossy decoding of bytes as UTF-8 yields.
pub uninterp spec fn lossy(bytes: Seq<u8>) -> Seq<char>;

/// The text that bytes are shown as: what they decode to, or where they are not valid UTF-8, what
/// the lossy decoding makes of them.
pub open spec fn shown(bytes: Seq<u8>) -> Seq<char> {
    if valid_utf8(bytes) {
        decode_utf8(bytes)
    } else {
        lossy(bytes)
    }
}

/// The bytes of a path that may be missing.
pub open spec fn found_bytes(found: Option<PathBuf>) -> Option<Seq<u8>> {
    match found {
        Some(p) => Some(buf_bytes(&p)),
        None => None,
    }
}

/// Whether resolving the path `path` can end with `outcome`, where a path that is found is
/// canonical.
pub open spec fn resolves(path: Seq<u8>, outcome: Option<Seq<u8>>) -> bool {
    canonicalizes(path, outcome) && (outcome matches Some(c) ==> is_canonical(c))
}

/// `PathBuf::as_path` borrows the path with the bytes that it holds.
pub assume_specification[ PathBuf::as_path ](path: &PathBuf) -> (borrowed: &Path)
    ensures
        path_bytes(borrowed) == buf_bytes(path),
;

/// `Path::to_path_buf` copies the bytes of the path.
pub assume_specification[ Path::to_path_buf ](path: &Path) -> (owned: PathBuf)
    ensures
        buf_bytes(&owned) == path_bytes(path),
;

/// `OsStr::as_encoded_bytes` on `Path::as_os_str` hands out the bytes of the path.
#[verifier::external_body]
pub(crate) fn bytes_of(path: &Path) -> (bytes: &[u8])
    ensures
        bytes@ == path_bytes(path),
{
    path.as_os_str().as_encoded_bytes()
}

/// `Path::join` appends a path to a path: an absolute one takes the place of the first, any
/// other follows it after a separator.
#[verifier::external_body]
pub(crate) fn join(base: &Path, rel: &str) -> (joined: PathBuf)
    ensures
        buf_bytes(&joined) == push_path(path_bytes(base), encode_utf8(rel@)),
{
    base.join(rel)
}

/// `Path::components` collected into a `PathBuf` again: the path is written anew from its
/// components, with single separators, without inner `.` and without a separator at the end.
#[verifier::external_body]
pub(crate) fn rebuild(path: &Path) -> (rebuilt: PathBuf)
    ensures
        buf_bytes(&rebuilt) == build(components(path_bytes(path))),
{
    path.components().collect()
}

/// `Path::canonicalize` asks the file system for the absolute form of a path with symbolic
/// links resolved. It fails where the path does not exist or cannot be followed. What it
/// finds has the shape of a canonical path; which path that is, the disk decides.
#[verifier::external_body]
pub(crate) fn canonicalize(path: &Path) -> (found: Option<PathBuf>)
    ensures
        canonicalizes(path_bytes(path), found_bytes(found)),
        found matches Some(p) ==> is_canonical(buf_bytes(&p)),
{
    path.canonicalize().ok()
}

/// `String::from_utf8_lossy` decodes UTF-8 and puts the replacement character where bytes
/// are not valid; valid bytes are decoded exactly.
#[verifier::external_body]
fn lossy_text(bytes: &[u8]) -> (text: String)
    ensures
        text@ == lossy(bytes@),
        valid_utf8(bytes@) ==> text@ == decode_utf8(bytes@),
{
    String::from_utf8_lossy(bytes).into_owned()
}

/// The text that bytes are shown as.
pub fn shown_text(bytes: &[u8]) -> (text: String)
    ensures
        text@ == shown(bytes@),
{
    lossy_text(bytes)
}

/// `str::from_utf8` decodes UTF-8 and fails exactly where the bytes are not valid.
#[verifier::external_body]
pub(crate) fn utf8_text(bytes: &[u8]) -> (text: Option<&str>)
    ensures
        text is Some <==> valid_utf8(bytes@),
        text matches Some(t) ==> t@ == decode_utf8(bytes@),
{
    std::str::from_utf8(bytes).ok()
}

/// A resolved path is one that the disk can give, and has the canonical shape.
pub proof fn resolving_asks_the_disk(path: Seq<u8>, outcome: Option<Seq<u8>>)
    ensures
        resolves(path, outcome) <==> canonicalizes(path, outcome) && (outcome is Some
            ==> is_canonical(outcome->0)),
{
}

/// Text is shown as itself.
pub proof fn text_is_shown_as_itself(text: Seq<char>)
    ensures
        shown(encode_utf8(text)) == text,
{
    encode_utf8_valid_utf8(text);
    encode_utf8_decode_utf8(text);
}

/// What is not text is shown as the lossy decoding has it.
pub proof fn other_bytes_are_shown_lossily(bytes: Seq<u8>)
    requires
        forall|text: Seq<char>| #[trigger] encode_utf8(text) != bytes,
    ensures
        shown(bytes) == lossy(bytes),
{
    if valid_utf8(bytes) {
        decode_utf8_encode_utf8(bytes);
    }
}

} // verus!
