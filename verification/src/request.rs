//! How a request is answered: what to look at on the disk, and what to send.
//!
//! The server asks for the first step of a request, looks at the disk as the step says, reports
//! what it saw, and so on until a step says what to send.

use std::path::{Path, PathBuf};

use vstd::prelude::*;
use vstd::utf8::*;

use crate::components::{
    build, components, counting, is_absolute, is_canonical, path_starts_with, pieces, push_path,
    starting_is_having_the_first_components, starts_with, DOT,
};
use crate::error::ServeError;
use crate::media::{first_type, mime_for, types_of_path};
use crate::paths::{
    buf_bytes, bytes_of, canonicalize, canonicalizes, found_bytes, join, path_bytes, resolves,
};
use crate::resolve::{
    answers, downs, join_below, nothing_is_served_without_a_directory, safe_join,
    served_path_is_inside, ups, what_is_inside_is_served,
};

verus! {

/// What there is at a path.
#[derive(Debug, Clone, Copy, PartialEq, Eq, Structural)]
pub enum FileKind {
    Dir,
    File,
    Other,
}

/// What to do next for a request.
#[derive(Debug)]
pub enum Step {
    /// Look what there is at the path itself, without following a link. The path was found in
    /// the served directory, whose canonical form is `root`.
    Examine { root: PathBuf, path: PathBuf },
    /// Look what there is at `target`, where the index page `index` of the directory resolves to.
    ExamineIndex { dir: PathBuf, index: PathBuf, target: PathBuf },
    /// Send the file.
    SendFile { path: PathBuf },
    /// Send the file at `target` as the index page `index`, with the media type of `index`.
    SendIndex { index: PathBuf, target: PathBuf },
    /// Send the listing of the directory.
    SendListing { dir: PathBuf },
}

/// The path of the index page of a directory.
pub open spec fn index_path(dir: Seq<u8>) -> Seq<u8> {
    push_path(dir, encode_utf8("index.html"@))
}

/// Whether `step` follows for the directory `dir` in the served directory `root` when resolving
/// the index page ended with `found`: only an index page that resolves to a path in the served
/// directory is looked at.
pub open spec fn opens(root: Seq<u8>, dir: Seq<u8>, found: Option<Seq<u8>>, step: Step) -> bool {
    match found {
        Some(p) if starts_with(p, root) => {
            &&& step matches Step::ExamineIndex { dir: d, index, target }
            &&& buf_bytes(&d) == dir
            &&& buf_bytes(&index) == index_path(dir)
            &&& buf_bytes(&target) == p
        },
        _ => step matches Step::SendListing { dir: d } && buf_bytes(&d) == dir,
    }
}

/// Whether `step` can follow for the directory `dir` in the served directory `root`: its index
/// page is resolved, and what that ends with decides.
pub open spec fn enters(root: Seq<u8>, dir: Seq<u8>, step: Step) -> bool {
    exists|found: Option<Seq<u8>>| #[trigger]
        resolves(index_path(dir), found) && opens(root, dir, found, step)
}

/// Whether `r` is what follows a step when `seen` was found at the path that it asks about;
/// nothing where the look failed. A step that says what to send stays as it is.
pub open spec fn follows(step: Step, seen: Option<FileKind>, r: Result<Step, ServeError>) -> bool {
    match step {
        Step::Examine { root, path } => match seen {
            None => r matches Err(ServeError::NotFound),
            Some(FileKind::Dir) => r matches Ok(s) && enters(
                buf_bytes(&root),
                buf_bytes(&path),
                s,
            ),
            Some(_) => r == Ok::<Step, ServeError>(Step::SendFile { path }),
        },
        Step::ExamineIndex { dir, index, target } => r == Ok::<Step, ServeError>(
            if seen == Some(FileKind::File) {
                Step::SendIndex { index, target }
            } else {
                Step::SendListing { dir }
            },
        ),
        step => r == Ok::<Step, ServeError>(step),
    }
}

/// The step for the directory `dir` in the canonical served directory `root` when resolving its
/// index page `index` ended with `found`. An index page that is not there, or that links lead
/// out of the served directory, gives way to the listing.
pub fn place_index(root: &Path, dir: PathBuf, index: PathBuf, found: Option<PathBuf>) -> (step: Step)
    ensures
        step == match found {
            Some(target) if starts_with(buf_bytes(&target), path_bytes(root)) => {
                Step::ExamineIndex { dir, index, target }
            },
            _ => Step::SendListing { dir },
        },
{
    match found {
        Some(target) => {
            if path_starts_with(bytes_of(target.as_path()), bytes_of(root)) {
                Step::ExamineIndex { dir, index, target }
            } else {
                Step::SendListing { dir }
            }
        },
        None => Step::SendListing { dir },
    }
}

/// Resolves the index page of the directory `dir` in the canonical served directory `root`, and
/// says what follows.
pub fn open_index(root: &Path, dir: PathBuf) -> (step: Step)
    ensures
        enters(path_bytes(root), buf_bytes(&dir), step),
{
    let index = join(dir.as_path(), "index.html");
    let found = canonicalize(index.as_path());
    let ghost at = buf_bytes(&dir);
    let step = place_index(root, dir, index, found);
    assert(resolves(index_path(at), found_bytes(found)));
    step
}

/// The first step of a request for the served directory `root` itself.
pub fn open_root(root: &Path) -> (r: Result<Step, ServeError>)
    ensures
        exists|canonical: Option<Seq<u8>>| #[trigger]
            resolves(path_bytes(root), canonical) && match canonical {
                None => r matches Err(ServeError::NotFound),
                Some(c) => r matches Ok(s) && enters(c, c, s),
            },
{
    proof {
        empty_request();
    }
    match safe_join(root, "") {
        Ok(dir) => {
            let canonical = dir.as_path().to_path_buf();
            Ok(open_index(canonical.as_path(), dir))
        },
        Err(e) => Err(e),
    }
}

/// The empty text has no bytes.
proof fn empty_request()
    ensures
        encode_utf8(""@).len() == 0,
{
    reveal_strlit("");
}

/// Whether `r` is the first step of the request `rel` below the directory whose resolution ended
/// with `canonical`: a request that is answered with a path has that path examined.
pub open spec fn begins(
    canonical: Option<Seq<u8>>,
    rel: Seq<u8>,
    r: Result<Step, ServeError>,
) -> bool {
    match r {
        Ok(step) => {
            &&& step matches Step::Examine { root, path }
            &&& canonical == Some(buf_bytes(&root))
            &&& answers(canonical, rel, Ok(path))
        },
        Err(e) => answers(canonical, rel, Err(e)),
    }
}

/// The first step of a request for `rel` in the served directory `root`.
pub fn open_path(root: &Path, rel: &str) -> (r: Result<Step, ServeError>)
    ensures
        exists|canonical: Option<Seq<u8>>| #[trigger]
            resolves(path_bytes(root), canonical) && begins(canonical, encode_utf8(rel@), r),
{
    let resolved = canonicalize(root);
    assert(resolves(path_bytes(root), found_bytes(resolved)));
    match resolved {
        Some(canonical) => match join_below(canonical.as_path(), rel) {
            Ok(path) => Ok(Step::Examine { root: canonical, path }),
            Err(e) => Err(e),
        },
        None => Err(ServeError::NotFound),
    }
}

/// What follows a step when `seen` was found at the path that it asks about; nothing where the
/// look failed.
pub fn advance(step: Step, seen: Option<FileKind>) -> (r: Result<Step, ServeError>)
    ensures
        follows(step, seen, r),
{
    match step {
        Step::Examine { root, path } => match seen {
            None => Err(ServeError::NotFound),
            Some(FileKind::Dir) => Ok(open_index(root.as_path(), path)),
            Some(_) => Ok(Step::SendFile { path }),
        },
        Step::ExamineIndex { dir, index, target } => match seen {
            Some(FileKind::File) => Ok(Step::SendIndex { index, target }),
            _ => Ok(Step::SendListing { dir }),
        },
        step => Ok(step),
    }
}

/// The head of a response.
#[derive(Debug)]
pub struct Head {
    pub status: u16,
    pub content_type: String,
    pub content_length: Option<u64>,
}

/// The head that a file is sent with: the media type of its path, and its length.
pub fn file_head(path: &Path, len: u64) -> (head: Head)
    ensures
        head.status == 200,
        head.content_type@ == first_type(types_of_path(path_bytes(path))),
        head.content_length == Some(len),
{
    Head { status: 200, content_type: mime_for(path), content_length: Some(len) }
}

/// The head that a listing is sent with.
pub fn listing_head() -> (head: Head)
    ensures
        head.status == 200,
        head.content_type@ == "text/html; charset=utf-8"@,
        head.content_length is None,
{
    Head {
        status: 200,
        content_type: "text/html; charset=utf-8".to_owned(),
        content_length: None,
    }
}

/// The index page of a directory takes the place of its listing exactly where it resolves to a
/// regular file in the served directory.
pub proof fn index_page_comes_first(
    root: Seq<u8>,
    dir: Seq<u8>,
    found: Option<Seq<u8>>,
    opened: Step,
    seen: Option<FileKind>,
    sent: Result<Step, ServeError>,
)
    requires
        opens(root, dir, found, opened),
        follows(opened, seen, sent),
    ensures
        match found {
            Some(p) if starts_with(p, root) && seen == Some(FileKind::File) => {
                &&& sent matches Ok(Step::SendIndex { index, target })
                &&& buf_bytes(&index) == index_path(dir)
                &&& buf_bytes(&target) == p
            },
            _ => sent matches Ok(Step::SendListing { dir: d }) && buf_bytes(&d) == dir,
        },
{
}

/// Whether all that a step looks at or sends lies in the directory `root`.
pub open spec fn stays_in(root: Seq<u8>, step: Step) -> bool {
    match step {
        Step::Examine { root: r, path } => buf_bytes(&r) == root && starts_with(
            buf_bytes(&path),
            root,
        ),
        Step::ExamineIndex { dir, target, .. } => starts_with(buf_bytes(&dir), root)
            && starts_with(buf_bytes(&target), root),
        Step::SendFile { path } => starts_with(buf_bytes(&path), root),
        Step::SendIndex { target, .. } => starts_with(buf_bytes(&target), root),
        Step::SendListing { dir } => starts_with(buf_bytes(&dir), root),
    }
}

/// The first step of a request, by path or for the served directory itself, stays in the served
/// directory.
pub proof fn requests_start_in_the_directory(
    root: Seq<u8>,
    rel: Seq<u8>,
    first: Result<Step, ServeError>,
)
    requires
        begins(Some(root), rel, first) || (first is Ok && enters(root, root, first->Ok_0)),
    ensures
        first matches Ok(step) ==> stays_in(root, step),
{
    assert(components(root) =~= components(root).subrange(0, components(root).len() as int));
    if begins(Some(root), rel, first) {
        if let Ok(Step::Examine { path, .. }) = first {
            served_path_is_inside(root, rel, Ok(path));
        }
    }
}

/// From a step in the served directory, whatever is seen on the disk, follows only a step in
/// the served directory, so nothing outside of it is sent.
pub proof fn requests_stay_in_the_directory(
    root: Seq<u8>,
    step: Step,
    seen: Option<FileKind>,
    r: Result<Step, ServeError>,
)
    requires
        stays_in(root, step),
        follows(step, seen, r),
    ensures
        r matches Ok(next) ==> stays_in(root, next),
{
}

/// Whether a step ends a request.
pub open spec fn is_final(step: Step) -> bool {
    step is SendFile || step is SendIndex || step is SendListing
}

/// How many looks at the disk a step is at most away from its end.
pub open spec fn looks_left(step: Step) -> nat {
    match step {
        Step::Examine { .. } => 2,
        Step::ExamineIndex { .. } => 1,
        _ => 0,
    }
}

/// Every look that a step asks for brings a request closer to its end, so it is answered after
/// two at most.
pub proof fn requests_come_to_an_end(
    step: Step,
    seen: Option<FileKind>,
    r: Result<Step, ServeError>,
)
    requires
        !is_final(step),
        follows(step, seen, r),
    ensures
        r matches Ok(s) ==> looks_left(s) < looks_left(step),
        looks_left(step) <= 2,
{
}

/// Every directory in the served directory, at any depth, is answered by what its index page
/// resolves to: the page is looked at exactly where that path has the components of the served
/// directory first, and otherwise the directory is listed.
pub proof fn directories_are_entered_by_their_index_page(
    root: Seq<u8>,
    dir: Seq<u8>,
    step: Step,
) -> (found: Option<Seq<u8>>)
    requires
        enters(root, dir, step),
    ensures
        canonicalizes(push_path(dir, encode_utf8("index.html"@)), found),
        (found is Some && exists|more: Seq<Seq<u8>>|
            components(found->0) == #[trigger] (components(root) + more)) ==> ({
            &&& step matches Step::ExamineIndex { dir: d, index, target }
            &&& buf_bytes(&d) == dir
            &&& buf_bytes(&index) == push_path(dir, encode_utf8("index.html"@))
            &&& buf_bytes(&target) == found->0
        }),
        !(found is Some && exists|more: Seq<Seq<u8>>|
            components(found->0) == #[trigger] (components(root) + more)) ==> (step matches
            Step::SendListing { dir: d } && buf_bytes(&d) == dir),
{
    let found = choose|found: Option<Seq<u8>>| #[trigger]
        resolves(index_path(dir), found) && opens(root, dir, found, step);
    if found is Some {
        starting_is_having_the_first_components(found->0, root);
    }
    found
}

/// A request for a directory, at any depth, that is seen to be one: where its index page can only
/// resolve to `page`, which has the components of the served directory first, `page` is looked at
/// next, and sent as the index page if it is a regular file; if not, the directory is listed.
pub proof fn index_pages_are_sent_at_any_depth(
    root: PathBuf,
    path: PathBuf,
    page: Seq<u8>,
    more: Seq<Seq<u8>>,
    opened: Result<Step, ServeError>,
    seen: Option<FileKind>,
    sent: Result<Step, ServeError>,
)
    requires
        follows(Step::Examine { root, path }, Some(FileKind::Dir), opened),
        forall|found: Option<Seq<u8>>| #[trigger]
            canonicalizes(push_path(buf_bytes(&path), encode_utf8("index.html"@)), found)
                ==> found == Some(page),
        components(page) == components(buf_bytes(&root)) + more,
        opened is Ok ==> follows(opened->Ok_0, seen, sent),
    ensures
        ({
            &&& opened matches Ok(Step::ExamineIndex { dir, index, target })
            &&& buf_bytes(&dir) == buf_bytes(&path)
            &&& buf_bytes(&target) == page
        }),
        seen == Some(FileKind::File) ==> ({
            &&& sent matches Ok(Step::SendIndex { index, target })
            &&& buf_bytes(&index) == push_path(buf_bytes(&path), encode_utf8("index.html"@))
            &&& buf_bytes(&target) == page
        }),
        seen != Some(FileKind::File) ==> (sent matches Ok(Step::SendListing { dir }) && buf_bytes(
            &dir,
        ) == buf_bytes(&path)),
{
    let found = directories_are_entered_by_their_index_page(
        buf_bytes(&root),
        buf_bytes(&path),
        opened->Ok_0,
    );
    assert(exists|m: Seq<Seq<u8>>|
        components(page) == #[trigger] (components(buf_bytes(&root)) + m)) by {
        assert(components(page) == components(buf_bytes(&root)) + more);
    }
}

/// A request for a directory, at any depth, that is seen to be one: where its index page cannot
/// resolve to a path with the components of the served directory first, the directory is listed.
pub proof fn directories_without_index_page_are_listed(
    root: PathBuf,
    path: PathBuf,
    opened: Result<Step, ServeError>,
)
    requires
        follows(Step::Examine { root, path }, Some(FileKind::Dir), opened),
        forall|page: Seq<u8>, more: Seq<Seq<u8>>|
            #![trigger canonicalizes(push_path(buf_bytes(&path), encode_utf8("index.html"@)), Some(page)), components(buf_bytes(&root)) + more]
            canonicalizes(push_path(buf_bytes(&path), encode_utf8("index.html"@)), Some(page))
                ==> components(page) != components(buf_bytes(&root)) + more,
    ensures
        opened matches Ok(Step::SendListing { dir }) && buf_bytes(&dir) == buf_bytes(&path),
{
    let found = directories_are_entered_by_their_index_page(
        buf_bytes(&root),
        buf_bytes(&path),
        opened->Ok_0,
    );
    if found is Some && exists|m: Seq<Seq<u8>>|
        components(found->0) == #[trigger] (components(buf_bytes(&root)) + m) {
        let m = choose|m: Seq<Seq<u8>>|
            components(found->0) == #[trigger] (components(buf_bytes(&root)) + m);
        assert(canonicalizes(
            push_path(buf_bytes(&path), encode_utf8("index.html"@)),
            Some(found->0),
        ));
        assert(false);
    }
}

/// What is not a directory is sent as it is, whatever its path; what cannot be looked at is not
/// found.
pub proof fn files_are_sent_as_they_are(
    root: PathBuf,
    path: PathBuf,
    seen: Option<FileKind>,
    r: Result<Step, ServeError>,
)
    requires
        follows(Step::Examine { root, path }, seen, r),
        seen != Some(FileKind::Dir),
    ensures
        seen is None ==> r matches Err(ServeError::NotFound),
        seen is Some ==> (r matches Ok(Step::SendFile { path: p }) && p == path),
{
}

/// A request that is not refused has the path that it is answered with examined, and a request that
/// is refused fails as its answer does.
pub proof fn requests_are_examined_at_their_answer(
    root: Seq<u8>,
    rel: Seq<u8>,
    first: Result<Step, ServeError>,
)
    requires
        begins(Some(root), rel, first),
    ensures
        first matches Ok(step) ==> ({
            &&& step matches Step::Examine { root: r, path }
            &&& buf_bytes(&r) == root
            &&& answers(Some(root), rel, Ok(path))
        }),
        first matches Err(e) ==> answers(Some(root), rel, Err(e)),
{
}

/// From a request to what is sent: a relative request that never has more `..` than names, whose
/// path can only resolve to `page` with the components of the served directory first, has `page`
/// examined, at any depth.
pub proof fn what_is_inside_is_examined(
    root: Seq<u8>,
    rel: Seq<u8>,
    page: Seq<u8>,
    more: Seq<Seq<u8>>,
    first: Result<Step, ServeError>,
)
    requires
        is_canonical(root),
        begins(Some(root), rel, first),
        rel.len() > 0,
        rel != seq![DOT],
        !is_absolute(rel),
        forall|k: int|
            0 <= k <= pieces(rel).len() ==> ups(#[trigger] pieces(rel).take(k)) <= downs(
                pieces(rel).take(k),
            ),
        forall|found: Option<Seq<u8>>| #[trigger]
            canonicalizes(build(components(root) + counting(pieces(rel))), found) ==> found == Some(
                page,
            ),
        components(page) == components(root) + more,
    ensures
        first matches Ok(Step::Examine { root: r, path }) && buf_bytes(&r) == root && buf_bytes(
            &path,
        ) == page,
{
    assert(exists|m: Seq<Seq<u8>>| components(page) == #[trigger] (components(root) + m)) by {
        assert(components(page) == components(root) + more);
    }
    match first {
        Ok(step) => {
            if let Step::Examine { path, .. } = step {
                let found = what_is_inside_is_served(root, rel, Ok(path));
            }
        },
        Err(e) => {
            let found = what_is_inside_is_served(root, rel, Err(e));
        },
    }
}

/// Without a directory to serve, every request by path is not found.
pub proof fn nothing_is_examined_without_a_directory(rel: Seq<u8>, first: Result<Step, ServeError>)
    requires
        begins(None, rel, first),
    ensures
        first matches Err(ServeError::NotFound),
{
    if let Err(e) = first {
        nothing_is_served_without_a_directory(rel, Err(e));
    }
}

/// A step that says what to send stays as it is.
pub proof fn what_is_to_be_sent_stays(
    step: Step,
    seen: Option<FileKind>,
    r: Result<Step, ServeError>,
)
    requires
        step is SendFile || step is SendIndex || step is SendListing,
        follows(step, seen, r),
    ensures
        r matches Ok(s) && s == step,
{
}

} // verus!
