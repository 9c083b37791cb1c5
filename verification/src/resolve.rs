//! From a request to a path below the served directory.

use std::path::{Path, PathBuf};

use vstd::prelude::*;
use vstd::slice::slice_subrange;
use vstd::utf8::*;

use crate::components::{
    build, components, counting, counts, find_slash, is_absolute, is_canonical, joined_pieces,
    next_slash_bounds, path_starts_with, pieces, pieces_from, push_path, push_path_components,
    rebuild_keeps_components, starting_is_having_the_first_components, starts_with, DOT, SLASH,
};
use crate::error::ServeError;
use crate::paths::{
    buf_bytes, bytes_of, canonicalize, canonicalizes, found_bytes, join, path_bytes, rebuild, resolves,
};

verus! {

/// How many levels one piece leads down: none for an empty piece and for `.`, one up for
/// `..`, one down for a name.
pub open spec fn piece_step(p: Seq<u8>) -> int {
    if p.len() == 0 || p == seq![DOT] {
        0
    } else if p == seq![DOT, DOT] {
        -1
    } else {
        1
    }
}

/// How many levels below its start a walk along the pieces ends.
pub open spec fn level(p: Seq<Seq<u8>>) -> int
    decreases p.len(),
{
    if p.len() == 0 {
        0
    } else {
        level(p.drop_last()) + piece_step(p.last())
    }
}

/// Whether a request, read from left to right, at some point climbs above its start.
pub open spec fn climbs_out(b: Seq<u8>) -> bool {
    exists|k: int| 0 <= k <= pieces(b).len() && level(#[trigger] pieces(b).take(k)) < 0
}

/// Whether a request asks for the served directory itself.
pub open spec fn is_root_request(b: Seq<u8>) -> bool {
    b.len() == 0 || b == seq![DOT]
}

/// The path that is looked up for the request `rel` below the canonical directory `root`,
/// or nothing where the request is forbidden: an absolute one, and one that climbs.
pub open spec fn lookup_path(root: Seq<u8>, rel: Seq<u8>) -> Option<Seq<u8>> {
    let path = build(components(push_path(root, rel)));
    if is_absolute(rel) || climbs_out(rel) || !starts_with(path, root) {
        None
    } else {
        Some(path)
    }
}

/// Whether `r` is the answer to a look-up below `root` that ended with `found`.
pub open spec fn settles(
    root: Seq<u8>,
    found: Option<Seq<u8>>,
    r: Result<PathBuf, ServeError>,
) -> bool {
    match found {
        None => r matches Err(ServeError::NotFound),
        Some(path) => if starts_with(path, root) {
            r matches Ok(p) && buf_bytes(&p) == path
        } else {
            r matches Err(ServeError::Forbidden)
        },
    }
}

/// Whether `r` is the answer to the request `rel` below the directory whose resolution ended
/// with `root`.
pub open spec fn answers(
    root: Option<Seq<u8>>,
    rel: Seq<u8>,
    r: Result<PathBuf, ServeError>,
) -> bool {
    match root {
        None => r matches Err(ServeError::NotFound),
        Some(root) => if is_root_request(rel) {
            r matches Ok(p) && buf_bytes(&p) == root
        } else {
            match lookup_path(root, rel) {
                None => r matches Err(ServeError::Forbidden),
                Some(path) => exists|found: Option<Seq<u8>>| #[trigger]
                    resolves(path, found) && settles(root, found, r),
            }
        },
    }
}

/// Appending a piece adds its step to the level.
proof fn level_push(p: Seq<Seq<u8>>, last: Seq<u8>)
    ensures
        level(p.push(last)) == level(p) + piece_step(last),
{
    assert(p.push(last).drop_last() =~= p);
}

/// Whether a request climbs above its start.
fn has_climb(rel: &[u8]) -> (out: bool)
    ensures
        out == climbs_out(rel@),
{
    let n: usize = rel.len();
    let mut depth: usize = 0;
    let mut start: usize = 0;
    let mut more = true;
    let ghost mut seen: Seq<Seq<u8>> = Seq::empty();
    proof {
        assert(seen + pieces_from(rel@, 0) =~= pieces(rel@));
    }
    while more
        invariant
            n == rel@.len(),
            start <= n,
            more ==> seen + pieces_from(rel@, start as int) == pieces(rel@),
            !more ==> seen == pieces(rel@),
            depth == level(seen),
            depth <= n,
            more ==> depth <= start,
            forall|k: int| 0 <= k <= seen.len() ==> level(#[trigger] seen.take(k)) >= 0,
        decreases
            n - start,
            if more {
                1int
            } else {
                0
            },
    {
        proof {
            next_slash_bounds(rel@, start as int);
        }
        let end: usize = find_slash(rel, start);
        let piece = slice_subrange(rel, start, end);
        let ghost before = seen;
        proof {
            level_push(seen, piece@);
            seen = seen.push(piece@);
            if end < n {
                assert(seen + pieces_from(rel@, end + 1) =~= before + pieces_from(
                    rel@,
                    start as int,
                ));
            } else {
                assert(seen =~= before + pieces_from(rel@, start as int));
            }
            assert(piece@.len() == 1 ==> piece@ =~= seq![piece@[0]]);
            assert(piece@.len() == 2 ==> piece@ =~= seq![piece@[0], piece@[1]]);
            assert(piece@ == seq![DOT] ==> piece@[0] == DOT && piece@.len() == 1);
            assert(piece@ == seq![DOT, DOT] ==> piece@[0] == DOT && piece@[1] == DOT && piece@.len()
                == 2);
        }
        let len: usize = piece.len();
        if len == 0 || (len == 1 && piece[0] == DOT) {
            // Neither an empty piece nor `.` leads anywhere.
        } else if len == 2 && piece[0] == DOT && piece[1] == DOT {
            if depth == 0 {
                proof {
                    let k = seen.len() as int;
                    assert(pieces(rel@).take(k) =~= seen);
                    assert(level(pieces(rel@).take(k)) < 0);
                }
                return true;
            }
            depth = depth - 1;
        } else {
            depth = depth + 1;
        }
        proof {
            assert forall|k: int| 0 <= k <= seen.len() implies level(#[trigger] seen.take(k))
                >= 0 by {
                if k <= before.len() {
                    assert(seen.take(k) =~= before.take(k));
                } else {
                    assert(seen.take(k) =~= seen);
                }
            }
        }
        if end < n {
            start = end + 1;
        } else {
            more = false;
        }
    }
    false
}

/// The path to look up for the request `rel` below the canonical directory `root`.
///
/// An absolute request, one that climbs above its start, and one whose path does not lie below
/// the directory is forbidden.
pub fn lookup(root: &Path, rel: &str) -> (r: Result<PathBuf, ServeError>)
    ensures
        match lookup_path(path_bytes(root), encode_utf8(rel@)) {
            Some(path) => r matches Ok(p) && buf_bytes(&p) == path,
            None => r matches Err(ServeError::Forbidden),
        },
{
    let bytes = rel.as_bytes();
    if (bytes.len() > 0 && bytes[0] == SLASH) || has_climb(bytes) {
        return Err(ServeError::Forbidden);
    }
    let joined = join(root, rel);
    let normalized = rebuild(joined.as_path());
    if !path_starts_with(bytes_of(normalized.as_path()), bytes_of(root)) {
        return Err(ServeError::Forbidden);
    }
    Ok(normalized)
}

/// The answer to a look-up below the canonical directory `root` that ended with `found`: a
/// path that symbolic links lead out of the directory is forbidden.
pub fn settle(root: &Path, found: Option<PathBuf>) -> (r: Result<PathBuf, ServeError>)
    ensures
        settles(path_bytes(root), found_bytes(found), r),
{
    match found {
        None => Err(ServeError::NotFound),
        Some(path) => {
            if path_starts_with(bytes_of(path.as_path()), bytes_of(root)) {
                Ok(path)
            } else {
                Err(ServeError::Forbidden)
            }
        },
    }
}

/// Resolves the request `rel` to a path in the canonical directory `root`.
pub fn join_below(root: &Path, rel: &str) -> (r: Result<PathBuf, ServeError>)
    ensures
        answers(Some(path_bytes(root)), encode_utf8(rel@), r),
{
    let bytes = rel.as_bytes();
    proof {
        assert(bytes@.len() == 1 ==> bytes@ =~= seq![bytes@[0]]);
        assert(bytes@ == seq![DOT] ==> bytes@[0] == DOT && bytes@.len() == 1);
    }
    if bytes.len() == 0 || (bytes.len() == 1 && bytes[0] == DOT) {
        return Ok(root.to_path_buf());
    }
    let path = lookup(root, rel)?;
    let found = canonicalize(path.as_path());
    assert(resolves(buf_bytes(&path), found_bytes(found)));
    settle(root, found)
}

/// Resolves the request `rel` to a path in the directory `root`.
pub fn safe_join(root: &Path, rel: &str) -> (r: Result<PathBuf, ServeError>)
    ensures
        exists|canonical: Option<Seq<u8>>| #[trigger]
            resolves(path_bytes(root), canonical) && answers(
                canonical,
                encode_utf8(rel@),
                r,
            ),
{
    let resolved = canonicalize(root);
    assert(resolves(path_bytes(root), found_bytes(resolved)));
    match resolved {
        Some(canonical) => join_below(canonical.as_path(), rel),
        None => Err(ServeError::NotFound),
    }
}

/// Every path that a request is answered with lies in the served directory.
pub proof fn served_path_is_inside(root: Seq<u8>, rel: Seq<u8>, r: Result<PathBuf, ServeError>)
    requires
        answers(Some(root), rel, r),
        r is Ok,
    ensures
        starts_with(buf_bytes(&r->Ok_0), root),
{
    assert(components(root) =~= components(root).subrange(0, components(root).len() as int));
}

/// A request that climbs above its start is never answered with a path, whatever the disk
/// holds: it is forbidden where the served directory exists.
pub proof fn climbing_is_refused(
    canonical: Option<Seq<u8>>,
    rel: Seq<u8>,
    r: Result<PathBuf, ServeError>,
)
    requires
        answers(canonical, rel, r),
        climbs_out(rel),
    ensures
        canonical is Some ==> r matches Err(ServeError::Forbidden),
        canonical is None ==> r matches Err(ServeError::NotFound),
{
    if is_root_request(rel) {
        root_request_is_level(rel);
    }
}

/// A request for the directory itself does not climb.
proof fn root_request_is_level(rel: Seq<u8>)
    requires
        is_root_request(rel),
    ensures
        !climbs_out(rel),
        pieces(rel) == seq![rel],
{
    next_slash_bounds(rel, 0);
    let p = pieces(rel);
    assert(rel.subrange(0, rel.len() as int) =~= rel);
    if rel.len() > 0 {
        assert(rel[0] == DOT);
    }
    assert(p =~= seq![rel]);
    assert forall|k: int| 0 <= k <= p.len() implies level(#[trigger] p.take(k)) == 0 by {
        reveal_with_fuel(level, 2);
        if k == 1 {
            assert(p.take(k).drop_last() =~= Seq::<Seq<u8>>::empty());
        }
    }
}

/// A request fails only because nothing is found or because it is forbidden.
pub proof fn failures_are_not_found_or_forbidden(
    canonical: Option<Seq<u8>>,
    rel: Seq<u8>,
    r: Result<PathBuf, ServeError>,
)
    requires
        answers(canonical, rel, r),
        r is Err,
    ensures
        r->Err_0 is NotFound || r->Err_0 is Forbidden,
{
}

/// A relative request is looked up exactly where it does not climb, and then at the
/// components of the directory followed by its own.
pub proof fn relative_requests_stay_below(root: Seq<u8>, rel: Seq<u8>)
    requires
        is_absolute(root),
        !is_absolute(rel),
    ensures
        lookup_path(root, rel) is Some <==> !climbs_out(rel),
        lookup_path(root, rel) matches Some(p) ==> components(p) == components(root) + counting(
            pieces(rel),
        ),
{
    push_path_components(root, rel);
    rebuild_keeps_components(push_path(root, rel));
    let c = components(root);
    assert((c + counting(pieces(rel))).subrange(0, c.len() as int) =~= c);
}

/// Whether a walk along some pieces climbs above its start.
spec fn walk_climbs(p: Seq<Seq<u8>>) -> bool {
    exists|k: int| 0 <= k <= p.len() && level(#[trigger] p.take(k)) < 0
}

/// A walk climbs where it climbs before its last piece, or with it.
proof fn walk_climbs_step(p: Seq<Seq<u8>>)
    requires
        p.len() > 0,
    ensures
        walk_climbs(p) == (walk_climbs(p.drop_last()) || level(p) < 0),
{
    let front = p.drop_last();
    let n = p.len() as int;
    assert(p.take(n) =~= p);
    if walk_climbs(p) && level(p) >= 0 {
        let k = choose|k: int| 0 <= k <= p.len() && level(#[trigger] p.take(k)) < 0;
        assert(front.take(k) =~= p.take(k));
    }
    if walk_climbs(front) {
        let k = choose|k: int| 0 <= k <= front.len() && level(#[trigger] front.take(k)) < 0;
        assert(front.take(k) =~= p.take(k));
    }
    if level(p) < 0 {
        assert(level(p.take(n)) < 0);
    }
}

/// Pieces that do not count do not change where a walk leads.
proof fn walk_along_counting(p: Seq<Seq<u8>>)
    ensures
        level(counting(p)) == level(p),
        walk_climbs(counting(p)) == walk_climbs(p),
    decreases p.len(),
{
    if p.len() > 0 {
        let front = p.drop_last();
        walk_along_counting(front);
        walk_climbs_step(p);
        if counts(p.last()) {
            level_push(counting(front), p.last());
            walk_climbs_step(counting(p));
            assert(counting(p).drop_last() =~= counting(front));
        } else if level(p) < 0 {
            assert(front.take(front.len() as int) =~= front);
            assert(level(front.take(front.len() as int)) < 0);
        }
    }
}

/// Empty and `.` segments, and slashes at the end, do not matter: relative requests with the
/// same other segments are looked up at the same path, and have the same answers. Where only one
/// of them asks for the served directory by the empty text or `.`, this takes that the directory
/// resolves to itself.
pub proof fn empty_and_dot_segments_do_not_matter(
    root: Seq<u8>,
    a: Seq<u8>,
    b: Seq<u8>,
    r: Result<PathBuf, ServeError>,
)
    requires
        is_canonical(root),
        !is_absolute(a),
        !is_absolute(b),
        counting(pieces(a)) == counting(pieces(b)),
    ensures
        climbs_out(a) == climbs_out(b),
        lookup_path(root, a) == lookup_path(root, b),
        is_root_request(a) == is_root_request(b) || (forall|found: Option<Seq<u8>>|
            #[trigger] resolves(root, found) <==> found == Some(root)) ==> answers(
            Some(root),
            a,
            r,
        ) == answers(Some(root), b, r),
{
    walk_along_counting(pieces(a));
    walk_along_counting(pieces(b));
    assert(climbs_out(a) == walk_climbs(pieces(a)));
    assert(climbs_out(b) == walk_climbs(pieces(b)));
    push_path_components(root, a);
    push_path_components(root, b);
    if is_root_request(a) != is_root_request(b) {
        let bare = if is_root_request(a) {
            a
        } else {
            b
        };
        root_request_is_level(bare);
        let none = Seq::<Seq<u8>>::empty();
        assert(counting(pieces(bare)) =~= none) by {
            reveal_with_fuel(counting, 2);
            assert(pieces(bare).drop_last() =~= none);
        }
        assert(components(root) + none =~= components(root));
        assert(components(root) =~= components(root).subrange(0, components(root).len() as int));
        if forall|found: Option<Seq<u8>>| #[trigger]
            resolves(root, found) <==> found == Some(root) {
            assert(resolves(root, Some(root)));
        }
    }
}

/// A relative request has the answers of its tidy form, its segments other than the empty ones
/// and `.` joined by single slashes.
pub proof fn requests_act_as_their_tidy_form(
    root: Seq<u8>,
    rel: Seq<u8>,
    r: Result<PathBuf, ServeError>,
)
    requires
        is_canonical(root),
        !is_absolute(rel),
    ensures
        ({
            let tidy = build(counting(pieces(rel)));
            &&& lookup_path(root, tidy) == lookup_path(root, rel)
            &&& is_root_request(rel) == is_root_request(tidy) || (forall|found: Option<Seq<u8>>|
                #[trigger] resolves(root, found) <==> found == Some(root)) ==> answers(
                Some(root),
                rel,
                r,
            ) == answers(Some(root), tidy, r)
        }),
{
    joined_pieces(rel);
    empty_and_dot_segments_do_not_matter(root, rel, build(counting(pieces(rel))), r);
}

/// An absolute request is never answered with a path, whatever it names: it is forbidden where
/// the served directory exists.
pub proof fn absolute_requests_are_refused(
    canonical: Option<Seq<u8>>,
    rel: Seq<u8>,
    r: Result<PathBuf, ServeError>,
)
    requires
        answers(canonical, rel, r),
        is_absolute(rel),
    ensures
        canonical is Some ==> r matches Err(ServeError::Forbidden),
        canonical is None ==> r matches Err(ServeError::NotFound),
{
    assert(rel != seq![DOT]) by {
        assert(seq![DOT][0] == DOT);
    }
}

/// The components that are left when each `..` takes back the component before it.
pub open spec fn lexical(c: Seq<Seq<u8>>) -> Seq<Seq<u8>>
    decreases c.len(),
{
    if c.len() == 0 {
        c
    } else {
        let front = lexical(c.drop_last());
        if c.last() != seq![DOT, DOT] {
            front.push(c.last())
        } else if front.len() > 0 {
            front.drop_last()
        } else {
            front
        }
    }
}

/// Without `..` there is nothing to take back.
proof fn lexical_plain(c: Seq<Seq<u8>>)
    requires
        !c.contains(seq![DOT, DOT]),
    ensures
        lexical(c) == c,
    decreases c.len(),
{
    if c.len() > 0 {
        let front = c.drop_last();
        assert(!front.contains(seq![DOT, DOT])) by {
            if front.contains(seq![DOT, DOT]) {
                let k = choose|k: int| 0 <= k < front.len() && front[k] == seq![DOT, DOT];
                assert(c[k] == seq![DOT, DOT]);
            }
        }
        lexical_plain(front);
        assert(c[c.len() - 1] != seq![DOT, DOT]);
        assert(front.push(c.last()) =~= c);
    }
}

/// Below a directory, the lexical walk along `k` pieces is as deep as their level.
proof fn lexical_level(root: Seq<Seq<u8>>, p: Seq<Seq<u8>>, k: int)
    requires
        !root.contains(seq![DOT, DOT]),
        0 <= k <= p.len(),
        forall|l: int| 0 <= l <= k ==> level(#[trigger] p.take(l)) >= 0,
    ensures
        root.is_prefix_of(lexical(root + counting(p.take(k)))),
        lexical(root + counting(p.take(k))).len() == root.len() + level(p.take(k)),
    decreases k,
{
    let now = p.take(k);
    if k == 0 {
        assert(root + counting(now) =~= root);
        lexical_plain(root);
        assert(root =~= root.subrange(0, root.len() as int));
    } else {
        lexical_level(root, p, k - 1);
        let before = p.take(k - 1);
        assert(now.drop_last() =~= before);
        let piece = now.last();
        let c = root + counting(before);
        assert(level(p.take(k)) >= 0);
        if counts(piece) {
            assert(root + counting(now) =~= c.push(piece));
            assert(c.push(piece).drop_last() =~= c);
            let walk = lexical(c);
            if piece == seq![DOT, DOT] {
                assert(root =~= walk.drop_last().subrange(0, root.len() as int)) by {
                    assert(root =~= walk.subrange(0, root.len() as int));
                    assert forall|i: int| 0 <= i < root.len() implies root[i]
                        == walk.drop_last()[i] by {
                        assert(root[i] == walk.subrange(0, root.len() as int)[i]);
                    }
                }
            } else {
                assert(root =~= walk.push(piece).subrange(0, root.len() as int)) by {
                    assert forall|i: int| 0 <= i < root.len() implies root[i]
                        == walk.push(piece)[i] by {
                        assert(root[i] == walk.subrange(0, root.len() as int)[i]);
                    }
                }
            }
        }
    }
}

/// A relative request that does not climb never leaves the directory on its way: read up to
/// any of its pieces, with each `..` taking back the name before it, it ends in the directory.
pub proof fn request_never_leaves(root: Seq<u8>, rel: Seq<u8>, k: int)
    requires
        is_canonical(root),
        !is_absolute(rel),
        !climbs_out(rel),
        0 <= k <= pieces(rel).len(),
    ensures
        components(root).is_prefix_of(lexical(components(root) + counting(pieces(rel).take(k)))),
{
    lexical_level(components(root), pieces(rel), k);
}

/// How many pieces are `..`.
pub open spec fn ups(p: Seq<Seq<u8>>) -> nat {
    p.filter(|q: Seq<u8>| q == seq![DOT, DOT]).len()
}

/// How many pieces are names: not empty, not `.` and not `..`.
pub open spec fn downs(p: Seq<Seq<u8>>) -> nat {
    p.filter(|q: Seq<u8>| q.len() > 0 && q != seq![DOT] && q != seq![DOT, DOT]).len()
}

/// The level is the number of names less that of `..`.
proof fn level_is_downs_less_ups(p: Seq<Seq<u8>>)
    ensures
        level(p) == downs(p) - ups(p),
    decreases p.len(),
{
    reveal(Seq::filter);
    assert(seq![DOT, DOT].len() == 2 && seq![DOT].len() == 1);
    if p.len() > 0 {
        level_is_downs_less_ups(p.drop_last());
    }
}

/// A request climbs exactly where, up to some segment, it has more `..` than names.
pub proof fn climbing_is_more_ups_than_downs(rel: Seq<u8>)
    ensures
        climbs_out(rel) <==> exists|k: int|
            0 <= k <= pieces(rel).len() && ups(#[trigger] pieces(rel).take(k)) > downs(
                pieces(rel).take(k),
            ),
{
    assert forall|k: int| 0 <= k <= pieces(rel).len() implies level(#[trigger] pieces(rel).take(k))
        == downs(pieces(rel).take(k)) - ups(pieces(rel).take(k)) by {
        level_is_downs_less_ups(pieces(rel).take(k));
    }
    if climbs_out(rel) {
        let k = choose|k: int| 0 <= k <= pieces(rel).len() && level(#[trigger] pieces(rel).take(k))
            < 0;
        assert(ups(pieces(rel).take(k)) > downs(pieces(rel).take(k)));
    }
    if exists|k: int|
        0 <= k <= pieces(rel).len() && ups(#[trigger] pieces(rel).take(k)) > downs(
            pieces(rel).take(k),
        ) {
        let k = choose|k: int|
            0 <= k <= pieces(rel).len() && ups(#[trigger] pieces(rel).take(k)) > downs(
                pieces(rel).take(k),
            );
        assert(level(pieces(rel).take(k)) < 0);
    }
}

/// A request for the empty text or `.` is answered with the served directory.
pub proof fn the_directory_itself_is_served(
    root: Seq<u8>,
    rel: Seq<u8>,
    r: Result<PathBuf, ServeError>,
)
    requires
        rel.len() == 0 || rel == seq![DOT],
        answers(Some(root), rel, r),
    ensures
        r matches Ok(p) && buf_bytes(&p) == root,
{
}

/// A request without a directory to serve is answered with `NotFound`.
pub proof fn nothing_is_served_without_a_directory(rel: Seq<u8>, r: Result<PathBuf, ServeError>)
    requires
        answers(None, rel, r),
    ensures
        r matches Err(ServeError::NotFound),
{
}

/// What is in the directory is served, at any depth: a relative request that does not climb is
/// looked up at the components of the directory followed by its own segments, and the path that
/// this resolves to is the answer wherever the components of the directory are its first ones. It
/// is `NotFound` exactly where the path does not resolve, and `Forbidden` exactly where it resolves
/// to a path elsewhere.
pub proof fn what_is_inside_is_served(
    root: Seq<u8>,
    rel: Seq<u8>,
    r: Result<PathBuf, ServeError>,
) -> (found: Option<Seq<u8>>)
    requires
        is_canonical(root),
        answers(Some(root), rel, r),
        rel.len() > 0,
        rel != seq![DOT],
        !is_absolute(rel),
        forall|k: int|
            0 <= k <= pieces(rel).len() ==> ups(#[trigger] pieces(rel).take(k)) <= downs(
                pieces(rel).take(k),
            ),
    ensures
        canonicalizes(build(components(root) + counting(pieces(rel))), found),
        found is None ==> r matches Err(ServeError::NotFound),
        found is Some ==> ((exists|more: Seq<Seq<u8>>|
            components(found->0) == #[trigger] (components(root) + more)) ==> (r matches Ok(p)
            && buf_bytes(&p) == found->0)),
        found is Some ==> (!(exists|more: Seq<Seq<u8>>|
            components(found->0) == #[trigger] (components(root) + more)) ==> r matches Err(
            ServeError::Forbidden,
        )),
{
    climbing_is_more_ups_than_downs(rel);
    relative_requests_stay_below(root, rel);
    push_path_components(root, rel);
    let path = lookup_path(root, rel)->0;
    let found = choose|found: Option<Seq<u8>>| #[trigger]
        resolves(path, found) && settles(root, found, r);
    if found is Some {
        starting_is_having_the_first_components(found->0, root);
    }
    found
}

/// `Forbidden` has a cause: the request is absolute, has at some segment more `..` than names, or
/// its path resolves to one whose first components are not those of the directory.
pub proof fn forbidden_has_a_cause(root: Seq<u8>, rel: Seq<u8>, r: Result<PathBuf, ServeError>)
    requires
        is_canonical(root),
        answers(Some(root), rel, r),
        r matches Err(ServeError::Forbidden),
    ensures
        is_absolute(rel) || (exists|k: int|
            0 <= k <= pieces(rel).len() && ups(#[trigger] pieces(rel).take(k)) > downs(
                pieces(rel).take(k),
            )) || (exists|p: Seq<u8>| #[trigger]
            canonicalizes(build(components(root) + counting(pieces(rel))), Some(p)) && !(exists|
                more: Seq<Seq<u8>>,
            | components(p) == #[trigger] (components(root) + more))),
{
    climbing_is_more_ups_than_downs(rel);
    if !is_absolute(rel) && !climbs_out(rel) {
        assert forall|k: int| 0 <= k <= pieces(rel).len() implies ups(
            #[trigger] pieces(rel).take(k),
        ) <= downs(pieces(rel).take(k)) by {
            if ups(pieces(rel).take(k)) > downs(pieces(rel).take(k)) {
                assert(climbs_out(rel));
            }
        }
        let found = what_is_inside_is_served(root, rel, r);
        assert(canonicalizes(build(components(root) + counting(pieces(rel))), Some(found->0)));
    }
}

/// A look-up that ended with a path is settled by its components alone: at any depth below the
/// directory it is answered with the path, elsewhere with `Forbidden`.
pub proof fn look_ups_settle_by_components(
    root: Seq<u8>,
    below: Seq<Seq<u8>>,
    path: Seq<u8>,
    r: Result<PathBuf, ServeError>,
)
    requires
        settles(root, Some(path), r),
    ensures
        components(path) == components(root) + below ==> (r matches Ok(p) && buf_bytes(&p) == path),
        r matches Ok(p) ==> buf_bytes(&p) == path,
        r is Err ==> r->Err_0 is Forbidden,
{
    starting_is_having_the_first_components(path, root);
    if components(path) == components(root) + below {
        assert(exists|more: Seq<Seq<u8>>| components(path) == #[trigger] (components(root) + more));
    }
}

} // verus!
