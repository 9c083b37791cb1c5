//! Unix paths as bytes: how a path falls into components, and what follows from that.
//!
//! A path is a byte sequence in which `/` separates. Its components are the root, where the
//! path starts with `/`, and the pieces between separators; empty pieces do not count, nor
//! does a piece `.` unless the path starts with it. This is how `std::path::Path` reads a
//! path; a component is given here by its bytes, so the root is the component `/`.

use vstd::prelude::*;
use vstd::slice::slice_subrange;

verus! {

/// The separator.
pub const SLASH: u8 = 47;

/// The byte that names the current directory and, twice, the parent directory.
pub const DOT: u8 = 46;

/// The position of the first separator at or after `i`, or the end of the path.
pub open spec fn next_slash(b: Seq<u8>, i: int) -> int
    decreases b.len() - i,
{
    if i >= b.len() {
        b.len() as int
    } else if b[i] == SLASH {
        i
    } else {
        next_slash(b, i + 1)
    }
}

/// Whether the piece of `b` from `i` to `j` counts as a component.
pub open spec fn is_component(b: Seq<u8>, i: int, j: int) -> bool {
    i < j && !(i > 0 && j == i + 1 && b[i] == DOT)
}

/// `next_slash` moves forward and stays inside the path.
pub proof fn next_slash_bounds(b: Seq<u8>, i: int)
    requires
        i <= b.len(),
    ensures
        i <= next_slash(b, i) <= b.len(),
        next_slash(b, i) < b.len() ==> b[next_slash(b, i)] == SLASH,
        forall|k: int| i <= k < next_slash(b, i) ==> b[k] != SLASH,
    decreases b.len() - i,
{
    if i < b.len() && b[i] != SLASH {
        next_slash_bounds(b, i + 1);
    }
}

/// Start and end of each component after the root, in the part of the path from `i` on.
pub open spec fn body_spans(b: Seq<u8>, i: int) -> Seq<(int, int)>
    decreases b.len() - i + 1,
{
    if i > b.len() {
        Seq::empty()
    } else {
        proof {
            next_slash_bounds(b, i);
        }
        let j = next_slash(b, i);
        let rest = body_spans(b, j + 1);
        if is_component(b, i, j) {
            seq![(i, j)] + rest
        } else {
            rest
        }
    }
}

/// Whether a path starts at the root.
pub open spec fn is_absolute(b: Seq<u8>) -> bool {
    b.len() > 0 && b[0] == SLASH
}

/// Start and end of each component of a path.
pub open spec fn spans(b: Seq<u8>) -> Seq<(int, int)> {
    if is_absolute(b) {
        seq![(0int, 1int)] + body_spans(b, 0)
    } else {
        body_spans(b, 0)
    }
}

/// The components of a path.
pub open spec fn components(b: Seq<u8>) -> Seq<Seq<u8>> {
    spans(b).map_values(|s: (int, int)| b.subrange(s.0, s.1))
}

/// Whether the components of `base` are the first components of `b`.
pub open spec fn starts_with(b: Seq<u8>, base: Seq<u8>) -> bool {
    components(base).is_prefix_of(components(b))
}

/// The text that starts with component `k` and ends with the last component.
pub open spec fn tail_text(b: Seq<u8>, k: int) -> Seq<u8> {
    if k < spans(b).len() {
        b.subrange(spans(b)[k].0, spans(b).last().1)
    } else {
        Seq::empty()
    }
}

/// What is left of `b` below `base`, where `b` lies below `base`.
pub open spec fn strip_prefix(b: Seq<u8>, base: Seq<u8>) -> Option<Seq<u8>> {
    if starts_with(b, base) {
        Some(tail_text(b, components(base).len() as int))
    } else {
        None
    }
}

/// Whether a component is a name, as opposed to the root, `.` and `..`.
pub open spec fn is_name(c: Seq<u8>) -> bool {
    c != seq![SLASH] && c != seq![DOT] && c != seq![DOT, DOT]
}

/// The last component of a path, where that is a name.
pub open spec fn file_name(b: Seq<u8>) -> Option<Seq<u8>> {
    let c = components(b);
    if c.len() > 0 && is_name(c.last()) {
        Some(c.last())
    } else {
        None
    }
}

/// The path without its last component, where it has one besides the root.
pub open spec fn parent(b: Seq<u8>) -> Option<Seq<u8>> {
    let s = spans(b);
    if s.len() == 0 || components(b).last() == seq![SLASH] {
        None
    } else if s.len() == 1 {
        Some(Seq::empty())
    } else {
        Some(b.subrange(0, s[s.len() - 2].1))
    }
}

/// The path `b` with `p` appended to it as a path of its own.
pub open spec fn push_path(b: Seq<u8>, p: Seq<u8>) -> Seq<u8> {
    if is_absolute(p) {
        p
    } else if b.len() == 0 || b.last() == SLASH {
        b + p
    } else {
        b.push(SLASH) + p
    }
}

/// The path that is built by appending components one by one.
pub open spec fn build(c: Seq<Seq<u8>>) -> Seq<u8>
    decreases c.len(),
{
    if c.len() == 0 {
        Seq::empty()
    } else {
        push_path(build(c.drop_last()), c.last())
    }
}

/// The pieces between the separators of a path, from position `i` on.
pub open spec fn pieces_from(b: Seq<u8>, i: int) -> Seq<Seq<u8>>
    decreases b.len() - i,
{
    let j = next_slash(b, i);
    if i <= j < b.len() {
        seq![b.subrange(i, j)] + pieces_from(b, j + 1)
    } else {
        seq![b.subrange(i, b.len() as int)]
    }
}

/// The pieces between the separators of a path.
pub open spec fn pieces(b: Seq<u8>) -> Seq<Seq<u8>> {
    pieces_from(b, 0)
}

/// Whether a piece after the start of a path counts as a component.
pub open spec fn counts(p: Seq<u8>) -> bool {
    p.len() > 0 && p != seq![DOT]
}

/// The pieces that count as components.
pub open spec fn counting(p: Seq<Seq<u8>>) -> Seq<Seq<u8>>
    decreases p.len(),
{
    if p.len() == 0 {
        p
    } else if counts(p.last()) {
        counting(p.drop_last()).push(p.last())
    } else {
        counting(p.drop_last())
    }
}

/// The shape of a canonical path: absolute, written with one separator between components,
/// and without `..`.
pub open spec fn is_canonical(b: Seq<u8>) -> bool {
    &&& is_absolute(b)
    &&& build(components(b)) == b
    &&& !components(b).contains(seq![DOT, DOT])
}

/// Every span lies inside the path and is not empty.
pub proof fn body_spans_bounds(b: Seq<u8>, i: int)
    requires
        0 <= i,
    ensures
        forall|k: int|
            0 <= k < body_spans(b, i).len() ==> i <= (#[trigger] body_spans(b, i)[k]).0
                < body_spans(b, i)[k].1 <= b.len(),
        forall|k: int, l: int|
            0 <= k < l < body_spans(b, i).len() ==> (#[trigger] body_spans(b, i)[k]).1 < (
            #[trigger] body_spans(b, i)[l]).0,
    decreases b.len() - i + 1,
{
    if i <= b.len() {
        next_slash_bounds(b, i);
        let j = next_slash(b, i);
        body_spans_bounds(b, j + 1);
        let rest = body_spans(b, j + 1);
        let all = body_spans(b, i);
        if is_component(b, i, j) {
            assert forall|k: int| 0 <= k < all.len() implies i <= (#[trigger] all[k]).0 < all[k].1
                <= b.len() by {
                if k > 0 {
                    assert(all[k] == rest[k - 1]);
                }
            }
            assert forall|k: int, l: int| 0 <= k < l < all.len() implies (#[trigger] all[k]).1 < (
            #[trigger] all[l]).0 by {
                assert(all[l] == rest[l - 1]);
                if k > 0 {
                    assert(all[k] == rest[k - 1]);
                }
            }
        }
    }
}

/// Every component span lies inside the path and is not empty.
pub proof fn spans_bounds(b: Seq<u8>)
    ensures
        forall|k: int|
            0 <= k < spans(b).len() ==> 0 <= (#[trigger] spans(b)[k]).0 < spans(b)[k].1 <= b.len(),
        forall|k: int, l: int|
            0 <= k <= l < spans(b).len() ==> (#[trigger] spans(b)[k]).0 <= (#[trigger] spans(b)[l]).0
                && spans(b)[k].1 <= spans(b)[l].1,
{
    body_spans_bounds(b, 0);
}

/// The components that `body_spans` marks.
pub open spec fn body(b: Seq<u8>, i: int) -> Seq<Seq<u8>> {
    body_spans(b, i).map_values(|s: (int, int)| b.subrange(s.0, s.1))
}

/// The components of a path are the root, if it has one, and those after it.
proof fn components_split(b: Seq<u8>)
    ensures
        is_absolute(b) ==> components(b) == seq![seq![SLASH]] + body(b, 0),
        !is_absolute(b) ==> components(b) == body(b, 0),
{
    if is_absolute(b) {
        assert(b.subrange(0, 1) =~= seq![SLASH]);
        assert(components(b) =~= seq![seq![SLASH]] + body(b, 0));
    }
}

/// One step of `body`.
proof fn body_step(b: Seq<u8>, i: int)
    requires
        0 <= i <= b.len(),
    ensures
        ({
            let j = next_slash(b, i);
            &&& i <= j <= b.len()
            &&& is_component(b, i, j) ==> body(b, i) == seq![b.subrange(i, j)] + body(b, j + 1)
            &&& !is_component(b, i, j) ==> body(b, i) == body(b, j + 1)
        }),
{
    next_slash_bounds(b, i);
    let j = next_slash(b, i);
    if is_component(b, i, j) {
        assert(body(b, i) =~= seq![b.subrange(i, j)] + body(b, j + 1));
    }
}

/// Choosing the pieces that count works piece by piece.
proof fn counting_concat(a: Seq<Seq<u8>>, b: Seq<Seq<u8>>)
    ensures
        counting(a + b) == counting(a) + counting(b),
    decreases b.len(),
{
    if b.len() == 0 {
        assert(a + b =~= a);
    } else {
        counting_concat(a, b.drop_last());
        assert((a + b).drop_last() =~= a + b.drop_last());
        if counts(b.last()) {
            assert(counting(a) + counting(b.drop_last()).push(b.last()) =~= (counting(a) + counting(
                b.drop_last(),
            )).push(b.last()));
        }
    }
}

/// Separators keep their distance when a path is put behind other bytes.
proof fn next_slash_shift(h: Seq<u8>, t: Seq<u8>, i: int)
    requires
        0 <= i <= t.len(),
    ensures
        next_slash(h + t, h.len() + i) == h.len() + next_slash(t, i),
    decreases t.len() - i,
{
    if i < t.len() && t[i] != SLASH {
        next_slash_shift(h, t, i + 1);
    }
}

/// Behind other bytes, the components of the rest are its pieces that count.
proof fn body_shift(h: Seq<u8>, t: Seq<u8>, i: int)
    requires
        h.len() > 0,
        0 <= i <= t.len(),
    ensures
        body(h + t, h.len() + i) == counting(pieces_from(t, i)),
    decreases t.len() - i,
{
    let b = h + t;
    let m = h.len() as int;
    let j = next_slash(t, i);
    next_slash_shift(h, t, i);
    next_slash_bounds(t, i);
    body_step(b, m + i);
    let piece = t.subrange(i, j);
    assert(b.subrange(m + i, m + j) =~= piece);
    assert(is_component(b, m + i, m + j) == counts(piece)) by {
        if j == i + 1 {
            assert(piece =~= seq![t[i]]);
            assert(seq![t[i]][0] == t[i]);
            assert(seq![DOT][0] == DOT);
        } else {
            assert(seq![DOT].len() == 1);
        }
    }
    assert(counting(seq![piece]) == if counts(piece) {
        seq![piece]
    } else {
        Seq::<Seq<u8>>::empty()
    }) by {
        reveal_with_fuel(counting, 2);
        assert(seq![piece].drop_last() =~= Seq::<Seq<u8>>::empty());
        assert(Seq::<Seq<u8>>::empty().push(piece) =~= seq![piece]);
    }
    if j < t.len() {
        body_shift(h, t, j + 1);
        counting_concat(seq![piece], pieces_from(t, j + 1));
        assert(Seq::<Seq<u8>>::empty() + counting(pieces_from(t, j + 1)) =~= counting(
            pieces_from(t, j + 1),
        ));
    } else {
        assert(body(b, m + j + 1) =~= Seq::<Seq<u8>>::empty());
        assert(t.subrange(i, t.len() as int) =~= piece);
        assert(pieces_from(t, i) =~= seq![piece]);
        assert(seq![piece] + Seq::<Seq<u8>>::empty() =~= seq![piece]);
    }
}

/// A separator after `h` hides what follows from the search in `h`.
proof fn next_slash_prefix(h: Seq<u8>, t: Seq<u8>, i: int)
    requires
        0 <= i <= h.len(),
    ensures
        next_slash(h.push(SLASH) + t, i) == next_slash(h, i),
    decreases h.len() - i,
{
    let b = h.push(SLASH) + t;
    if i < h.len() {
        assert(b[i] == h[i]);
        if h[i] != SLASH {
            next_slash_prefix(h, t, i + 1);
        }
    } else {
        assert(b[i] == SLASH);
    }
}

/// What stands before a separator keeps its components.
proof fn body_prefix(h: Seq<u8>, t: Seq<u8>, i: int)
    requires
        0 <= i <= h.len(),
    ensures
        body(h.push(SLASH) + t, i) == body(h, i) + body(h.push(SLASH) + t, h.len() as int + 1),
    decreases h.len() - i,
{
    let b = h.push(SLASH) + t;
    let j = next_slash(h, i);
    next_slash_prefix(h, t, i);
    next_slash_bounds(h, i);
    body_step(b, i);
    body_step(h, i);
    let last = body(b, h.len() as int + 1);
    assert(b.subrange(i, j) =~= h.subrange(i, j));
    assert(i < j ==> b[i] == h[i]);
    if j < h.len() {
        body_prefix(h, t, j + 1);
        assert(seq![h.subrange(i, j)] + (body(h, j + 1) + last) =~= (seq![h.subrange(i, j)] + body(
            h,
            j + 1,
        )) + last);
    } else {
        assert(body(h, j + 1) =~= Seq::<Seq<u8>>::empty());
        assert(seq![h.subrange(i, j)] + last =~= (seq![h.subrange(i, j)] + body(h, j + 1)) + last);
        assert(body(h, j + 1) + last =~= last);
    }
}

/// A separator at the end adds no component.
proof fn body_trailing_slash(h: Seq<u8>, i: int)
    requires
        0 <= i <= h.len(),
    ensures
        body(h.push(SLASH), i) == body(h, i),
{
    let none = Seq::<u8>::empty();
    body_prefix(h, none, i);
    assert(h.push(SLASH) + none =~= h.push(SLASH));
    body_step(h.push(SLASH), h.len() as int + 1);
    assert(body(h.push(SLASH), h.len() as int + 2) =~= Seq::<Seq<u8>>::empty());
    assert(body(h, i) + Seq::<Seq<u8>>::empty() =~= body(h, i));
}

/// Appending a relative path appends its components: its pieces that count.
pub proof fn push_path_components(b: Seq<u8>, p: Seq<u8>)
    requires
        b.len() > 0,
        !is_absolute(p),
    ensures
        components(push_path(b, p)) == components(b) + counting(pieces(p)),
{
    let h = if b.last() == SLASH {
        b.drop_last()
    } else {
        b
    };
    let head = h.push(SLASH);
    let all = push_path(b, p);
    assert(all =~= head + p);
    body_prefix(h, p, 0);
    body_shift(head, p, 0);
    assert(body(b, 0) == body(h, 0)) by {
        if b.last() == SLASH {
            assert(b =~= h.push(SLASH));
            body_trailing_slash(h, 0);
        }
    }
    assert(all[0] == b[0]);
    components_split(all);
    components_split(b);
    assert(seq![seq![SLASH]] + (body(h, 0) + counting(pieces(p))) =~= (seq![seq![SLASH]] + body(
        h,
        0,
    )) + counting(pieces(p)));
}

/// Whether a piece holds no separator.
pub open spec fn no_slash(p: Seq<u8>) -> bool {
    forall|i: int| 0 <= i < p.len() ==> p[i] != SLASH
}

/// Whether a sequence can be the components of a path: none is empty, only the first can be
/// the root or `.`, and no other holds a separator.
pub open spec fn is_component_list(c: Seq<Seq<u8>>) -> bool {
    forall|k: int|
        0 <= k < c.len() ==> {
            &&& (#[trigger] c[k]).len() > 0
            &&& no_slash(c[k]) || (k == 0 && c[k] == seq![SLASH])
            &&& c[k] == seq![DOT] ==> k == 0
        }
}

/// The components after the root hold no separator, and only the first can be `.`.
proof fn body_shape(b: Seq<u8>, i: int)
    requires
        0 <= i,
    ensures
        forall|k: int|
            0 <= k < body(b, i).len() ==> {
                &&& (#[trigger] body(b, i)[k]).len() > 0
                &&& no_slash(body(b, i)[k])
                &&& body(b, i)[k] == seq![DOT] ==> k == 0 && i == 0 && !is_absolute(b)
            },
    decreases b.len() - i + 1,
{
    if i <= b.len() {
        next_slash_bounds(b, i);
        body_step(b, i);
        let j = next_slash(b, i);
        body_shape(b, j + 1);
        let all = body(b, i);
        let rest = body(b, j + 1);
        if is_component(b, i, j) {
            let first = b.subrange(i, j);
            assert(no_slash(first));
            if first == seq![DOT] {
                assert(first[0] == DOT);
            }
            assert forall|k: int| 0 <= k < all.len() implies {
                &&& (#[trigger] all[k]).len() > 0
                &&& no_slash(all[k])
                &&& all[k] == seq![DOT] ==> k == 0 && i == 0 && !is_absolute(b)
            } by {
                if k > 0 {
                    assert(all[k] == rest[k - 1]);
                }
            }
        }
    }
}

/// The components of a path form a component list.
pub proof fn components_are_list(b: Seq<u8>)
    ensures
        is_component_list(components(b)),
{
    components_split(b);
    body_shape(b, 0);
    let c = components(b);
    assert forall|k: int| 0 <= k < c.len() implies {
        &&& (#[trigger] c[k]).len() > 0
        &&& no_slash(c[k]) || (k == 0 && c[k] == seq![SLASH])
        &&& c[k] == seq![DOT] ==> k == 0
    } by {
        if is_absolute(b) {
            if k > 0 {
                assert(c[k] == body(b, 0)[k - 1]);
            }
        } else {
            assert(c[k] == body(b, 0)[k]);
        }
    }
}

/// A piece without separators is its own only piece.
pub proof fn single_piece(p: Seq<u8>)
    requires
        no_slash(p),
    ensures
        next_slash(p, 0) == p.len(),
        pieces(p) == seq![p],
{
    next_slash_bounds(p, 0);
    assert(p.subrange(0, p.len() as int) =~= p);
}

/// Pieces stay the same when a path is put behind other bytes.
proof fn pieces_shift(h: Seq<u8>, t: Seq<u8>, i: int)
    requires
        0 <= i <= t.len(),
    ensures
        pieces_from(h + t, h.len() + i) == pieces_from(t, i),
    decreases t.len() - i,
{
    let b = h + t;
    let m = h.len() as int;
    let j = next_slash(t, i);
    next_slash_shift(h, t, i);
    next_slash_bounds(t, i);
    assert(b.subrange(m + i, m + j) =~= t.subrange(i, j));
    if j < t.len() {
        pieces_shift(h, t, j + 1);
    } else {
        assert(b.subrange(m + i, b.len() as int) =~= t.subrange(i, t.len() as int));
    }
}

/// The pieces on both sides of a separator, seen from position `i`.
proof fn pieces_prefix(h: Seq<u8>, t: Seq<u8>, i: int)
    requires
        0 <= i <= h.len(),
    ensures
        pieces_from(h.push(SLASH) + t, i) == pieces_from(h, i) + pieces(t),
    decreases h.len() - i,
{
    let b = h.push(SLASH) + t;
    let j = next_slash(h, i);
    next_slash_prefix(h, t, i);
    next_slash_bounds(h, i);
    assert(b.subrange(i, j) =~= h.subrange(i, j));
    if j < h.len() {
        pieces_prefix(h, t, j + 1);
        assert(seq![h.subrange(i, j)] + (pieces_from(h, j + 1) + pieces(t)) =~= (seq![
            h.subrange(i, j),
        ] + pieces_from(h, j + 1)) + pieces(t));
    } else {
        pieces_shift(h.push(SLASH), t, 0);
        assert(h.subrange(i, h.len() as int) =~= h.subrange(i, j));
    }
}

/// A separator parts a path into the pieces before it and those after it.
pub proof fn pieces_concat(h: Seq<u8>, t: Seq<u8>)
    ensures
        pieces(h.push(SLASH) + t) == pieces(h) + pieces(t),
{
    pieces_prefix(h, t, 0);
}

/// A path that is built from components has these components.
pub proof fn build_components(c: Seq<Seq<u8>>)
    requires
        is_component_list(c),
    ensures
        components(build(c)) == c,
        c.len() > 0 ==> build(c).len() > 0,
    decreases c.len(),
{
    if c.len() == 0 {
        let none = Seq::<u8>::empty();
        components_split(none);
        body_step(none, 0);
        assert(body(none, 1) =~= Seq::<Seq<u8>>::empty());
        assert(components(build(c)) =~= c);
    } else if c.len() == 1 {
        let p = c[0];
        let none = Seq::<Seq<u8>>::empty();
        assert(build(c.drop_last()) =~= Seq::<u8>::empty());
        assert(build(c) =~= p);
        components_split(p);
        body_step(p, 0);
        if no_slash(p) {
            single_piece(p);
            assert(body(p, p.len() as int + 1) =~= none);
            assert(p.subrange(0, p.len() as int) =~= p);
        } else {
            assert(p[0] == SLASH);
            body_step(p, 1);
            assert(body(p, 2) =~= none);
        }
        assert(components(p) =~= c);
    } else {
        let front = c.drop_last();
        let p = c.last();
        assert forall|k: int| 0 <= k < front.len() implies {
            &&& (#[trigger] front[k]).len() > 0
            &&& no_slash(front[k]) || (k == 0 && front[k] == seq![SLASH])
            &&& front[k] == seq![DOT] ==> k == 0
        } by {
            assert(front[k] == c[k]);
        }
        build_components(front);
        assert(no_slash(c[c.len() - 1]) && c[c.len() - 1] != seq![DOT]);
        single_piece(p);
        push_path_components(build(front), p);
        assert(counting(seq![p]) =~= seq![p]) by {
            reveal_with_fuel(counting, 2);
        }
        assert(front + seq![p] =~= c);
    }
}

/// Writing a path anew from its components keeps them.
pub proof fn rebuild_keeps_components(b: Seq<u8>)
    ensures
        components(build(components(b))) == components(b),
{
    components_are_list(b);
    build_components(components(b));
}

/// In the first `e` bytes of a path, the search for a separator ends at `e` at the latest.
proof fn next_slash_take(b: Seq<u8>, i: int, e: int)
    requires
        0 <= i <= e <= b.len(),
    ensures
        next_slash(b.take(e), i) == if next_slash(b, i) < e {
            next_slash(b, i)
        } else {
            e
        },
    decreases e - i,
{
    next_slash_bounds(b, i);
    if i < e && b[i] != SLASH {
        next_slash_take(b, i + 1, e);
    }
}

/// A path that is cut off after a component after the root keeps the components up to it.
proof fn body_spans_take(b: Seq<u8>, i: int, k: int)
    requires
        0 <= i,
        0 <= k < body_spans(b, i).len(),
    ensures
        body_spans(b.take(body_spans(b, i)[k].1), i) == body_spans(b, i).take(k + 1),
    decreases b.len() - i + 1,
{
    let all = body_spans(b, i);
    let e = all[k].1;
    let j = next_slash(b, i);
    let rest = body_spans(b, j + 1);
    body_spans_bounds(b, i);
    next_slash_bounds(b, i);
    body_spans_bounds(b, j + 1);
    next_slash_take(b, i, e);
    if is_component(b, i, j) && k == 0 {
        assert(body_spans(b.take(e), j + 1) =~= Seq::<(int, int)>::empty());
    } else {
        let l = if is_component(b, i, j) {
            k - 1
        } else {
            k
        };
        assert(all[k] == rest[l]);
        body_spans_take(b, j + 1, l);
    }
    assert(body_spans(b.take(e), i) =~= all.take(k + 1));
}

/// The components after the root from one of them on are those that are found from its start
/// on.
proof fn body_spans_skip(b: Seq<u8>, i: int, k: int)
    requires
        0 <= i,
        0 <= k < body_spans(b, i).len(),
    ensures
        body_spans(b, body_spans(b, i)[k].0) == body_spans(b, i).skip(k),
    decreases b.len() - i + 1,
{
    let all = body_spans(b, i);
    let j = next_slash(b, i);
    let rest = body_spans(b, j + 1);
    next_slash_bounds(b, i);
    if is_component(b, i, j) && k == 0 {
        assert(all.skip(0) =~= all);
    } else {
        let l = if is_component(b, i, j) {
            k - 1
        } else {
            k
        };
        assert(all[k] == rest[l]);
        body_spans_skip(b, j + 1, l);
        assert(rest.skip(l) =~= all.skip(k));
    }
}

/// A path that is cut off after a component keeps the components up to it.
proof fn cut_components(b: Seq<u8>, k: int)
    requires
        0 <= k < spans(b).len(),
    ensures
        spans(b.take(spans(b)[k].1)) == spans(b).take(k + 1),
        components(b.take(spans(b)[k].1)) == components(b).take(k + 1),
{
    let s = spans(b);
    let e = s[k].1;
    let cut = b.take(e);
    spans_bounds(b);
    if is_absolute(b) {
        assert(cut[0] == b[0]);
        if k == 0 {
            next_slash_bounds(cut, 0);
            assert(next_slash(cut, 0) == 0);
            next_slash_bounds(cut, 1);
            assert(body_spans(cut, 2) =~= Seq::<(int, int)>::empty());
            assert(body_spans(cut, 1) =~= Seq::<(int, int)>::empty());
            assert(body_spans(cut, 0) =~= Seq::<(int, int)>::empty());
        } else {
            assert(s[k] == body_spans(b, 0)[k - 1]);
            body_spans_take(b, 0, k - 1);
        }
    } else {
        body_spans_take(b, 0, k);
        assert(cut[0] == b[0]);
    }
    assert(spans(cut) =~= s.take(k + 1));
    assert forall|l: int| 0 <= l < k + 1 implies #[trigger] components(cut)[l]
        == components(b)[l] by {
        assert(s[l].1 <= s[k].1);
        assert(cut.subrange(s[l].0, s[l].1) =~= b.subrange(s[l].0, s[l].1));
    }
    assert(components(cut) =~= components(b).take(k + 1));
}

/// The components of the parent are those of the path but the last.
pub proof fn parent_components(b: Seq<u8>)
    requires
        parent(b) is Some,
    ensures
        components(parent(b)->0) == components(b).drop_last(),
{
    let s = spans(b);
    spans_bounds(b);
    if s.len() == 1 {
        build_components(Seq::empty());
        assert(components(b).drop_last() =~= Seq::<Seq<u8>>::empty());
    } else {
        cut_components(b, s.len() - 2);
        assert(components(b).take(s.len() - 1) =~= components(b).drop_last());
    }
}

/// The text from a component on, but the first, is a relative path, and its pieces that count
/// are the components from there on.
pub proof fn tail_components(b: Seq<u8>, k: int)
    requires
        1 <= k <= spans(b).len(),
    ensures
        !is_absolute(tail_text(b, k)),
        counting(pieces(tail_text(b, k))) == components(b).skip(k),
{
    let s = spans(b);
    let t = tail_text(b, k);
    let n = s.len() as int;
    let c = components(b);
    spans_bounds(b);
    if k == n {
        single_piece(t);
        assert(counting(seq![t]) =~= Seq::<Seq<u8>>::empty()) by {
            reveal_with_fuel(counting, 2);
            assert(seq![t].drop_last() =~= Seq::<Seq<u8>>::empty());
        }
        assert(c.skip(k) =~= Seq::<Seq<u8>>::empty());
    } else {
        let cut = b.take(s[n - 1].1);
        cut_components(b, n - 1);
        assert(spans(cut) =~= s);
        assert(components(cut) =~= c);
        let from = s[k].0;
        let h = cut.take(from);
        assert(s[k - 1].0 <= from && s[k].0 < s[k].1);
        assert(cut =~= h + t);
        let at = if is_absolute(cut) {
            k - 1
        } else {
            k
        };
        body_spans_bounds(cut, 0);
        assert(body_spans(cut, 0)[at] == s[k]);
        assert(from > 0) by {
            if is_absolute(cut) {
                assert(next_slash(cut, 0) == 0);
                body_spans_bounds(cut, 1);
                assert(body_spans(cut, 1)[at] == s[k]);
            } else {
                assert(body_spans(cut, 0)[k - 1].1 < body_spans(cut, 0)[k].0);
            }
        }
        body_spans_skip(cut, 0, at);
        body_shift(h, t, 0);
        assert(body(cut, from) =~= components(cut).skip(k));
        components_are_list(b);
        assert(c[k] =~= b.subrange(s[k].0, s[k].1));
        assert(t[0] == c[k][0]);
        assert(c[k].len() > 0 && no_slash(c[k]));
    }
}

/// A piece that counts is among those that count.
pub proof fn counting_keeps(p: Seq<Seq<u8>>, k: int)
    requires
        0 <= k < p.len(),
        counts(p[k]),
    ensures
        counting(p).contains(p[k]),
    decreases p.len(),
{
    let front = counting(p.drop_last());
    if k == p.len() - 1 {
        assert(front.push(p.last())[front.len() as int] == p[k]);
    } else {
        counting_keeps(p.drop_last(), k);
        assert(p.drop_last()[k] == p[k]);
        let i = choose|i: int| 0 <= i < front.len() && front[i] == p[k];
        assert(counting(p)[i] == p[k]);
    }
}

/// Pieces hold no separator.
proof fn pieces_have_no_slash(b: Seq<u8>, i: int)
    requires
        0 <= i <= b.len(),
    ensures
        forall|k: int| 0 <= k < pieces_from(b, i).len() ==> no_slash(#[trigger] pieces_from(b, i)[k]),
    decreases b.len() - i,
{
    let j = next_slash(b, i);
    next_slash_bounds(b, i);
    assert(no_slash(b.subrange(i, j)));
    if j < b.len() {
        pieces_have_no_slash(b, j + 1);
        let all = pieces_from(b, i);
        assert forall|k: int| 0 <= k < all.len() implies no_slash(#[trigger] all[k]) by {
            if k > 0 {
                assert(all[k] == pieces_from(b, j + 1)[k - 1]);
            }
        }
    }
}

/// What is left of some pieces are pieces that count and were there before.
proof fn counting_members(p: Seq<Seq<u8>>)
    ensures
        forall|k: int|
            0 <= k < counting(p).len() ==> counts(#[trigger] counting(p)[k]) && p.contains(
                counting(p)[k],
            ),
    decreases p.len(),
{
    if p.len() > 0 {
        let front = p.drop_last();
        counting_members(front);
        assert forall|k: int| 0 <= k < counting(p).len() implies counts(#[trigger] counting(p)[k])
            && p.contains(counting(p)[k]) by {
            if k < counting(front).len() {
                let c = counting(front)[k];
                let i = choose|i: int| 0 <= i < front.len() && front[i] == c;
                assert(p[i] == c);
            } else {
                assert(p[p.len() - 1] == p.last());
            }
        }
    }
}

/// Pieces that all count stay.
proof fn counting_all(p: Seq<Seq<u8>>)
    requires
        forall|k: int| 0 <= k < p.len() ==> counts(#[trigger] p[k]),
    ensures
        counting(p) == p,
    decreases p.len(),
{
    if p.len() > 0 {
        assert forall|k: int| 0 <= k < p.drop_last().len() implies counts(
            #[trigger] p.drop_last()[k],
        ) by {
            assert(p.drop_last()[k] == p[k]);
        }
        counting_all(p.drop_last());
        assert(counts(p[p.len() - 1]));
        assert(p.drop_last().push(p.last()) =~= p);
    }
}

/// A path that is built from pieces that count has these pieces.
proof fn build_pieces(c: Seq<Seq<u8>>)
    requires
        c.len() > 0,
        forall|k: int| 0 <= k < c.len() ==> counts(#[trigger] c[k]) && no_slash(c[k]),
    ensures
        pieces(build(c)) == c,
        build(c).len() > 0,
        build(c)[0] != SLASH,
        build(c).last() != SLASH,
    decreases c.len(),
{
    let front = c.drop_last();
    let p = c.last();
    assert(counts(c[c.len() - 1]) && no_slash(c[c.len() - 1]));
    single_piece(p);
    if c.len() == 1 {
        assert(build(front) =~= Seq::<u8>::empty());
        assert(build(c) =~= p);
        assert(c =~= seq![p]);
    } else {
        assert forall|k: int| 0 <= k < front.len() implies counts(#[trigger] front[k]) && no_slash(
            front[k],
        ) by {
            assert(front[k] == c[k]);
        }
        build_pieces(front);
        pieces_concat(build(front), p);
        assert(build(c) == build(front).push(SLASH) + p);
        assert(front + seq![p] =~= c);
    }
}

/// The pieces of a path that count, joined by single separators, are those of the joined path.
pub proof fn joined_pieces(b: Seq<u8>)
    ensures
        !is_absolute(build(counting(pieces(b)))),
        counting(pieces(build(counting(pieces(b))))) == counting(pieces(b)),
{
    let p = pieces(b);
    let c = counting(p);
    pieces_have_no_slash(b, 0);
    counting_members(p);
    if c.len() == 0 {
        let none = Seq::<u8>::empty();
        assert(build(c) =~= none);
        single_piece(none);
        assert(counting(seq![none]) =~= c) by {
            reveal_with_fuel(counting, 2);
            assert(seq![none].drop_last() =~= Seq::<Seq<u8>>::empty());
        }
    } else {
        assert forall|k: int| 0 <= k < c.len() implies counts(#[trigger] c[k]) && no_slash(c[k]) by {
            let i = choose|i: int| 0 <= i < p.len() && p[i] == c[k];
            assert(no_slash(p[i]));
        }
        build_pieces(c);
        counting_all(c);
    }
}

/// The spans of a list of index pairs.
pub open spec fn span_view(v: Seq<(usize, usize)>) -> Seq<(int, int)> {
    v.map_values(|p: (usize, usize)| (p.0 as int, p.1 as int))
}

/// The component spans of a path.
pub fn component_spans(b: &[u8]) -> (out: Vec<(usize, usize)>)
    ensures
        span_view(out@) == spans(b@),
{
    let mut out: Vec<(usize, usize)> = Vec::new();
    let n: usize = b.len();
    if n > 0 && b[0] == SLASH {
        out.push((0, 1));
    }
    let mut start: usize = 0;
    let mut more = true;
    assert(span_view(out@) + body_spans(b@, 0) =~= spans(b@));
    while more
        invariant
            n == b@.len(),
            start <= n,
            more ==> span_view(out@) + body_spans(b@, start as int) == spans(b@),
            !more ==> span_view(out@) == spans(b@),
        decreases
            n - start,
            if more {
                1int
            } else {
                0
            },
    {
        let end: usize = find_slash(b, start);
        proof {
            next_slash_bounds(b@, start as int);
        }
        let ghost before = out@;
        if start < end && !(start > 0 && end == start + 1 && b[start] == DOT) {
            out.push((start, end));
        }
        proof {
            let rest = body_spans(b@, end + 1);
            if is_component(b@, start as int, end as int) {
                assert(span_view(out@) =~= span_view(before) + seq![(start as int, end as int)]);
                assert(span_view(out@) + rest =~= span_view(before) + (seq![
                    (start as int, end as int),
                ] + rest));
            }
            if end == n {
                assert(span_view(out@) + rest =~= span_view(out@));
            }
        }
        if end < n {
            start = end + 1;
        } else {
            more = false;
        }
    }
    out
}

/// The position of the first separator at or after `i`, or the end.
pub fn find_slash(b: &[u8], i: usize) -> (j: usize)
    requires
        i <= b@.len(),
    ensures
        j == next_slash(b@, i as int),
{
    let n: usize = b.len();
    let mut j: usize = i;
    while j < n && b[j] != SLASH
        invariant
            n == b@.len(),
            i <= j <= n,
            next_slash(b@, j as int) == next_slash(b@, i as int),
        decreases n - j,
    {
        j = j + 1;
    }
    j
}

/// Whether two byte sequences are the same.
fn same_bytes(a: &[u8], b: &[u8]) -> (same: bool)
    ensures
        same == (a@ == b@),
{
    if a.len() != b.len() {
        return false;
    }
    let n: usize = a.len();
    let mut i: usize = 0;
    while i < n
        invariant
            n == a@.len() == b@.len(),
            i <= n,
            forall|k: int| 0 <= k < i ==> a@[k] == b@[k],
        decreases n - i,
    {
        if a[i] != b[i] {
            return false;
        }
        i = i + 1;
    }
    assert(a@ =~= b@);
    true
}

/// The bytes of component `k`.
pub fn component<'a>(b: &'a [u8], at: &Vec<(usize, usize)>, k: usize) -> (c: &'a [u8])
    requires
        span_view(at@) == spans(b@),
        k < at@.len(),
    ensures
        c@ == components(b@)[k as int],
{
    let span: (usize, usize) = at[k];
    proof {
        spans_bounds(b@);
        assert(span_view(at@)[k as int] == (span.0 as int, span.1 as int));
    }
    slice_subrange(b, span.0, span.1)
}

/// Whether the first components of `b` are those of `base`, given the spans of both.
fn has_prefix(
    b: &[u8],
    at: &Vec<(usize, usize)>,
    base: &[u8],
    base_at: &Vec<(usize, usize)>,
) -> (yes: bool)
    requires
        span_view(at@) == spans(b@),
        span_view(base_at@) == spans(base@),
    ensures
        yes == starts_with(b@, base@),
{
    assert(spans(b@).len() == at@.len() && spans(base@).len() == base_at@.len());
    if base_at.len() > at.len() {
        return false;
    }
    let n: usize = base_at.len();
    let mut k: usize = 0;
    while k < n
        invariant
            span_view(at@) == spans(b@),
            span_view(base_at@) == spans(base@),
            n == base_at@.len() == components(base@).len(),
            n <= at@.len() == components(b@).len(),
            k <= n,
            forall|i: int| 0 <= i < k ==> components(b@)[i] == components(base@)[i],
        decreases n - k,
    {
        if !same_bytes(component(b, at, k), component(base, base_at, k)) {
            assert(components(b@).subrange(0, n as int)[k as int] != components(base@)[k as int]);
            return false;
        }
        k = k + 1;
    }
    assert(components(base@) =~= components(b@).subrange(0, n as int));
    true
}

/// Whether `b` equals `base` or lies below it, component by component.
pub fn path_starts_with(b: &[u8], base: &[u8]) -> (yes: bool)
    ensures
        yes == starts_with(b@, base@),
{
    let at = component_spans(b);
    let base_at = component_spans(base);
    has_prefix(b, &at, base, &base_at)
}

/// Whether two paths have the same components.
pub fn path_same(a: &[u8], b: &[u8]) -> (same: bool)
    ensures
        same == (components(a@) == components(b@)),
{
    let a_at = component_spans(a);
    let b_at = component_spans(b);
    assert(components(a@).len() == a_at@.len() && components(b@).len() == b_at@.len());
    if a_at.len() != b_at.len() {
        return false;
    }
    let same = has_prefix(a, &a_at, b, &b_at);
    assert(components(a@).subrange(0, components(a@).len() as int) =~= components(a@));
    same
}

/// What is left of `b` below `base`; nothing where `b` does not lie below `base`.
pub fn path_strip_prefix<'a>(b: &'a [u8], base: &[u8]) -> (rest: Option<&'a [u8]>)
    ensures
        match strip_prefix(b@, base@) {
            Some(t) => rest matches Some(r) && r@ == t,
            None => rest is None,
        },
{
    let at = component_spans(b);
    let base_at = component_spans(base);
    if !has_prefix(b, &at, base, &base_at) {
        return None;
    }
    let k: usize = base_at.len();
    let n: usize = at.len();
    assert(spans(b@).len() == n && components(base@).len() == k);
    if k < n {
        let from: usize = at[k].0;
        let to: usize = at[n - 1].1;
        proof {
            spans_bounds(b@);
            assert(span_view(at@)[k as int] == spans(b@)[k as int]);
            assert(span_view(at@)[n - 1] == spans(b@)[n - 1]);
        }
        Some(slice_subrange(b, from, to))
    } else {
        let none = slice_subrange(b, 0, 0);
        assert(none@ =~= Seq::<u8>::empty());
        Some(none)
    }
}

/// The last component of a path, where that is a name.
pub fn path_file_name<'a>(b: &'a [u8]) -> (name: Option<&'a [u8]>)
    ensures
        match file_name(b@) {
            Some(f) => name matches Some(r) && r@ == f,
            None => name is None,
        },
{
    let at = component_spans(b);
    let n: usize = at.len();
    assert(components(b@).len() == n);
    if n == 0 {
        return None;
    }
    let last = component(b, &at, n - 1);
    let len: usize = last.len();
    proof {
        assert(len == 1 ==> last@ =~= seq![last@[0]]);
        assert(len == 2 ==> last@ =~= seq![last@[0], last@[1]]);
        assert(last@ == seq![SLASH] ==> last@[0] == SLASH && last@.len() == 1);
        assert(last@ == seq![DOT] ==> last@[0] == DOT && last@.len() == 1);
        assert(last@ == seq![DOT, DOT] ==> last@[0] == DOT && last@[1] == DOT && last@.len() == 2);
    }
    if (len == 1 && (last[0] == SLASH || last[0] == DOT)) || (len == 2 && last[0] == DOT && last[1]
        == DOT) {
        None
    } else {
        Some(last)
    }
}

/// The path without its last component, where it has one besides the root.
pub fn path_parent<'a>(b: &'a [u8]) -> (up: Option<&'a [u8]>)
    ensures
        match parent(b@) {
            Some(p) => up matches Some(r) && r@ == p,
            None => up is None,
        },
{
    let at = component_spans(b);
    let n: usize = at.len();
    assert(spans(b@).len() == n && components(b@).len() == n);
    if n == 0 {
        return None;
    }
    let last = component(b, &at, n - 1);
    proof {
        assert(last@.len() == 1 ==> last@ =~= seq![last@[0]]);
        assert(last@ == seq![SLASH] ==> last@[0] == SLASH && last@.len() == 1);
    }
    if last.len() == 1 && last[0] == SLASH {
        return None;
    }
    if n == 1 {
        let none = slice_subrange(b, 0, 0);
        assert(none@ =~= Seq::<u8>::empty());
        Some(none)
    } else {
        let to: usize = at[n - 2].1;
        proof {
            spans_bounds(b@);
            assert(span_view(at@)[n - 2] == spans(b@)[n - 2]);
        }
        Some(slice_subrange(b, 0, to))
    }
}

/// Some pieces with a separator between each two.
pub open spec fn joined(p: Seq<Seq<u8>>) -> Seq<u8>
    decreases p.len(),
{
    if p.len() <= 1 {
        if p.len() == 0 {
            Seq::empty()
        } else {
            p[0]
        }
    } else {
        p[0].push(SLASH) + joined(p.drop_first())
    }
}

/// The rest of a path is its pieces joined.
proof fn joined_from(b: Seq<u8>, i: int)
    requires
        0 <= i <= b.len(),
    ensures
        joined(pieces_from(b, i)) == b.skip(i),
        pieces_from(b, i).len() > 0,
    decreases b.len() - i,
{
    let j = next_slash(b, i);
    let all = pieces_from(b, i);
    next_slash_bounds(b, i);
    if j < b.len() {
        joined_from(b, j + 1);
        assert(all.drop_first() =~= pieces_from(b, j + 1));
        assert(all[0] == b.subrange(i, j));
        assert(b.subrange(i, j).push(SLASH) + b.skip(j + 1) =~= b.skip(i));
    } else {
        assert(b.subrange(i, b.len() as int) =~= b.skip(i));
    }
}

/// Pieces hold no separator, and joined by separators they are the path again.
pub proof fn pieces_make_up_the_path(b: Seq<u8>)
    ensures
        pieces(b).len() > 0,
        joined(pieces(b)) == b,
        forall|k: int, i: int|
            0 <= k < pieces(b).len() && 0 <= i < pieces(b)[k].len() ==> (#[trigger] pieces(
                b,
            )[k][i]) != SLASH,
{
    joined_from(b, 0);
    pieces_have_no_slash(b, 0);
    assert(b.skip(0) =~= b);
    assert forall|k: int, i: int|
        0 <= k < pieces(b).len() && 0 <= i < pieces(b)[k].len() implies (#[trigger] pieces(b)[k][i])
        != SLASH by {
        assert(no_slash(pieces_from(b, 0)[k]));
    }
}

/// Of pieces, all count but the empty ones and `.`; each by itself.
pub proof fn counting_goes_piece_by_piece(a: Seq<Seq<u8>>, b: Seq<Seq<u8>>, p: Seq<u8>)
    ensures
        counting(a + b) == counting(a) + counting(b),
        counting(seq![p]) == if p.len() == 0 || p == seq![DOT] {
            Seq::<Seq<u8>>::empty()
        } else {
            seq![p]
        },
{
    counting_concat(a, b);
    reveal_with_fuel(counting, 2);
    assert(seq![p].drop_last() =~= Seq::<Seq<u8>>::empty());
    assert(Seq::<Seq<u8>>::empty().push(p) =~= seq![p]);
}

/// The components of an absolute path are the root and the pieces that count; those of another
/// path are the pieces that count, and `.` before them where the path starts with that piece.
pub proof fn components_are_pieces(b: Seq<u8>)
    ensures
        is_absolute(b) ==> components(b) == seq![seq![SLASH]] + counting(pieces(b)),
        !is_absolute(b) && pieces(b)[0] != seq![DOT] ==> components(b) == counting(pieces(b)),
        !is_absolute(b) && pieces(b)[0] == seq![DOT] ==> components(b) == seq![seq![DOT]]
            + counting(pieces(b)),
{
    components_split(b);
    body_step(b, 0);
    next_slash_bounds(b, 0);
    let j = next_slash(b, 0);
    let first = b.subrange(0, j);
    let none = Seq::<Seq<u8>>::empty();
    joined_from(b, 0);
    let rest = if j < b.len() {
        pieces_from(b, j + 1)
    } else {
        none
    };
    assert(pieces(b) =~= seq![first] + rest) by {
        if j >= b.len() {
            assert(b.subrange(0, b.len() as int) =~= first);
        }
    }
    assert(body(b, j + 1) == counting(rest)) by {
        if j < b.len() {
            let h = b.take(j + 1);
            let t = b.skip(j + 1);
            assert(h + t =~= b);
            body_shift(h, t, 0);
            pieces_shift(h, t, 0);
        } else {
            assert(body(b, j + 1) =~= none);
        }
    }
    counting_goes_piece_by_piece(seq![first], rest, first);
    assert(none + counting(rest) =~= counting(rest));
    assert(pieces(b)[0] == first);
    if first.len() > 0 {
        assert(first == seq![DOT] ==> first[0] == DOT && first.len() == 1);
        assert(first.len() == 1 && first[0] == DOT ==> first =~= seq![DOT]);
        assert(b[0] == first[0]);
        assert(first[0] != SLASH);
    } else {
        assert(j == 0);
        assert(first != seq![DOT]) by {
            assert(seq![DOT].len() == 1);
        }
    }
}

/// A path starts with another exactly where its components are those of the other and some more.
pub proof fn starting_is_having_the_first_components(b: Seq<u8>, base: Seq<u8>)
    ensures
        starts_with(b, base) <==> exists|more: Seq<Seq<u8>>|
            components(b) == #[trigger] (components(base) + more),
{
    let n = components(base).len() as int;
    if starts_with(b, base) {
        let more = components(b).skip(n);
        assert(components(base) =~= components(b).subrange(0, n));
        assert(components(b) =~= components(base) + more);
    }
    if exists|more: Seq<Seq<u8>>| components(b) == #[trigger] (components(base) + more) {
        let more = choose|more: Seq<Seq<u8>>| components(b) == #[trigger] (components(base) + more);
        assert(components(b).subrange(0, n) =~= components(base));
    }
}

/// What is left below a base has the components that follow those of the base.
pub proof fn rest_below_a_base(b: Seq<u8>, base: Seq<u8>)
    ensures
        strip_prefix(b, base) is Some <==> exists|more: Seq<Seq<u8>>|
            components(b) == #[trigger] (components(base) + more),
        components(base).len() > 0 ==> (strip_prefix(b, base) matches Some(rest) ==> !is_absolute(
            rest,
        ) && components(base) + counting(pieces(rest)) == components(b)),
{
    starting_is_having_the_first_components(b, base);
    let n = components(base).len() as int;
    if strip_prefix(b, base) is Some && n > 0 {
        tail_components(b, n);
        assert(components(base) =~= components(b).subrange(0, n));
        assert(components(base) + components(b).skip(n) =~= components(b));
    }
}

/// The last component is the file name, unless it is the root, `.` or `..`; without components
/// there is none.
pub proof fn file_name_is_the_last_component(b: Seq<u8>)
    ensures
        components(b).len() == 0 ==> file_name(b) is None,
        components(b).len() > 0 ==> ({
            let last = components(b)[components(b).len() - 1];
            if last == seq![SLASH] || last == seq![DOT] || last == seq![DOT, DOT] {
                file_name(b) is None
            } else {
                file_name(b) == Some(last)
            }
        }),
{
}

/// A path has a parent exactly where it has a last component other than the root, and the parent
/// has the other components.
pub proof fn parent_drops_the_last_component(b: Seq<u8>)
    ensures
        parent(b) is Some <==> components(b).len() > 0 && components(b)[components(b).len() - 1]
            != seq![SLASH],
        parent(b) matches Some(up) ==> components(up) == components(b).take(
            components(b).len() - 1,
        ),
{
    assert(components(b).len() == spans(b).len());
    if parent(b) is Some {
        parent_components(b);
        assert(components(b).drop_last() =~= components(b).take(components(b).len() - 1));
    }
}

/// The parent is the start of the path, and what is left below a base is a part of the path that
/// neither starts nor ends with a separator.
pub proof fn parts_of_a_path_are_its_bytes(b: Seq<u8>, base: Seq<u8>)
    ensures
        parent(b) matches Some(up) ==> up == b.take(up.len() as int),
        components(base).len() > 0 ==> (strip_prefix(b, base) matches Some(rest) ==> exists|i: int|
            0 <= i && i + rest.len() <= b.len() && rest == #[trigger] b.subrange(
                i,
                i + rest.len(),
            )),
        components(base).len() > 0 ==> (strip_prefix(b, base) matches Some(rest) ==> rest.len() > 0
            ==> rest[0] != SLASH && rest[rest.len() - 1] != SLASH),
{
    spans_bounds(b);
    let n = components(base).len() as int;
    let s = spans(b);
    if parent(b) is Some {
        let up = parent(b)->0;
        assert(up =~= b.take(up.len() as int));
    }
    if n > 0 && strip_prefix(b, base) is Some {
        let rest = strip_prefix(b, base)->0;
        if n < s.len() {
            assert(s[n].0 <= s[s.len() - 1].0);
            assert(rest == b.subrange(s[n].0, s[n].0 + rest.len()));
            tail_components(b, n);
            components_are_list(b);
            let c = components(b);
            let last = c[s.len() - 1];
            assert(last == b.subrange(s[s.len() - 1].0, s[s.len() - 1].1));
            assert(rest[rest.len() - 1] == last[last.len() - 1]);
            assert(no_slash(last));
        } else {
            assert(rest =~= b.subrange(0int, 0int + rest.len()));
        }
    }
}

} // verus!
