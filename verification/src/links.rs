//! Where the links of a directory page lead: a request whose text is the address of a link is
//! looked up at the path that the link stands for.
//!
//! The text of a request is what reaches [`resolve`](crate::resolve): the path of the URL after
//! decoding, without its first slash. Addresses are written into the page as they are, not
//! percent-encoded, so where a name holds `%`, `?` or `#` a browser asks for another text.

use vstd::prelude::*;
use vstd::utf8::*;

use crate::components::{
    components, counting, counting_keeps, counts, is_absolute, next_slash_bounds, parent,
    parent_components, pieces, pieces_concat, single_piece, starts_with, tail_components,
    tail_text, DOT, SLASH,
};
use crate::encoding::{encode_ascii, encode_concat, encode_no_slash};
use crate::entries::ListingEntry;
use crate::listing::{dir_mark, names_below, parent_href, row_href, trail, trim_slashes};
use crate::resolve::{climbs_out, level, lookup_path, piece_step, relative_requests_stay_below};
use crate::text::{escape_char, escaped, escaped_concat, escaped_plain};

verus! {

/// Whether a text can be the name of a directory item.
pub open spec fn is_item_name(name: Seq<char>) -> bool {
    &&& name.len() > 0
    &&& forall|i: int| 0 <= i < name.len() ==> name[i] != '/'
    &&& name != seq!['.']
    &&& name != seq!['.', '.']
}

/// The bytes of each of some texts.
pub open spec fn encoded(names: Seq<Seq<char>>) -> Seq<Seq<u8>> {
    names.map_values(|n: Seq<char>| encode_utf8(n))
}

/// The bytes of an item name form one piece, which leads one level down.
proof fn item_name_piece(name: Seq<char>)
    requires
        is_item_name(name),
    ensures
        pieces(encode_utf8(name)) == seq![encode_utf8(name)],
        counts(encode_utf8(name)),
        piece_step(encode_utf8(name)) == 1,
        encode_utf8(name).len() > 0,
{
    let b = encode_utf8(name);
    encode_no_slash(name);
    single_piece(b);
    encode_utf8_decode_utf8(name);
    let dot = seq!['.'];
    let dots = seq!['.', '.'];
    encode_ascii(dot);
    encode_ascii(dots);
    assert(dot.map_values(|c: char| c as u8) =~= seq![DOT]);
    assert(dots.map_values(|c: char| c as u8) =~= seq![DOT, DOT]);
    encode_utf8_decode_utf8(dot);
    encode_utf8_decode_utf8(dots);
}

/// Pieces that are names all count, and lead down step by step.
proof fn names_lead_down(p: Seq<Seq<u8>>)
    requires
        forall|k: int| 0 <= k < p.len() ==> counts(#[trigger] p[k]) && piece_step(p[k]) == 1,
    ensures
        counting(p) == p,
        level(p) == p.len(),
    decreases p.len(),
{
    if p.len() > 0 {
        let front = p.drop_last();
        assert forall|k: int| 0 <= k < front.len() implies counts(#[trigger] front[k])
            && piece_step(front[k]) == 1 by {
            assert(front[k] == p[k]);
        }
        names_lead_down(front);
        assert(counts(p[p.len() - 1]));
        assert(front.push(p.last()) =~= p);
    }
}

/// A request of which every piece either is a name or leads nowhere does not climb.
proof fn no_climb(rel: Seq<u8>)
    requires
        forall|k: int| 0 <= k < pieces(rel).len() ==> piece_step(#[trigger] pieces(rel)[k]) >= 0,
    ensures
        !climbs_out(rel),
{
    assert forall|k: int| 0 <= k <= pieces(rel).len() implies level(#[trigger] pieces(rel).take(k))
        >= 0 by {
        level_not_negative(pieces(rel).take(k));
    }
}

/// Steps that do not lead up never end above the start.
proof fn level_not_negative(p: Seq<Seq<u8>>)
    requires
        forall|k: int| 0 <= k < p.len() ==> piece_step(#[trigger] p[k]) >= 0,
    ensures
        level(p) >= 0,
    decreases p.len(),
{
    if p.len() > 0 {
        assert forall|k: int| 0 <= k < p.drop_last().len() implies piece_step(
            #[trigger] p.drop_last()[k],
        ) >= 0 by {
            assert(p.drop_last()[k] == p[k]);
        }
        level_not_negative(p.drop_last());
        assert(piece_step(p[p.len() - 1]) >= 0);
    }
}

/// A request that starts with a name is relative.
proof fn named_is_relative(rel: Seq<u8>)
    requires
        pieces(rel).len() > 0,
        pieces(rel)[0].len() > 0,
    ensures
        !is_absolute(rel),
{
    if is_absolute(rel) {
        assert(rel.subrange(0, 0).len() == 0);
    }
}

/// The bytes of an address without its first slash have the names as pieces.
proof fn trail_pieces(names: Seq<Seq<char>>)
    requires
        names.len() > 0,
        forall|k: int| 0 <= k < names.len() ==> is_item_name(#[trigger] names[k]),
    ensures
        trail(names).len() > 0,
        trail(names)[0] == '/',
        pieces(encode_utf8(trail(names).drop_first())) == encoded(names),
    decreases names.len(),
{
    reveal_strlit("/");
    let front = names.drop_last();
    let last = names.last();
    assert(is_item_name(names[names.len() - 1]));
    item_name_piece(last);
    if names.len() == 1 {
        assert(trail(front) =~= Seq::<char>::empty());
        assert(trail(names).drop_first() =~= last);
        assert(encoded(names) =~= seq![encode_utf8(last)]);
    } else {
        assert forall|k: int| 0 <= k < front.len() implies is_item_name(#[trigger] front[k]) by {
            assert(front[k] == names[k]);
        }
        trail_pieces(front);
        let before = trail(front).drop_first();
        let slash = seq!['/'];
        assert("/"@ =~= slash);
        assert(trail(names).drop_first() =~= (before + slash) + last);
        encode_concat(before + slash, last);
        encode_concat(before, slash);
        encode_ascii(slash);
        assert(slash.map_values(|c: char| c as u8) =~= seq![SLASH]);
        assert(encode_utf8(before) + seq![SLASH] =~= encode_utf8(before).push(SLASH));
        pieces_concat(encode_utf8(before), encode_utf8(last));
        assert(encoded(names) =~= encoded(front) + seq![encode_utf8(last)]);
    }
}

/// A breadcrumb link leads where its names lead: a request whose text, after decoding, is its
/// address is looked up at the components of the served directory followed by the names.
pub proof fn crumb_leads_along_its_names(root: Seq<u8>, names: Seq<Seq<char>>)
    requires
        is_absolute(root),
        names.len() > 0,
        forall|k: int| 0 <= k < names.len() ==> is_item_name(#[trigger] names[k]),
    ensures
        trail(names)[0] == '/',
        lookup_path(root, encode_utf8(trail(names).drop_first())) matches Some(path) && components(
            path,
        ) == components(root) + encoded(names),
{
    let rel = encode_utf8(trail(names).drop_first());
    trail_pieces(names);
    let p = pieces(rel);
    assert forall|k: int| 0 <= k < p.len() implies counts(#[trigger] p[k]) && piece_step(p[k])
        == 1 by {
        item_name_piece(names[k]);
        assert(p[k] == encode_utf8(names[k]));
    }
    item_name_piece(names[0]);
    names_lead_down(p);
    no_climb(rel);
    assert(p[0] == encode_utf8(names[0]));
    named_is_relative(rel);
    relative_requests_stay_below(root, rel);
}

/// The last breadcrumb link of a directory leads to the directory itself, where all names on the
/// way are text.
pub proof fn breadcrumb_leads_to_its_directory(root: Seq<u8>, current: Seq<u8>)
    requires
        is_absolute(root),
        starts_with(current, root),
        components(current) != components(root),
        forall|k: int|
            components(root).len() <= k < components(current).len() ==> valid_utf8(
                #[trigger] components(current)[k],
            ) && is_item_name(decode_utf8(components(current)[k])),
    ensures
        trail(names_below(root, current))[0] == '/',
        lookup_path(
            root,
            encode_utf8(trail(names_below(root, current)).drop_first()),
        ) matches Some(path) && components(path) == components(current),
{
    let c = components(current);
    let base = components(root);
    let n = base.len() as int;
    let names = names_below(root, current);
    assert(base =~= c.subrange(0, n));
    assert(n < c.len()) by {
        if n == c.len() {
            assert(c.subrange(0, n) =~= c);
        }
    }
    assert forall|k: int| 0 <= k < names.len() implies is_item_name(#[trigger] names[k])
        && encode_utf8(names[k]) == c[n + k] by {
        assert(valid_utf8(c[n + k]));
        decode_utf8_encode_utf8(c[n + k]);
    }
    crumb_leads_along_its_names(root, names);
    assert(base + encoded(names) =~= c);
}

/// The address that the row of an entry links to in the listing of the served directory.
pub open spec fn entry_address(e: ListingEntry) -> Seq<char> {
    "/"@ + e.name@ + dir_mark(e.is_dir)
}

/// The row of an entry links to the entry: the link is its address, escaped, and a request whose
/// text, after decoding, is the address is looked up at the entry in the served directory.
pub proof fn row_leads_to_its_entry(root: Seq<u8>, e: ListingEntry)
    requires
        is_absolute(root),
        is_item_name(e.name@),
    ensures
        row_href("/"@, e) == escaped(entry_address(e)),
        entry_address(e)[0] == '/',
        lookup_path(root, encode_utf8(entry_address(e).drop_first())) matches Some(path)
            && components(path) == components(root).push(encode_utf8(e.name@)),
{
    reveal_strlit("/");
    let name = e.name@;
    let mark = dir_mark(e.is_dir);
    let b = encode_utf8(name);
    // The link.
    assert(trim_slashes("/"@) =~= Seq::<char>::empty()) by {
        reveal_with_fuel(trim_slashes, 2);
        assert("/"@.drop_last() =~= Seq::<char>::empty());
    }
    escaped_concat("/"@ + name, mark);
    escaped_concat("/"@, name);
    escaped_plain("/"@);
    escaped_plain(mark);
    assert(row_href("/"@, e) =~= escaped(entry_address(e)));
    // The request.
    item_name_piece(name);
    let rel = encode_utf8(entry_address(e).drop_first());
    let none = Seq::<u8>::empty();
    if e.is_dir {
        assert(entry_address(e).drop_first() =~= name + seq!['/']);
        encode_concat(name, seq!['/']);
        encode_ascii(seq!['/']);
        assert(seq!['/'].map_values(|c: char| c as u8) =~= seq![SLASH]);
        assert(rel =~= b.push(SLASH) + none);
        pieces_concat(b, none);
        next_slash_bounds(none, 0);
        assert(none.subrange(0, 0) =~= none);
        assert(pieces(rel) =~= seq![b, none]);
        assert(counting(pieces(rel)) =~= seq![b]) by {
            reveal_with_fuel(counting, 3);
            assert(seq![b, none].drop_last() =~= seq![b]);
            assert(seq![b].drop_last() =~= Seq::<Seq<u8>>::empty());
        }
    } else {
        assert(entry_address(e).drop_first() =~= name);
        assert(counting(pieces(rel)) =~= seq![b]) by {
            reveal_with_fuel(counting, 2);
            assert(seq![b].drop_last() =~= Seq::<Seq<u8>>::empty());
        }
    }
    no_climb(rel);
    named_is_relative(rel);
    relative_requests_stay_below(root, rel);
    assert(components(root) + seq![b] =~= components(root).push(b));
}

/// A directory page has a link to the parent directory, unless it is that of the served
/// directory.
pub proof fn parent_link_below_the_root(root: Seq<u8>, canonical: Seq<u8>, current: Seq<u8>)
    ensures
        parent_href(root, canonical, current) is Some <==> components(current) != components(
            canonical,
        ),
{
}

/// The link to the parent directory leads there: a request whose text, after decoding, is its
/// address is looked up at the components of the directory but the last. The path that leads to
/// the parent has to be text.
pub proof fn parent_link_leads_up(root: Seq<u8>, canonical: Seq<u8>, current: Seq<u8>)
    requires
        is_absolute(canonical),
        starts_with(current, canonical),
        components(current) != components(canonical),
        !components(current).contains(seq![DOT, DOT]),
        parent(current) matches Some(up) && valid_utf8(
            tail_text(up, components(canonical).len() as int),
        ),
    ensures
        ({
            &&& parent_href(root, canonical, current) matches Some(href)
            &&& href.len() > 0
            &&& href[0] == '/'
            &&& lookup_path(canonical, encode_utf8(href.drop_first())) matches Some(path)
            &&& components(path) == components(current).drop_last()
        }),
{
    reveal_strlit("/");
    let up = parent(current)->0;
    let c = components(current);
    let base = components(canonical);
    let n = base.len() as int;
    parent_components(current);
    // The parent still lies in the served directory.
    assert(base =~= c.subrange(0, n));
    assert(n < c.len()) by {
        if n == c.len() {
            assert(c.subrange(0, n) =~= c);
        }
    }
    assert(c.drop_last().subrange(0, n) =~= base);
    let rest = tail_text(up, n);
    tail_components(up, n);
    let href = "/"@ + decode_utf8(rest);
    assert(href.drop_first() =~= decode_utf8(rest));
    decode_utf8_encode_utf8(rest);
    assert forall|k: int| 0 <= k < pieces(rest).len() implies piece_step(#[trigger] pieces(rest)[k])
        >= 0 by {
        if pieces(rest)[k] == seq![DOT, DOT] {
            assert(seq![DOT, DOT].len() == 2 && seq![DOT].len() == 1);
            counting_keeps(pieces(rest), k);
            let i = choose|i: int|
                0 <= i < counting(pieces(rest)).len() && counting(pieces(rest))[i] == seq![DOT, DOT];
            assert(c[n + i] == seq![DOT, DOT]);
        }
    }
    no_climb(rest);
    relative_requests_stay_below(canonical, rest);
    assert(base + c.drop_last().skip(n) =~= c.drop_last());
}

/// The links of directories end with a slash, those of other entries do not.
pub proof fn directory_links_end_with_slash(e: ListingEntry)
    requires
        is_item_name(e.name@),
    ensures
        row_href("/"@, e).last() == '/' <==> e.is_dir,
{
    reveal_strlit("/");
    let name = escaped(e.name@);
    let c = e.name@.last();
    assert(c != '/');
    reveal_strlit("&amp;");
    reveal_strlit("&lt;");
    reveal_strlit("&gt;");
    reveal_strlit("&quot;");
    reveal_strlit("&#39;");
    let tail = escape_char(c);
    assert(name =~= escaped(e.name@.drop_last()) + tail);
    assert(name.last() == tail.last());
    if !e.is_dir {
        assert(row_href("/"@, e).last() == name.last());
    }
}

} // verus!
