//! What a directory page shows: which rows and links stand on it, in which order, and what they
//! say.

use vstd::prelude::*;
use vstd::utf8::*;

use crate::components::{
    components, counting, file_name_is_the_last_component, is_absolute, parent,
    parent_drops_the_last_component, pieces, rest_below_a_base,
    starting_is_having_the_first_components, strip_prefix, tail_text, DOT, SLASH,
};
use crate::entries::{
    is_sorted_listing, listing_is_a_sorted_arrangement, precedes_at, ListingEntry,
};
use crate::links::{crumb_leads_along_its_names, encoded, is_item_name};
use crate::listing::{
    breadcrumb_text, crumbs, dir_mark, link_text, listing_text, names_below, page_text, parent_href,
    parent_text, root_label, row_text, rows_text, taken_as, trail, trim_slashes,
};
use crate::modified::mtime_text;
use crate::paths::{canonicalizes, lossy, shown, text_is_shown_as_itself};
use crate::resolve::lookup_path;
use crate::size::size_text;
use crate::text::{escaped, escaped_plain};

verus! {

/// The rows of entries that follow others follow their rows: rows stand in the order of the
/// entries.
pub proof fn rows_concat(a: Seq<ListingEntry>, b: Seq<ListingEntry>)
    ensures
        rows_text(a + b) == rows_text(a) + rows_text(b),
    decreases b.len(),
{
    if b.len() == 0 {
        assert(a + b =~= a);
        assert(rows_text(a) + rows_text(b) =~= rows_text(a));
    } else {
        rows_concat(a, b.drop_last());
        assert((a + b).drop_last() =~= a + b.drop_last());
        assert((a + b).last() == b.last());
        assert(rows_text(a) + (rows_text(b.drop_last()) + row_text("/"@, b.last())) =~= (rows_text(a)
            + rows_text(b.drop_last())) + row_text("/"@, b.last()));
    }
}

/// One entry has one row, linked below the served directory; without entries there is none.
pub proof fn rows_of_one(e: ListingEntry)
    ensures
        rows_text(seq![e]) == row_text("/"@, e),
        rows_text(Seq::empty()) == Seq::<char>::empty(),
{
    reveal_with_fuel(rows_text, 2);
    assert(seq![e].drop_last() =~= Seq::<ListingEntry>::empty());
    assert(Seq::<char>::empty() + row_text("/"@, e) =~= row_text("/"@, e));
}

/// The rows of two entries stand in the order of the entries, with only the rows of the others
/// around them.
pub proof fn rows_stand_in_order(e: Seq<ListingEntry>, k: int, l: int)
    requires
        0 <= k < l < e.len(),
    ensures
        rows_text(e) == rows_text(e.take(k)) + row_text("/"@, e[k]) + rows_text(
            e.subrange(k + 1, l),
        ) + row_text("/"@, e[l]) + rows_text(e.skip(l + 1)),
{
    let (a, b, c) = (e.take(k), e.subrange(k + 1, l), e.skip(l + 1));
    rows_of_one(e[k]);
    rows_of_one(e[l]);
    assert(e =~= a + seq![e[k]] + b + seq![e[l]] + c);
    rows_concat(a + seq![e[k]] + b + seq![e[l]], c);
    rows_concat(a + seq![e[k]] + b, seq![e[l]]);
    rows_concat(a + seq![e[k]], b);
    rows_concat(a, seq![e[k]]);
}

/// On the page of a directory the row of the smaller name comes first: of two rows, the name of
/// the upper one comes before the name of the lower one in word order of their bytes, or is the
/// same.
pub proof fn rows_ascend(e: Seq<ListingEntry>, out: Seq<ListingEntry>, k: int, l: int)
    requires
        is_sorted_listing(e, out),
        0 <= k < l < out.len(),
    ensures
        rows_text(out) == rows_text(out.take(k)) + row_text("/"@, out[k]) + rows_text(
            out.subrange(k + 1, l),
        ) + row_text("/"@, out[l]) + rows_text(out.skip(l + 1)),
        (exists|at: int|
            precedes_at(encode_utf8(out[k].name@), encode_utf8(out[l].name@), at)) || encode_utf8(
            out[k].name@,
        ) == encode_utf8(out[l].name@),
{
    rows_stand_in_order(out, k, l);
    listing_is_a_sorted_arrangement(e, out);
    assert(out[k] == out[k] && out[l] == out[l]);
}

/// Slashes at the end of a text are dropped, and nothing else.
proof fn trimmed(t: Seq<char>, s: Seq<char>)
    requires
        t.is_prefix_of(s),
        t.len() > 0 ==> t[t.len() - 1] != '/',
        forall|i: int| t.len() <= i < s.len() ==> s[i] == '/',
    ensures
        trim_slashes(s) == t,
    decreases s.len(),
{
    assert(t =~= s.subrange(0, t.len() as int));
    if s.len() > t.len() {
        assert(s[s.len() - 1] == '/');
        assert(t =~= s.drop_last().subrange(0, t.len() as int));
        trimmed(t, s.drop_last());
    } else {
        assert(s =~= t);
    }
}

/// A row shows of its entry: the link, which leads to the name below the address `t` of the
/// parent, written with any number of slashes at its end; the name; a slash after both for a
/// directory; the size of what is not a directory, where it is known; and the change time. Every
/// name is escaped.
pub proof fn rows_show_their_entries(
    parent_address: Seq<char>,
    t: Seq<char>,
    e: ListingEntry,
    mark: Seq<char>,
    size: Seq<char>,
)
    requires
        t.is_prefix_of(parent_address),
        t.len() > 0 ==> t[t.len() - 1] != '/',
        forall|i: int| t.len() <= i < parent_address.len() ==> parent_address[i] == '/',
        e.is_dir ==> mark == "/"@ && size == "—"@,
        !e.is_dir ==> mark.len() == 0 && (e.size matches Some(bytes) ==> size == size_text(
            bytes as nat,
        )) && (e.size is None ==> size == "—"@),
    ensures
        row_text(parent_address, e) == "<tr><td><a href=\""@ + (t + "/"@ + escaped(e.name@) + mark)
            + "\">"@ + escaped(e.name@) + "</a>"@ + mark + "</td><td>"@ + size + "</td><td>"@
            + mtime_text(e.mtime) + "</td></tr>"@,
{
    trimmed(t, parent_address);
    assert(mark =~= dir_mark(e.is_dir));
}

/// The address that leads along some names, each with a slash before it.
pub open spec fn spelled(names: Seq<Seq<char>>) -> Seq<char>
    decreases names.len(),
{
    if names.len() == 0 {
        Seq::empty()
    } else {
        "/"@ + names[0] + spelled(names.drop_first())
    }
}

/// An address can be spelled from its first name on or up to its last.
proof fn spelled_push(names: Seq<Seq<char>>, last: Seq<char>)
    ensures
        spelled(names.push(last)) == spelled(names) + ("/"@ + last),
    decreases names.len(),
{
    let all = names.push(last);
    if names.len() == 0 {
        reveal_with_fuel(spelled, 2);
        assert(all.drop_first() =~= Seq::<Seq<char>>::empty());
        assert(spelled(all) =~= spelled(names) + ("/"@ + last));
    } else {
        spelled_push(names.drop_first(), last);
        assert(all.drop_first() =~= names.drop_first().push(last));
        assert(spelled(all) =~= spelled(names) + ("/"@ + last));
    }
}

/// Both ways give the same address.
proof fn trail_is_spelled(names: Seq<Seq<char>>)
    ensures
        trail(names) == spelled(names),
    decreases names.len(),
{
    if names.len() > 0 {
        let front = names.drop_last();
        trail_is_spelled(front);
        spelled_push(front, names.last());
        assert(front.push(names.last()) =~= names);
        assert(trail(names) =~= spelled(names));
    }
}

/// The breadcrumb of the served directory is one link, to `/`, that goes by its label.
pub proof fn breadcrumb_starts_with_the_root(label: Seq<char>)
    ensures
        crumbs(label, Seq::empty()) == "<a href=\"/\">"@ + escaped(label) + "</a>"@,
{
    reveal_strlit("/");
    reveal_strlit("<a href=\"");
    reveal_strlit("\">");
    reveal_strlit("<a href=\"/\">");
    escaped_plain("/"@);
    assert("<a href=\""@ + "/"@ + "\">"@ =~= "<a href=\"/\">"@);
}

/// Each further name adds one link at the end: its address is made of all names so far, each with
/// a slash before it, and it goes by the name.
pub proof fn breadcrumb_grows_by_a_link(label: Seq<char>, names: Seq<Seq<char>>, last: Seq<char>)
    ensures
        crumbs(label, names.push(last)) == crumbs(label, names) + " / "@ + ("<a href=\""@ + escaped(
            spelled(names.push(last)),
        ) + "\">"@ + escaped(last) + "</a>"@),
{
    trail_is_spelled(names.push(last));
    assert(names.push(last).drop_last() =~= names);
}

/// The breadcrumb of some names starts with that of the first of them.
proof fn breadcrumb_prefix(label: Seq<char>, names: Seq<Seq<char>>, k: int) -> (after: Seq<char>)
    requires
        0 <= k <= names.len(),
    ensures
        crumbs(label, names) == crumbs(label, names.take(k)) + after,
    decreases names.len() - k,
{
    if k == names.len() {
        assert(names.take(k) =~= names);
        assert(crumbs(label, names) + Seq::<char>::empty() =~= crumbs(label, names));
        Seq::empty()
    } else {
        let rest = breadcrumb_prefix(label, names, k + 1);
        let now = names.take(k + 1);
        assert(now.drop_last() =~= names.take(k));
        let link = " / "@ + link_text(trail(now), now.last());
        assert(crumbs(label, now) =~= crumbs(label, names.take(k)) + link);
        assert(crumbs(label, names.take(k)) + link + rest =~= crumbs(label, names.take(k)) + (link
            + rest));
        link + rest
    }
}

/// Every link in the text of a breadcrumb leads where it says: behind the breadcrumb of the names
/// before it, the link of name `k` stands in the text, with an address whose request, after
/// decoding, is looked up at the served directory followed by all names up to `k`.
pub proof fn links_in_a_breadcrumb_lead_along(
    root: Seq<u8>,
    label: Seq<char>,
    names: Seq<Seq<char>>,
    k: int,
) -> (parts: (Seq<char>, Seq<char>))
    requires
        is_absolute(root),
        0 <= k < names.len(),
        forall|i: int| 0 <= i < names.len() ==> is_item_name(#[trigger] names[i]),
    ensures
        ({
            let (address, after) = parts;
            &&& crumbs(label, names) == crumbs(label, names.take(k)) + " / "@ + ("<a href=\""@
                + escaped(address) + "\">"@ + escaped(names[k]) + "</a>"@) + after
            &&& address == spelled(names.take(k + 1))
            &&& address.len() > 0
            &&& address[0] == '/'
            &&& lookup_path(root, encode_utf8(address.drop_first())) matches Some(path)
            &&& components(path) == components(root) + encoded(names.take(k + 1))
        }),
{
    let now = names.take(k + 1);
    assert forall|i: int| 0 <= i < now.len() implies is_item_name(#[trigger] now[i]) by {
        assert(now[i] == names[i]);
    }
    trail_is_spelled(now);
    crumb_leads_along_its_names(root, now);
    assert(spelled(now).len() > 0) by {
        reveal_strlit("/");
    }
    let after = breadcrumb_prefix(label, names, k + 1);
    assert(now =~= names.take(k).push(names[k]));
    breadcrumb_grows_by_a_link(label, names.take(k), names[k]);
    (spelled(now), after)
}

/// The breadcrumb of a directory goes by the names of the components that follow those of the
/// served directory, at any depth, and starts with the name of the served directory, or `/` where
/// it has none.
pub proof fn breadcrumb_names_the_way(
    root: Seq<u8>,
    current: Seq<u8>,
    more: Seq<Seq<u8>>,
    label: Seq<char>,
    names: Seq<Seq<char>>,
)
    requires
        components(current) == components(root) + more,
        names.len() == more.len(),
        forall|k: int| 0 <= k < names.len() ==> #[trigger] names[k] == shown(more[k]),
        components(root).len() > 0,
        ({
            let last = components(root)[components(root).len() - 1];
            if last == seq![SLASH] || last == seq![DOT] || last == seq![DOT, DOT] {
                label == "/"@
            } else {
                label == shown(last)
            }
        }),
    ensures
        breadcrumb_text(root, current) == crumbs(label, names),
{
    starting_is_having_the_first_components(current, root);
    assert(exists|m: Seq<Seq<u8>>| components(current) == #[trigger] (components(root) + m)) by {
        assert(components(current) == components(root) + more);
    }
    file_name_is_the_last_component(root);
    assert(components(current).skip(components(root).len() as int) =~= more);
    assert(names_below(root, current) =~= names);
    assert(root_label(root) == label);
}

/// A path outside of the served directory has the breadcrumb of the served directory.
pub proof fn breadcrumb_of_a_path_elsewhere(root: Seq<u8>, current: Seq<u8>)
    requires
        !exists|m: Seq<Seq<u8>>| components(current) == #[trigger] (components(root) + m),
    ensures
        breadcrumb_text(root, current) == breadcrumb_text(root, root),
{
    starting_is_having_the_first_components(current, root);
    starting_is_having_the_first_components(root, root);
    assert(names_below(root, root) =~= Seq::<Seq<char>>::empty());
}

/// The link to the parent directory has the address, escaped; without an address there is none.
pub proof fn parent_links_are_escaped(address: Seq<char>)
    ensures
        parent_text(Some(address)) == "<p><a href=\""@ + escaped(address) + "\">..</a></p>"@,
        parent_text(None).len() == 0,
{
}

/// Where the link to the parent directory leads: `up`, which has the components of the directory
/// but the last, or is the served directory as given where the directory has no parent. The
/// address is a slash and the rest of `up` below the served directory, where `up` lies in it and
/// the rest is text, and just a slash elsewhere.
pub proof fn parent_links_name_the_parent(
    root: Seq<u8>,
    canonical: Seq<u8>,
    current: Seq<u8>,
    up: Seq<u8>,
    rest: Seq<u8>,
)
    requires
        components(current) != components(canonical),
        parent(current) == Some(up) || (parent(current) is None && up == root),
        components(canonical).len() > 0,
    ensures
        parent(current) is Some ==> components(up) == components(current).take(
            components(current).len() - 1,
        ),
        strip_prefix(up, canonical) == Some(rest) ==> {
            &&& components(canonical) + counting(pieces(rest)) == components(up)
            &&& parent_href(root, canonical, current) == Some(
                if valid_utf8(rest) {
                    "/"@ + decode_utf8(rest)
                } else {
                    "/"@
                },
            )
        },
        !(exists|more: Seq<Seq<u8>>| components(up) == #[trigger] (components(canonical) + more))
            ==> parent_href(root, canonical, current) == Some("/"@),
        components(up) == components(canonical) ==> parent_href(root, canonical, current) == Some(
            "/"@,
        ),
{
    parent_drops_the_last_component(current);
    rest_below_a_base(up, canonical);
    if components(up) == components(canonical) {
        let n = components(canonical).len() as int;
        let none = Seq::<u8>::empty();
        let no_text = Seq::<char>::empty();
        assert(components(canonical) =~= components(canonical).subrange(0, n));
        assert(tail_text(up, n) =~= none);
        assert(encode_utf8(no_text) =~= none);
        encode_utf8_valid_utf8(no_text);
        encode_utf8_decode_utf8(no_text);
        assert("/"@ + no_text =~= "/"@);
    }
}

/// A page holds its title, escaped, its breadcrumb, the link to the parent directory and the rows
/// of all entries, each once and in this order, and what stands around them is the same on every
/// page.
pub proof fn pages_have_one_layout() -> (around: Seq<Seq<char>>)
    ensures
        forall|
            title: Seq<char>,
            breadcrumb: Seq<char>,
            up: Option<Seq<char>>,
            entries: Seq<ListingEntry>,
        | #[trigger]
            page_text(title, breadcrumb, up, entries) == around[0] + escaped(title) + around[1]
                + breadcrumb + around[2] + parent_text(up) + around[3] + rows_text(entries)
                + around[4],
{
    let around = seq![
        "<!DOCTYPE html>\n<html><head><meta charset=\"utf-8\"><title>Index of "@,
        "</title>\n<style>body{font-family:sans-serif;max-width:60rem;margin:2rem auto;padding:0 1rem}table{border-collapse:collapse;width:100%}th,td{padding:.4rem .6rem;border-bottom:1px solid #ddd;text-align:left}a{color:#06c;text-decoration:none}a:hover{text-decoration:underline}</style>\n</head><body>\n<h1>"@,
        "</h1>\n"@,
        "<table><thead><tr><th>Name</th><th>Size</th><th>Modified</th></tr></thead>\n<tbody>"@,
        "</tbody></table>\n</body></html>\n"@,
    ];
    around
}

/// The page of a directory is titled by its path, as text where it is text, and its breadcrumb, its link to the parent
/// directory and its rows are those of the directory.
pub proof fn directory_pages_are_of_their_directory(
    root: Seq<u8>,
    canonical: Seq<u8>,
    current: Seq<u8>,
    title: Seq<char>,
    entries: Seq<ListingEntry>,
)
    requires
        current == encode_utf8(title) || (!valid_utf8(current) && title == lossy(current)),
    ensures
        listing_text(root, canonical, current, entries) == page_text(
            title,
            breadcrumb_text(canonical, current),
            parent_href(root, canonical, current),
            entries,
        ),
{
    if current == encode_utf8(title) {
        text_is_shown_as_itself(title);
    }
}

/// The served directory is taken to be what it resolves to, and itself only where it does not
/// resolve.
pub proof fn the_served_directory_is_resolved(root: Seq<u8>, canonical: Seq<u8>)
    requires
        taken_as(root, canonical),
    ensures
        canonicalizes(root, Some(canonical)) || (canonicalizes(root, None) && canonical == root),
        (forall|found: Option<Seq<u8>>| #[trigger]
            canonicalizes(root, found) ==> found is Some) ==> canonicalizes(root, Some(canonical)),
{
}

} // verus!
