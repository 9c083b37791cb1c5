//! Directory pages: breadcrumb, link to the parent directory and the table of entries.

use std::path::{Path, PathBuf};

use vstd::prelude::*;
use vstd::slice::slice_subrange;
use vstd::string::*;
use vstd::utf8::*;

use crate::components::{
    component, component_spans, components, file_name, parent, path_file_name, path_parent,
    path_same, path_starts_with, path_strip_prefix, span_view, spans, starts_with, strip_prefix,
};
use crate::entries::{collect_entries, is_sorted_listing, visible, DirItem, ListingEntry};
use crate::modified::{mtime_text, render_mtime};
use crate::paths::{
    buf_bytes, bytes_of, canonicalize, found_bytes, path_bytes, resolves, shown, shown_text,
    utf8_text,
};
use crate::size::{human_size, size_text};
use crate::text::{escaped, html_escape};

verus! {

/// A text without the slashes at its end.
pub open spec fn trim_slashes(s: Seq<char>) -> Seq<char>
    decreases s.len(),
{
    if s.len() > 0 && s.last() == '/' {
        trim_slashes(s.drop_last())
    } else {
        s
    }
}

/// What follows the name of a directory.
pub open spec fn dir_mark(is_dir: bool) -> Seq<char> {
    if is_dir {
        "/"@
    } else {
        Seq::empty()
    }
}

/// Where the link of an entry leads, below the address `parent`.
pub open spec fn row_href(parent: Seq<char>, e: ListingEntry) -> Seq<char> {
    trim_slashes(parent) + "/"@ + escaped(e.name@) + dir_mark(e.is_dir)
}

/// The size column of an entry: a dash for directories and where the size is not known.
pub open spec fn size_column(e: ListingEntry) -> Seq<char> {
    match e.size {
        Some(bytes) if !e.is_dir => size_text(bytes as nat),
        _ => "—"@,
    }
}

/// The table row of an entry.
pub open spec fn row_text(parent: Seq<char>, e: ListingEntry) -> Seq<char> {
    "<tr><td><a href=\""@ + row_href(parent, e) + "\">"@ + escaped(e.name@) + "</a>"@ + dir_mark(
        e.is_dir,
    ) + "</td><td>"@ + size_column(e) + "</td><td>"@ + mtime_text(e.mtime) + "</td></tr>"@
}

/// The table rows of a listing.
pub open spec fn rows_text(e: Seq<ListingEntry>) -> Seq<char>
    decreases e.len(),
{
    if e.len() == 0 {
        Seq::empty()
    } else {
        rows_text(e.drop_last()) + row_text("/"@, e.last())
    }
}

/// A link.
pub open spec fn link_text(href: Seq<char>, label: Seq<char>) -> Seq<char> {
    "<a href=\""@ + escaped(href) + "\">"@ + escaped(label) + "</a>"@
}

/// The address that leads along some names from the served directory.
pub open spec fn trail(names: Seq<Seq<char>>) -> Seq<char>
    decreases names.len(),
{
    if names.len() == 0 {
        Seq::empty()
    } else {
        trail(names.drop_last()) + "/"@ + names.last()
    }
}

/// The links from the served directory, which goes by `label`, along some names.
pub open spec fn crumbs(label: Seq<char>, names: Seq<Seq<char>>) -> Seq<char>
    decreases names.len(),
{
    if names.len() == 0 {
        link_text("/"@, label)
    } else {
        crumbs(label, names.drop_last()) + " / "@ + link_text(trail(names), names.last())
    }
}

/// The name that the served directory goes by.
pub open spec fn root_label(root: Seq<u8>) -> Seq<char> {
    match file_name(root) {
        Some(name) => shown(name),
        None => "/"@,
    }
}

/// The names that lead from the served directory to a path in it.
pub open spec fn names_below(root: Seq<u8>, current: Seq<u8>) -> Seq<Seq<char>> {
    if starts_with(current, root) {
        components(current).skip(components(root).len() as int).map_values(
            |c: Seq<u8>| shown(c),
        )
    } else {
        Seq::empty()
    }
}

/// The breadcrumb of a path in the served directory.
pub open spec fn breadcrumb_text(root: Seq<u8>, current: Seq<u8>) -> Seq<char> {
    crumbs(root_label(root), names_below(root, current))
}

/// Whether the served directory, given as `root`, is taken to be `canonical`: what it resolves
/// to, or where it does not resolve, itself.
pub open spec fn taken_as(root: Seq<u8>, canonical: Seq<u8>) -> bool {
    resolves(root, Some(canonical)) || (resolves(root, None) && canonical == root)
}

/// Where the link to the parent directory leads; nothing in the served directory itself, which
/// is given as `root` and taken to be `canonical`. A parent that does not lie in the served
/// directory, or whose path is not text, gives way to the served directory.
pub open spec fn parent_href(
    root: Seq<u8>,
    canonical: Seq<u8>,
    current: Seq<u8>,
) -> Option<Seq<char>> {
    if components(current) == components(canonical) {
        None
    } else {
        let up = match parent(current) {
            Some(p) => p,
            None => root,
        };
        match strip_prefix(up, canonical) {
            Some(rest) if valid_utf8(rest) => Some("/"@ + decode_utf8(rest)),
            _ => Some("/"@),
        }
    }
}

/// The paragraph with the link to the parent directory, its address escaped.
pub open spec fn parent_text(href: Option<Seq<char>>) -> Seq<char> {
    match href {
        Some(href) => "<p><a href=\""@ + escaped(href) + "\">..</a></p>"@,
        None => Seq::empty(),
    }
}

/// A directory page.
pub open spec fn page_text(
    title: Seq<char>,
    breadcrumb: Seq<char>,
    up: Option<Seq<char>>,
    entries: Seq<ListingEntry>,
) -> Seq<char> {
    "<!DOCTYPE html>\n<html><head><meta charset=\"utf-8\"><title>Index of "@ + escaped(title)
        + "</title>\n<style>body{font-family:sans-serif;max-width:60rem;margin:2rem auto;padding:0 1rem}table{border-collapse:collapse;width:100%}th,td{padding:.4rem .6rem;border-bottom:1px solid #ddd;text-align:left}a{color:#06c;text-decoration:none}a:hover{text-decoration:underline}</style>\n</head><body>\n<h1>"@
        + breadcrumb + "</h1>\n"@ + parent_text(up)
        + "<table><thead><tr><th>Name</th><th>Size</th><th>Modified</th></tr></thead>\n<tbody>"@
        + rows_text(entries) + "</tbody></table>\n</body></html>\n"@
}

/// The page of the directory `current`, where the served directory is given as `root` and taken
/// to be `canonical`.
pub open spec fn listing_text(
    root: Seq<u8>,
    canonical: Seq<u8>,
    current: Seq<u8>,
    entries: Seq<ListingEntry>,
) -> Seq<char> {
    page_text(
        shown(current),
        breadcrumb_text(canonical, current),
        parent_href(root, canonical, current),
        entries,
    )
}

/// Texts as character sequences.
pub open spec fn texts(v: Seq<String>) -> Seq<Seq<char>> {
    v.map_values(|s: String| s@)
}

/// A text without the slashes at its end.
fn trim_end_slashes(s: &str) -> (out: String)
    ensures
        out@ == trim_slashes(s@),
{
    let mut out = String::new();
    let mut slashes = String::new();
    for ch in it: s.chars()
        invariant
            it.seq() == s@,
            out@ + slashes@ == s@.take(it.index()),
            out@ == trim_slashes(s@.take(it.index())),
    {
        proof {
            assert(s@.take(it.index() + 1).drop_last() =~= s@.take(it.index()));
            assert(s@.take(it.index() + 1) =~= s@.take(it.index()).push(ch));
        }
        if ch == '/' {
            slashes.push(ch);
        } else {
            out.append(slashes.as_str());
            out.push(ch);
            slashes = String::new();
        }
    }
    proof {
        assert(s@.take(s@.len() as int) =~= s@);
    }
    out
}

/// The table row of an entry, with its link below the address `parent_href`.
pub fn render_entry_row(parent_href: &str, e: &ListingEntry) -> (out: String)
    ensures
        out@ == row_text(parent_href@, *e),
{
    let name = html_escape(e.name.as_str());
    let mark: &str = if e.is_dir {
        "/"
    } else {
        ""
    };
    proof {
        reveal_strlit("");
        assert(mark@ =~= dir_mark(e.is_dir));
    }
    let mut href = trim_end_slashes(parent_href);
    href.append("/");
    href.append(name.as_str());
    href.append(mark);
    let size = match e.size {
        Some(bytes) => if e.is_dir {
            "—".to_owned()
        } else {
            human_size(bytes)
        },
        None => "—".to_owned(),
    };
    let mtime = render_mtime(e.mtime);
    let mut out = "<tr><td><a href=\"".to_owned();
    out.append(href.as_str());
    out.append("\">");
    out.append(name.as_str());
    out.append("</a>");
    out.append(mark);
    out.append("</td><td>");
    out.append(size.as_str());
    out.append("</td><td>");
    out.append(mtime.as_str());
    out.append("</td></tr>");
    out
}

/// The table rows of a listing.
pub fn render_rows(entries: &Vec<ListingEntry>) -> (out: String)
    ensures
        out@ == rows_text(entries@),
{
    let mut out = String::new();
    let n: usize = entries.len();
    let mut k: usize = 0;
    while k < n
        invariant
            n == entries@.len(),
            k <= n,
            out@ == rows_text(entries@.take(k as int)),
        decreases n - k,
    {
        let row = render_entry_row("/", &entries[k]);
        out.append(row.as_str());
        assert(entries@.take(k + 1).drop_last() =~= entries@.take(k as int));
        k = k + 1;
    }
    assert(entries@.take(n as int) =~= entries@);
    out
}

/// A link with its address and label escaped.
fn render_link(href: &str, label: &str) -> (out: String)
    ensures
        out@ == link_text(href@, label@),
{
    let href = html_escape(href);
    let label = html_escape(label);
    let mut out = "<a href=\"".to_owned();
    out.append(href.as_str());
    out.append("\">");
    out.append(label.as_str());
    out.append("</a>");
    out
}

/// The links from the served directory, which goes by `label`, along `names`.
pub fn render_crumbs(label: &str, names: &Vec<String>) -> (out: String)
    ensures
        out@ == crumbs(label@, texts(names@)),
{
    let mut out = render_link("/", label);
    let mut address = String::new();
    let n: usize = names.len();
    let mut k: usize = 0;
    assert(texts(names@).take(0) =~= Seq::<Seq<char>>::empty());
    while k < n
        invariant
            n == names@.len(),
            k <= n,
            address@ == trail(texts(names@).take(k as int)),
            out@ == crumbs(label@, texts(names@).take(k as int)),
        decreases n - k,
    {
        proof {
            let now = texts(names@).take(k + 1);
            assert(now.drop_last() =~= texts(names@).take(k as int));
            assert(now.last() == names@[k as int]@);
        }
        address.append("/");
        address.append(names[k].as_str());
        let link = render_link(address.as_str(), names[k].as_str());
        out.append(" / ");
        out.append(link.as_str());
        k = k + 1;
    }
    assert(texts(names@).take(n as int) =~= texts(names@));
    out
}

/// The breadcrumb of the path `current` in the directory `root`, by their bytes.
pub fn breadcrumb(root: &[u8], current: &[u8]) -> (out: String)
    ensures
        out@ == breadcrumb_text(root@, current@),
{
    let label = match path_file_name(root) {
        Some(name) => shown_text(name),
        None => "/".to_owned(),
    };
    let mut names: Vec<String> = Vec::new();
    if path_starts_with(current, root) {
        let at = component_spans(current);
        let root_at = component_spans(root);
        let first: usize = root_at.len();
        let n: usize = at.len();
        assert(components(current@).len() == n && components(root@).len() == first);
        let mut k: usize = first;
        while k < n
            invariant
                span_view(at@) == spans(current@),
                components(current@).len() == n == at@.len(),
                first <= k <= n,
                names@.len() == k - first,
                forall|i: int|
                    0 <= i < names@.len() ==> (#[trigger] names@[i])@ == shown(
                        components(current@)[first + i],
                    ),
            decreases n - k,
        {
            let name = shown_text(component(current, &at, k));
            names.push(name);
            k = k + 1;
        }
    }
    assert(texts(names@) =~= names_below(root@, current@));
    render_crumbs(label.as_str(), &names)
}

/// The canonical form of the served directory, or the directory as given where it has none.
fn canonical_or_given(root: &Path) -> (canonical: PathBuf)
    ensures
        taken_as(path_bytes(root), buf_bytes(&canonical)),
{
    let found = canonicalize(root);
    assert(resolves(path_bytes(root), found_bytes(found)));
    match found {
        Some(path) => path,
        None => root.to_path_buf(),
    }
}

/// The breadcrumb of the path `current` in the directory `root`: a link for the directory and
/// one for each component below it.
pub fn render_breadcrumb(root: &Path, current: &Path) -> (out: String)
    ensures
        exists|canonical: Seq<u8>| #[trigger]
            taken_as(path_bytes(root), canonical) && out@ == breadcrumb_text(
                canonical,
                path_bytes(current),
            ),
{
    let canonical = canonical_or_given(root);
    breadcrumb(bytes_of(canonical.as_path()), bytes_of(current))
}

/// Where the link to the parent directory leads, if there is to be one, for the directory
/// `current`, where the served directory is given as `root` and taken to be `canonical`.
pub fn parent_link(root: &[u8], canonical: &[u8], current: &[u8]) -> (href: Option<String>)
    ensures
        match parent_href(root@, canonical@, current@) {
            Some(h) => href matches Some(r) && r@ == h,
            None => href is None,
        },
{
    if path_same(current, canonical) {
        return None;
    }
    let up = match path_parent(current) {
        Some(up) => up,
        None => root,
    };
    let mut href = "/".to_owned();
    if let Some(rest) = path_strip_prefix(up, canonical) {
        if let Some(text) = utf8_text(rest) {
            href.append(text);
        }
    }
    Some(href)
}

/// A directory page, with its title and the address of the parent directory escaped, the
/// breadcrumb as it is, and a row for each entry.
pub fn render_page(
    title: &str,
    breadcrumb: &str,
    up: &Option<String>,
    entries: &Vec<ListingEntry>,
) -> (out: String)
    ensures
        out@ == page_text(
            title@,
            breadcrumb@,
            match *up {
                Some(href) => Some(href@),
                None => None,
            },
            entries@,
        ),
{
    let title = html_escape(title);
    let up = match up {
        Some(href) => {
            let href = html_escape(href.as_str());
            let mut link = "<p><a href=\"".to_owned();
            link.append(href.as_str());
            link.append("\">..</a></p>");
            link
        },
        None => String::new(),
    };
    let rows = render_rows(entries);
    let mut out =
        "<!DOCTYPE html>\n<html><head><meta charset=\"utf-8\"><title>Index of ".to_owned();
    out.append(title.as_str());
    out.append("</title>\n<style>body{font-family:sans-serif;max-width:60rem;margin:2rem auto;padding:0 1rem}table{border-collapse:collapse;width:100%}th,td{padding:.4rem .6rem;border-bottom:1px solid #ddd;text-align:left}a{color:#06c;text-decoration:none}a:hover{text-decoration:underline}</style>\n</head><body>\n<h1>");
    out.append(breadcrumb);
    out.append("</h1>\n");
    out.append(up.as_str());
    out.append(
        "<table><thead><tr><th>Name</th><th>Size</th><th>Modified</th></tr></thead>\n<tbody>",
    );
    out.append(rows.as_str());
    out.append("</tbody></table>\n</body></html>\n");
    out
}

/// The page of the directory `current`, by the bytes of its path, where the served directory is
/// given as `root` and taken to be `canonical`.
pub fn listing_page(
    root: &[u8],
    canonical: &[u8],
    current: &[u8],
    entries: &Vec<ListingEntry>,
) -> (out: String)
    ensures
        out@ == listing_text(root@, canonical@, current@, entries@),
{
    let title = shown_text(current);
    let crumbs = breadcrumb(canonical, current);
    let up = parent_link(root, canonical, current);
    render_page(title.as_str(), crumbs.as_str(), &up, entries)
}

/// The page of the directory `current` in the served directory `root`, for the items read from
/// it.
pub fn render_listing(root: &Path, current: &Path, items: Vec<DirItem>) -> (out: String)
    ensures
        exists|canonical: Seq<u8>, entries: Seq<ListingEntry>| #[trigger]
            taken_as(path_bytes(root), canonical) && #[trigger] is_sorted_listing(
                visible(items@),
                entries,
            ) && out@ == listing_text(
                path_bytes(root),
                canonical,
                path_bytes(current),
                entries,
            ),
{
    let entries = collect_entries(items);
    let canonical = canonical_or_given(root);
    listing_page(
        bytes_of(root),
        bytes_of(canonical.as_path()),
        bytes_of(current),
        &entries,
    )
}

} // verus!
