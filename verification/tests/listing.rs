use std::path::{Path, PathBuf};

use rcli::listing::{breadcrumb, listing_page, parent_link, render_crumbs, render_page};
use rcli::{
    collect_entries, is_hidden, render_breadcrumb, render_entry_row, render_listing, safe_join,
    DirItem, ItemMeta, ListingEntry, ModTime,
};

fn file(name: &str, len: u64) -> DirItem {
    DirItem {
        name: name.to_string(),
        meta: Some(ItemMeta {
            is_dir: false,
            len,
            modified: Some(ModTime::SinceEpoch(0)),
            dangling: false,
        }),
    }
}

fn dir(name: &str) -> DirItem {
    DirItem {
        name: name.to_string(),
        meta: Some(ItemMeta { is_dir: true, len: 4096, modified: None, dangling: false }),
    }
}

fn read_items(dir: &Path) -> Vec<DirItem> {
    let mut items = Vec::new();
    for entry in dir.read_dir().unwrap() {
        let entry = entry.unwrap();
        let meta = entry.metadata().unwrap();
        items.push(DirItem {
            name: entry.file_name().to_string_lossy().into_owned(),
            meta: Some(ItemMeta {
                is_dir: meta.is_dir(),
                len: meta.len(),
                modified: None,
                dangling: false,
            }),
        });
    }
    items
}

fn names(entries: &[ListingEntry]) -> Vec<&str> {
    entries.iter().map(|e| e.name.as_str()).collect()
}

#[test]
fn test_render_breadcrumb_root() {
    let root = PathBuf::from(".").canonicalize().unwrap();
    let html = render_breadcrumb(&root, &root);
    assert!(html.contains(&format!(
        ">{}<",
        root.file_name().unwrap().to_string_lossy()
    )));
    assert!(!html.contains(".."));
}

#[test]
fn test_render_breadcrumb_subdir() {
    let root = PathBuf::from(".").canonicalize().unwrap();
    let sub = safe_join(&root, "src").unwrap();
    let html = render_breadcrumb(&root, &sub);
    assert!(html.contains("src"));
    assert!(html.contains(&root.file_name().unwrap().to_string_lossy().to_string()));
}

#[test]
fn test_render_listing() {
    let tmp = tempfile::tempdir().unwrap();
    let root = tmp.path().to_path_buf();
    let rt = tokio::runtime::Builder::new_current_thread().build().unwrap();
    rt.block_on(tokio::fs::write(root.join("alpha.txt"), b"hi")).unwrap();
    rt.block_on(tokio::fs::write(root.join("beta.txt"), b"there")).unwrap();
    rt.block_on(tokio::fs::create_dir(root.join("sub"))).unwrap();
    rt.block_on(tokio::fs::write(root.join(".hidden"), b"nope")).unwrap();
    rt.block_on(tokio::fs::write(root.join("index.html"), b"<h1>idx</h1>")).unwrap();

    let html = render_listing(&root, &root, read_items(&root));

    assert!(html.contains("alpha.txt"));
    assert!(html.contains("beta.txt"));
    assert!(html.contains("sub/"));
    assert!(html.contains("index.html"));
    assert!(!html.contains(".hidden"));
    // alpha.txt link must not end with '/'
    assert!(html.contains("href=\"/alpha.txt\""));
    // subdir link must end with '/'
    assert!(html.contains("href=\"/sub/\""));
    // size column header present
    assert!(html.contains("Size"));
}

#[test]
fn breadcrumb_links_every_level() {
    assert_eq!(
        breadcrumb(b"/srv/www", b"/srv/www/a&b/c"),
        "<a href=\"/\">www</a> / <a href=\"/a&amp;b\">a&amp;b</a> / <a href=\"/a&amp;b/c\">c</a>"
    );
    assert_eq!(breadcrumb(b"/", b"/x"), "<a href=\"/\">/</a> / <a href=\"/x\">x</a>");
    assert_eq!(breadcrumb(b"/srv/www", b"/srv"), "<a href=\"/\">www</a>");
    assert_eq!(
        breadcrumb(b"/r", b"/r/\xff"),
        "<a href=\"/\">r</a> / <a href=\"/\u{fffd}\">\u{fffd}</a>"
    );
}

#[test]
fn breadcrumb_of_an_unresolved_root() {
    let root = Path::new("no-such-directory-here");
    assert_eq!(
        render_breadcrumb(root, Path::new("no-such-directory-here/x")),
        "<a href=\"/\">no-such-directory-here</a> / <a href=\"/x\">x</a>"
    );
}

#[test]
fn crumbs_escape_label_and_names() {
    let path = vec!["<b>".to_string()];
    assert_eq!(
        render_crumbs("\"r\"", &path),
        "<a href=\"/\">&quot;r&quot;</a> / <a href=\"/&lt;b&gt;\">&lt;b&gt;</a>"
    );
}

#[test]
fn parent_link_cases() {
    assert_eq!(parent_link(b"/r", b"/r", b"/r"), None);
    assert_eq!(parent_link(b"/r", b"/r", b"/r/"), None);
    assert_eq!(parent_link(b"/r", b"/r", b"/r/a").as_deref(), Some("/"));
    assert_eq!(parent_link(b"/r", b"/r", b"/r/a/b").as_deref(), Some("/a"));
    assert_eq!(parent_link(b"/r", b"/r", b"/r/a/b/c").as_deref(), Some("/a/b"));
    assert_eq!(parent_link(b"/r", b"/r", b"/r/\xff/b").as_deref(), Some("/"));
    assert_eq!(parent_link(b"/r", b"/r", b"/").as_deref(), Some("/"));
    assert_eq!(parent_link(b"/r/s", b"/r", b"/").as_deref(), Some("/s"));
}

#[test]
fn links_lead_where_they_say() {
    let tmp = tempfile::tempdir().unwrap();
    let root = tmp.path().canonicalize().unwrap();
    let deep = root.join("a b").join("c&d");
    let rt = tokio::runtime::Builder::new_current_thread().build().unwrap();
    rt.block_on(tokio::fs::create_dir_all(&deep)).unwrap();
    let bytes = |p: &Path| p.as_os_str().as_encoded_bytes().to_vec();
    assert_eq!(
        breadcrumb(&bytes(&root), &bytes(&deep)),
        format!(
            "<a href=\"/\">{}</a> / <a href=\"/a b\">a b</a> / <a href=\"/a b/c&amp;d\">c&amp;d</a>",
            root.file_name().unwrap().to_string_lossy()
        )
    );
    assert_eq!(safe_join(&root, "a b/c&d").unwrap(), deep);
    let up = parent_link(&bytes(&root), &bytes(&root), &bytes(&deep)).unwrap();
    assert_eq!(up, "/a b");
    assert_eq!(safe_join(&root, &up[1..]).unwrap(), root.join("a b"));
    let row = render_entry_row(
        "/",
        &ListingEntry { name: "a b".to_string(), is_dir: true, size: None, mtime: None },
    );
    assert!(row.contains("href=\"/a b/\""));
    assert_eq!(safe_join(&root, "a b/").unwrap(), root.join("a b"));
}

#[test]
fn rows_of_entries() {
    let entry = |name: &str, is_dir, size, mtime| ListingEntry {
        name: name.to_string(),
        is_dir,
        size,
        mtime,
    };
    assert_eq!(
        render_entry_row("/", &entry("a<b", false, Some(1536), Some(ModTime::SinceEpoch(60)))),
        "<tr><td><a href=\"/a&lt;b\">a&lt;b</a></td><td>1.50 KiB</td><td>1970-01-01 00:01:00 UTC</td></tr>"
    );
    assert_eq!(
        render_entry_row("/x//", &entry("sub", true, None, None)),
        "<tr><td><a href=\"/x/sub/\">sub</a>/</td><td>—</td><td>—</td></tr>"
    );
    assert_eq!(
        render_entry_row("", &entry("gone", false, None, Some(ModTime::BeforeEpoch))),
        "<tr><td><a href=\"/gone\">gone</a></td><td>—</td><td>—</td></tr>"
    );
    assert_eq!(
        render_entry_row("/a/b", &entry("d", true, Some(7), None)),
        "<tr><td><a href=\"/a/b/d/\">d</a>/</td><td>—</td><td>—</td></tr>"
    );
}

#[test]
fn page_layout() {
    let html = render_page("/r/<x>", "CRUMBS", &Some("/a&b".to_string()), &Vec::new());
    assert_eq!(
        html,
        "<!DOCTYPE html>\n\
<html><head><meta charset=\"utf-8\"><title>Index of /r/&lt;x&gt;</title>\n\
<style>body{font-family:sans-serif;max-width:60rem;margin:2rem auto;padding:0 1rem}\
table{border-collapse:collapse;width:100%}\
th,td{padding:.4rem .6rem;border-bottom:1px solid #ddd;text-align:left}\
a{color:#06c;text-decoration:none}a:hover{text-decoration:underline}</style>\n\
</head><body>\n\
<h1>CRUMBS</h1>\n\
<p><a href=\"/a&amp;b\">..</a></p>\
<table><thead><tr><th>Name</th><th>Size</th><th>Modified</th></tr></thead>\n\
<tbody></tbody></table>\n\
</body></html>\n"
    );
}

#[test]
fn listing_page_of_a_subdirectory() {
    let entries = collect_entries(vec![file("f", 1)]);
    let html = listing_page(b"/r", b"/r", b"/r/s", &entries);
    assert!(html.contains("<title>Index of /r/s</title>"));
    assert!(html.contains("<h1><a href=\"/\">r</a> / <a href=\"/s\">s</a></h1>"));
    assert!(html.contains("<p><a href=\"/\">..</a></p>"));
    assert!(html.contains("<a href=\"/f\">f</a></td><td>1 B</td>"));
    let quoted = listing_page(b"/r", b"/r", b"/r/a&\"b/sub", &entries);
    assert!(quoted.contains("<p><a href=\"/a&amp;&quot;b\">..</a></p>"));
    let top = listing_page(b"/r", b"/r", b"/r", &entries);
    assert!(!top.contains("..</a>"));
}

#[test]
fn entries_are_sorted_by_bytes() {
    let items = vec![file("b", 1), file("ä", 1), file("a", 1), file("B", 1), file("ab", 1), file("", 1)];
    assert_eq!(names(&collect_entries(items)), ["", "B", "a", "ab", "b", "ä"]);
}

#[test]
fn entries_of_many_items_agree_with_std_sort() {
    let mut items = Vec::new();
    let mut expected = Vec::new();
    let mut seed = 12345u32;
    for i in 0..2000u64 {
        seed = seed.wrapping_mul(1_103_515_245).wrapping_add(12345);
        let name = format!("n{}-\u{1F980}", (seed >> 16) % 500);
        items.push(file(&name, i));
        expected.push((name, i));
    }
    expected.sort_by(|a, b| a.0.cmp(&b.0));
    let got: Vec<(String, u64)> =
        collect_entries(items).into_iter().map(|e| (e.name, e.size.unwrap())).collect();
    assert_eq!(got, expected);
}

#[test]
fn entries_of_the_same_name_stay_in_order() {
    let entries = collect_entries(vec![file("x", 1), file("a", 2), file("x", 3)]);
    let sizes: Vec<Option<u64>> = entries.iter().map(|e| e.size).collect();
    assert_eq!(sizes, [Some(2), Some(1), Some(3)]);
}

#[test]
fn entries_of_items() {
    let items = vec![
        dir("d"),
        file("f", 9),
        DirItem { name: "broken".to_string(), meta: None },
        DirItem {
            name: "link".to_string(),
            meta: Some(ItemMeta {
                is_dir: false,
                len: 7,
                modified: Some(ModTime::SinceEpoch(0)),
                dangling: true,
            }),
        },
        file(".git", 1),
        file("..x", 1),
    ];
    let entries = collect_entries(items);
    assert_eq!(names(&entries), ["broken", "d", "f", "link"]);
    assert_eq!((entries[0].is_dir, entries[0].size, entries[0].mtime), (false, None, None));
    assert_eq!((entries[1].is_dir, entries[1].size, entries[1].mtime), (true, None, None));
    assert_eq!(
        (entries[2].is_dir, entries[2].size, entries[2].mtime),
        (false, Some(9), Some(ModTime::SinceEpoch(0)))
    );
    assert_eq!((entries[3].is_dir, entries[3].size, entries[3].mtime), (false, None, None));
    assert!(collect_entries(Vec::new()).is_empty());
}

#[test]
fn hidden_names() {
    assert!(is_hidden(".a"));
    assert!(is_hidden("."));
    assert!(!is_hidden("a."));
    assert!(!is_hidden(""));
}
