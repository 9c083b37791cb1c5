use std::path::{Path, PathBuf};

use rcli::request::{file_head, listing_head, place_index};
use rcli::{
    advance, open_path, open_root, render_listing, DirItem, FileKind, ItemMeta,
    ServeError, Step,
};

fn write(path: &Path, bytes: &[u8]) {
    let rt = tokio::runtime::Builder::new_current_thread().build().unwrap();
    rt.block_on(tokio::fs::write(path, bytes)).unwrap();
}

fn create_dir(path: &Path) {
    let rt = tokio::runtime::Builder::new_current_thread().build().unwrap();
    rt.block_on(tokio::fs::create_dir(path)).unwrap();
}

fn symlink(target: &Path, link: &Path) {
    let rt = tokio::runtime::Builder::new_current_thread().build().unwrap();
    rt.block_on(tokio::fs::symlink(target, link)).unwrap();
}

fn kind(is_dir: bool, is_file: bool) -> FileKind {
    if is_dir {
        FileKind::Dir
    } else if is_file {
        FileKind::File
    } else {
        FileKind::Other
    }
}

/// Looks at the disk until it is known what to send; counts the looks.
fn run(first: Result<Step, ServeError>) -> (Result<Step, ServeError>, usize) {
    let mut now = first;
    let mut looks = 0;
    loop {
        let step = match now {
            Ok(step) => step,
            Err(e) => return (Err(e), looks),
        };
        let meta = match &step {
            Step::Examine { path, .. } => path.symlink_metadata(),
            Step::ExamineIndex { target, .. } => target.metadata(),
            _ => return (Ok(step), looks),
        };
        looks += 1;
        now = advance(step, meta.ok().map(|m| kind(m.is_dir(), m.is_file())));
    }
}

#[test]
fn test_serve_handler_root_lists_dir() {
    let dir = tempfile::tempdir().unwrap();
    let root = dir.path().to_path_buf();
    write(&root.join("a.txt"), b"x");
    let (sent, looks) = run(open_path(&root, ""));
    assert_eq!(looks, 1);
    let Ok(Step::SendListing { dir }) = sent else {
        panic!("expected a listing, got {:?}", sent)
    };
    let mut items = Vec::new();
    for entry in dir.read_dir().unwrap() {
        let entry = entry.unwrap();
        let meta = entry.metadata().unwrap();
        items.push(DirItem {
            name: entry.file_name().to_string_lossy().into_owned(),
            meta: Some(ItemMeta {
                is_dir: meta.is_dir(),
                len: meta.len(),
                modified: None,
                dangling: false,
            }),
        });
    }
    assert_eq!(listing_head().status, 200);
    let html = render_listing(&root, &dir, items);
    assert!(html.contains("a.txt"));
}

#[test]
fn test_serve_handler_traversal_forbidden() {
    let dir = tempfile::tempdir().unwrap();
    let root = dir.path().to_path_buf();
    match open_path(&root, "../outside") {
        Err(ServeError::Forbidden) => {}
        other => panic!("expected Forbidden, got {:?}", other),
    }
}

#[test]
fn test_serve_handler_index_html_precedence() {
    let dir = tempfile::tempdir().unwrap();
    let root = dir.path().canonicalize().unwrap();
    write(&root.join("index.html"), b"<h1>INDEX</h1>");
    write(&root.join("other.txt"), b"x");
    let (sent, looks) = run(open_path(&root, ""));
    assert_eq!(looks, 2);
    match sent {
        Ok(Step::SendIndex { index, target }) => {
            assert_eq!(index, root.join("index.html"));
            assert_eq!(target, root.join("index.html"));
            let rt = tokio::runtime::Builder::new_current_thread().build().unwrap();
            assert_eq!(rt.block_on(tokio::fs::read(target)).unwrap(), b"<h1>INDEX</h1>");
        }
        other => panic!("expected the index page, got {:?}", other),
    }
    match run(open_root(&root)) {
        (Ok(Step::SendIndex { target, .. }), 1) => assert_eq!(target, root.join("index.html")),
        other => panic!("expected the index page, got {:?}", other),
    }
}

#[test]
fn index_that_is_a_directory_is_listed_over() {
    let dir = tempfile::tempdir().unwrap();
    let root = dir.path().canonicalize().unwrap();
    create_dir(&root.join("index.html"));
    match run(open_root(&root)).0 {
        Ok(Step::SendListing { dir }) => assert_eq!(dir, root),
        other => panic!("expected a listing, got {:?}", other),
    }
}

#[test]
fn files_are_sent() {
    let dir = tempfile::tempdir().unwrap();
    let root = dir.path().canonicalize().unwrap();
    write(&root.join("a.txt"), b"x");
    match run(open_path(&root, "a.txt")) {
        (Ok(Step::SendFile { path }), 1) => assert_eq!(path, root.join("a.txt")),
        other => panic!("expected the file, got {:?}", other),
    }
    assert!(matches!(run(open_path(&root, "b.txt")).0, Err(ServeError::NotFound)));
}

#[test]
fn what_is_sent_lies_in_the_directory() {
    let dir = tempfile::tempdir().unwrap();
    let root = dir.path().canonicalize().unwrap();
    create_dir(&root.join("a"));
    create_dir(&root.join("b"));
    write(&root.join("a").join("index.html"), b"x");
    write(&root.join("b").join("f.txt"), b"x");
    let sent = |rel: &str| match run(open_path(&root, rel)).0 {
        Ok(Step::SendFile { path }) => path,
        Ok(Step::SendIndex { target, .. }) => target,
        Ok(Step::SendListing { dir }) => dir,
        other => panic!("unexpected {:?}", other),
    };
    assert_eq!(sent(""), root);
    assert_eq!(sent("a"), root.join("a/index.html"));
    assert_eq!(sent("a/"), root.join("a/index.html"));
    assert_eq!(sent("b"), root.join("b"));
    assert_eq!(sent("a/../b/./f.txt"), root.join("b/f.txt"));
}

#[test]
fn missing_root_is_not_found() {
    let root = Path::new("no-such-directory-here");
    assert!(matches!(open_root(root), Err(ServeError::NotFound)));
}

#[test]
fn index_page_must_resolve_inside() {
    let outside = tempfile::tempdir().unwrap();
    let secret = outside.path().join("secret.html");
    write(&secret, b"secret");
    let dir = tempfile::tempdir().unwrap();
    let root = dir.path().canonicalize().unwrap();
    for name in ["out", "in", "gone"] {
        create_dir(&root.join(name));
    }
    write(&root.join("page.txt"), b"x");
    symlink(&secret, &root.join("out/index.html"));
    symlink(&root.join("page.txt"), &root.join("in/index.html"));
    symlink(&root.join("nothing"), &root.join("gone/index.html"));
    match run(open_path(&root, "out")).0 {
        Ok(Step::SendListing { dir }) => assert_eq!(dir, root.join("out")),
        other => panic!("expected a listing, got {:?}", other),
    }
    match run(open_path(&root, "in")).0 {
        Ok(Step::SendIndex { index, target }) => {
            assert_eq!(index, root.join("in/index.html"));
            assert_eq!(target, root.join("page.txt"));
            assert_eq!(file_head(&index, 1).content_type, "text/html");
        }
        other => panic!("expected the index page, got {:?}", other),
    }
    match run(open_path(&root, "gone")).0 {
        Ok(Step::SendListing { dir }) => assert_eq!(dir, root.join("gone")),
        other => panic!("expected a listing, got {:?}", other),
    }
    assert!(matches!(open_path(&root, "out/index.html"), Err(ServeError::Forbidden)));
}

#[test]
fn steps_follow_what_was_seen() {
    let root = Path::new("/r");
    let path = || PathBuf::from("/r/x");
    let index = || PathBuf::from("/r/x/index.html");
    let target = || PathBuf::from("/r/y");
    let examine = || Step::Examine { root: PathBuf::from("/r"), path: path() };
    let place = |found| place_index(root, path(), index(), found);
    assert!(matches!(advance(examine(), None), Err(ServeError::NotFound)));
    // Nothing is there, so the index page does not resolve.
    match advance(examine(), Some(FileKind::Dir)) {
        Ok(Step::SendListing { dir }) => assert_eq!(dir, path()),
        other => panic!("unexpected {:?}", other),
    }
    for kind in [FileKind::File, FileKind::Other] {
        match advance(examine(), Some(kind)) {
            Ok(Step::SendFile { path: p }) => assert_eq!(p, path()),
            other => panic!("unexpected {:?}", other),
        }
    }
    for found in [None, Some(PathBuf::from("/s/y")), Some(PathBuf::from("/rx"))] {
        match place(found) {
            Step::SendListing { dir } => assert_eq!(dir, path()),
            other => panic!("unexpected {:?}", other),
        }
    }
    match place(Some(target())) {
        Step::ExamineIndex { dir, index: i, target: t } => {
            assert_eq!((dir, i, t), (path(), index(), target()))
        }
        other => panic!("unexpected {:?}", other),
    }
    for kind in [None, Some(FileKind::Dir), Some(FileKind::Other)] {
        match advance(place(Some(target())), kind) {
            Ok(Step::SendListing { dir }) => assert_eq!(dir, path()),
            other => panic!("unexpected {:?}", other),
        }
    }
    match advance(place(Some(target())), Some(FileKind::File)) {
        Ok(Step::SendIndex { index: i, target: t }) => assert_eq!((i, t), (index(), target())),
        other => panic!("unexpected {:?}", other),
    }
    assert!(matches!(
        advance(Step::SendFile { path: path() }, None),
        Ok(Step::SendFile { .. })
    ));
}

#[test]
fn test_file_response_text() {
    let dir = tempfile::tempdir().unwrap();
    let p = dir.path().join("hello.txt");
    write(&p, b"hello world");
    let head = file_head(&p, p.metadata().unwrap().len());
    assert_eq!(head.status, 200);
    assert_eq!(head.content_type, "text/plain");
    assert_eq!(head.content_length, Some(11));
}

#[test]
fn test_file_response_binary() {
    let dir = tempfile::tempdir().unwrap();
    let p = dir.path().join("blob.bin");
    let payload: Vec<u8> = (0u8..=255).cycle().take(1024).collect();
    write(&p, &payload);
    let head = file_head(&p, p.metadata().unwrap().len());
    assert_eq!(head.status, 200);
    assert_eq!(head.content_type, "application/octet-stream");
    assert_eq!(head.content_length, Some(1024));
}

#[test]
fn listing_is_html() {
    let head = listing_head();
    assert_eq!(head.content_type, "text/html; charset=utf-8");
    assert_eq!(head.content_length, None);
}

#[test]
fn error_replies() {
    assert_eq!(ServeError::NotFound.reply(), (404, "Not Found"));
    assert_eq!(ServeError::Forbidden.reply(), (403, "Forbidden"));
    assert_eq!(ServeError::BadRequest.reply(), (400, "Bad Request"));
    let io = ServeError::from(std::io::Error::other("disk gone"));
    assert!(matches!(io, ServeError::Io(_)));
    assert_eq!(io.reply(), (500, "Internal Server Error"));
}
