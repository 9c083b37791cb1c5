use std::path::{Path, PathBuf};

use rcli::components::{
    component_spans, path_file_name, path_parent, path_same, path_starts_with, path_strip_prefix,
};
use rcli::resolve::{lookup, settle};
use rcli::{safe_join, ServeError};

fn write(path: &Path, bytes: &[u8]) {
    let rt = tokio::runtime::Builder::new_current_thread().build().unwrap();
    rt.block_on(tokio::fs::write(path, bytes)).unwrap();
}

fn create_dir(path: &Path) {
    let rt = tokio::runtime::Builder::new_current_thread().build().unwrap();
    rt.block_on(tokio::fs::create_dir(path)).unwrap();
}

fn symlink(target: &Path, link: &Path) {
    let rt = tokio::runtime::Builder::new_current_thread().build().unwrap();
    rt.block_on(tokio::fs::symlink(target, link)).unwrap();
}

#[test]
fn test_safe_join_basic() {
    // The working directory need not hold a manifest, so the file is put where it is looked for.
    let dir = tempfile::tempdir().unwrap();
    write(&dir.path().join("Cargo.toml"), b"[package]");
    let p = safe_join(dir.path(), "Cargo.toml").expect("file exists");
    assert!(p.ends_with("Cargo.toml"));
    let root = PathBuf::from(".");
    assert_eq!(safe_join(&root, "").unwrap(), root.canonicalize().unwrap());
    assert_eq!(safe_join(&root, ".").unwrap(), root.canonicalize().unwrap());
}

#[test]
fn test_safe_join_traversal() {
    let root = PathBuf::from(".");
    match safe_join(&root, "../outside-target") {
        Err(ServeError::Forbidden) => {}
        other => panic!("expected Forbidden, got {:?}", other),
    }
    match safe_join(&root, "src/../../../etc/passwd") {
        Err(ServeError::Forbidden) => {}
        other => panic!("expected Forbidden, got {:?}", other),
    }
    match safe_join(&root, "does-not-exist") {
        Err(ServeError::NotFound) => {}
        other => panic!("expected NotFound, got {:?}", other),
    }
    // sanity: a real subdir still resolves
    assert!(safe_join(&root, "src").is_ok());
}

#[test]
fn safe_join_missing_root_is_not_found() {
    let root = PathBuf::from("no-such-directory-here");
    assert!(matches!(safe_join(&root, ""), Err(ServeError::NotFound)));
    assert!(matches!(safe_join(&root, "../x"), Err(ServeError::NotFound)));
}

#[test]
fn safe_join_inner_parent_steps_are_fine() {
    let dir = tempfile::tempdir().unwrap();
    let root = dir.path().canonicalize().unwrap();
    create_dir(&root.join("sub"));
    write(&root.join("a.txt"), b"x");
    assert_eq!(safe_join(&root, "sub/../a.txt").unwrap(), root.join("a.txt"));
    assert_eq!(safe_join(&root, "./sub//./").unwrap(), root.join("sub"));
    // A separator after a file name does not make it a directory.
    assert_eq!(safe_join(&root, "a.txt/").unwrap(), root.join("a.txt"));
    assert!(matches!(safe_join(&root, "sub/../../a.txt"), Err(ServeError::Forbidden)));
}

#[test]
fn safe_join_tidies_requests() {
    let dir = tempfile::tempdir().unwrap();
    let root = dir.path().canonicalize().unwrap();
    create_dir(&root.join("a"));
    write(&root.join("a").join("b"), b"x");
    for (rel, tidy) in [
        ("a//./b/", "a/b"),
        ("./a/", "a"),
        ("./", ""),
        (".//.", ""),
        ("a/./../a//b", "a/../a/b"),
    ] {
        assert_eq!(safe_join(&root, rel).unwrap(), safe_join(&root, tidy).unwrap());
    }
    assert!(matches!(safe_join(&root, "a//.//../.././"), Err(ServeError::Forbidden)));
    assert!(matches!(safe_join(&root, "a/../.."), Err(ServeError::Forbidden)));
    assert!(matches!(safe_join(&root, ".//c/."), Err(ServeError::NotFound)));
    assert!(matches!(safe_join(&root, "c"), Err(ServeError::NotFound)));
}

#[test]
fn safe_join_absolute_request() {
    let dir = tempfile::tempdir().unwrap();
    let root = dir.path().canonicalize().unwrap();
    write(&root.join("a.txt"), b"x");
    assert!(matches!(safe_join(&root, "/etc/passwd"), Err(ServeError::Forbidden)));
    let inside = root.join("a.txt");
    assert!(matches!(safe_join(&root, inside.to_str().unwrap()), Err(ServeError::Forbidden)));
    assert!(matches!(safe_join(&root, "/"), Err(ServeError::Forbidden)));
    assert!(matches!(safe_join(Path::new("/"), "/"), Err(ServeError::Forbidden)));
}

#[test]
fn safe_join_symlink_escape_is_forbidden() {
    let outside = tempfile::tempdir().unwrap();
    let dir = tempfile::tempdir().unwrap();
    let root = dir.path().canonicalize().unwrap();
    symlink(outside.path(), &root.join("out"));
    create_dir(&root.join("sub"));
    symlink(Path::new("sub"), &root.join("in"));
    assert!(matches!(safe_join(&root, "out"), Err(ServeError::Forbidden)));
    assert_eq!(safe_join(&root, "in").unwrap(), root.join("sub"));
}

#[test]
fn safe_join_result_stays_inside() {
    let dir = tempfile::tempdir().unwrap();
    let root = dir.path().canonicalize().unwrap();
    create_dir(&root.join("sub"));
    for rel in ["", ".", "sub", "sub/..", "./sub/.", "sub/../sub"] {
        assert!(safe_join(&root, rel).unwrap().starts_with(&root));
    }
}

#[test]
fn lookup_below_a_directory() {
    let root = Path::new("/srv/www");
    assert_eq!(lookup(root, "a/b").unwrap(), Path::new("/srv/www/a/b"));
    assert_eq!(lookup(root, "a//./b/").unwrap().to_str().unwrap(), "/srv/www/a/b");
    assert_eq!(lookup(root, "a/../b").unwrap().to_str().unwrap(), "/srv/www/a/../b");
    assert!(matches!(lookup(root, ".."), Err(ServeError::Forbidden)));
    assert!(matches!(lookup(root, "a/../.."), Err(ServeError::Forbidden)));
    assert!(matches!(lookup(root, "/srv/wwwx"), Err(ServeError::Forbidden)));
    assert!(matches!(lookup(root, "/srv/www/x"), Err(ServeError::Forbidden)));
    assert_eq!(lookup(Path::new("/"), "x").unwrap(), Path::new("/x"));
}

#[test]
fn settle_checks_where_links_lead() {
    let root = Path::new("/srv/www");
    let inside = PathBuf::from("/srv/www/a");
    assert_eq!(settle(root, Some(inside.clone())).unwrap(), inside);
    assert!(matches!(settle(root, Some(PathBuf::from("/srv/wwwx"))), Err(ServeError::Forbidden)));
    assert!(matches!(settle(root, Some(PathBuf::from("/srv"))), Err(ServeError::Forbidden)));
    assert!(matches!(settle(root, None), Err(ServeError::NotFound)));
}

fn samples() -> Vec<&'static str> {
    vec![
        "", "/", "//", "///", ".", "./", "/.", "/./", "..", "../", "/..", "a", "a/", "a//", "a/.",
        "a/./", "./a", "././a", "./.", "../a", "a/..", "/a", "//a", "/a/", "/a//b", "/a/./b/./",
        "a/b/c", "/a/b/c//", "a.b", ".hidden", "a/.hidden", "..a", "a..", "...", "a/.../b",
        "/a/b/../c", "ä/ö", "a b/c\td", "/a/b/c/d/e",
    ]
}

#[test]
fn components_agree_with_std() {
    for s in samples() {
        let b = s.as_bytes();
        let ours: Vec<&[u8]> =
            component_spans(b).iter().map(|span| &b[span.0..span.1]).collect();
        let std: Vec<&[u8]> = Path::new(s)
            .components()
            .map(|c| c.as_os_str().as_encoded_bytes())
            .collect();
        assert_eq!(ours, std, "{:?}", s);
    }
}

#[test]
fn path_parts_agree_with_std() {
    for s in samples() {
        let p = Path::new(s);
        let b = s.as_bytes();
        assert_eq!(
            path_file_name(b),
            p.file_name().map(|n| n.as_encoded_bytes()),
            "file name of {:?}",
            s
        );
        assert_eq!(
            path_parent(b),
            p.parent().map(|n| n.as_os_str().as_encoded_bytes()),
            "parent of {:?}",
            s
        );
    }
}

#[test]
fn path_pairs_agree_with_std() {
    for s in samples() {
        for t in samples() {
            let (p, q) = (Path::new(s), Path::new(t));
            let (b, c) = (s.as_bytes(), t.as_bytes());
            assert_eq!(path_starts_with(b, c), p.starts_with(q), "{:?} {:?}", s, t);
            assert_eq!(path_same(b, c), p == q, "{:?} {:?}", s, t);
            assert_eq!(
                path_strip_prefix(b, c),
                p.strip_prefix(q).ok().map(|r| r.as_os_str().as_encoded_bytes()),
                "{:?} {:?}",
                s,
                t
            );
        }
    }
}

#[test]
fn lookup_agrees_with_std_join() {
    for s in samples() {
        for root in ["/", "/a", "/a/b"] {
            if let Ok(path) = lookup(Path::new(root), s) {
                let joined: PathBuf = Path::new(root).join(s).components().collect();
                assert_eq!(path.to_str(), joined.to_str());
                assert!(joined.starts_with(root));
                assert!(!Path::new(s).is_absolute());
            }
        }
    }
}
