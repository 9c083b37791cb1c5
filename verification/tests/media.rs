use std::path::Path;

use mime::{APPLICATION_OCTET_STREAM, APPLICATION_PDF, IMAGE_JPEG, IMAGE_PNG, TEXT_HTML};
use rcli::mime_for;

#[test]
fn test_mime_for() {
    assert_eq!(mime_for(Path::new("a.html")), TEXT_HTML.to_string());
    assert_eq!(mime_for(Path::new("a.png")), IMAGE_PNG.to_string());
    assert_eq!(mime_for(Path::new("a.jpg")), IMAGE_JPEG.to_string());
    assert_eq!(mime_for(Path::new("a.pdf")), APPLICATION_PDF.to_string());
    assert_eq!(mime_for(Path::new("a.unknown")), APPLICATION_OCTET_STREAM.to_string());
    assert_eq!(mime_for(Path::new("a")), APPLICATION_OCTET_STREAM.to_string());
}

#[test]
fn mime_follows_the_extension_alone() {
    assert_eq!(mime_for(Path::new("/x/y/b.HTML")), "text/html");
    assert_eq!(mime_for(Path::new("a.png.html")), "text/html");
    assert_eq!(mime_for(Path::new("dir.html/file")), "application/octet-stream");
    assert_eq!(mime_for(Path::new(".html")), "application/octet-stream");
    assert_eq!(mime_for(Path::new("a.")), "application/octet-stream");
    assert_eq!(mime_for(Path::new("a.html/..")), "application/octet-stream");
    assert_eq!(mime_for(Path::new("a.html/.")), "text/html");
}
