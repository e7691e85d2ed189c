use mdserve::paths::{classify_request, guess_image_content_type, is_image_file, is_markdown_file,
    RequestKind};
use mdserve::scan::{select_markdown_files, FileCandidate};

#[test]
fn test_is_markdown_file() {
    assert!(is_markdown_file("test.md"));
    assert!(is_markdown_file("/path/to/file.md"));

    assert!(is_markdown_file("test.markdown"));
    assert!(is_markdown_file("/path/to/file.markdown"));

    assert!(is_markdown_file("test.MD"));
    assert!(is_markdown_file("test.Md"));
    assert!(is_markdown_file("test.MARKDOWN"));
    assert!(is_markdown_file("test.MarkDown"));

    assert!(!is_markdown_file("test.txt"));
    assert!(!is_markdown_file("test.rs"));
    assert!(!is_markdown_file("test.html"));
    assert!(!is_markdown_file("test"));
    assert!(!is_markdown_file("README"));
}

#[test]
fn test_is_image_file() {
    assert!(is_image_file("test.png"));
    assert!(is_image_file("test.jpg"));
    assert!(is_image_file("test.jpeg"));
    assert!(is_image_file("test.gif"));
    assert!(is_image_file("test.svg"));
    assert!(is_image_file("test.webp"));
    assert!(is_image_file("test.bmp"));
    assert!(is_image_file("test.ico"));

    assert!(is_image_file("test.PNG"));
    assert!(is_image_file("test.JPG"));
    assert!(is_image_file("test.JPEG"));

    assert!(is_image_file("/path/to/image.png"));
    assert!(is_image_file("./images/photo.jpg"));

    assert!(!is_image_file("test.txt"));
    assert!(!is_image_file("test.md"));
    assert!(!is_image_file("test.rs"));
    assert!(!is_image_file("test"));
}

#[test]
fn test_guess_image_content_type() {
    assert_eq!(guess_image_content_type("test.png"), "image/png");
    assert_eq!(guess_image_content_type("test.jpg"), "image/jpeg");
    assert_eq!(guess_image_content_type("test.jpeg"), "image/jpeg");
    assert_eq!(guess_image_content_type("test.gif"), "image/gif");
    assert_eq!(guess_image_content_type("test.svg"), "image/svg+xml");
    assert_eq!(guess_image_content_type("test.webp"), "image/webp");
    assert_eq!(guess_image_content_type("test.bmp"), "image/bmp");
    assert_eq!(guess_image_content_type("test.ico"), "image/x-icon");

    assert_eq!(guess_image_content_type("test.PNG"), "image/png");
    assert_eq!(guess_image_content_type("test.JPG"), "image/jpeg");

    assert_eq!(guess_image_content_type("test.xyz"), "application/octet-stream");
    assert_eq!(guess_image_content_type("test"), "application/octet-stream");
}

#[test]
fn test_hidden_files_have_no_extension() {
    // A name that begins with its only dot has no extension.
    assert!(!is_markdown_file(".md"));
    assert!(!is_image_file(".png"));
    assert_eq!(guess_image_content_type(".png"), "application/octet-stream");
    // A later dot does give one.
    assert!(is_markdown_file(".hidden.md"));
}

#[test]
fn test_classify_request_routes() {
    assert_eq!(classify_request("notes.md"), RequestKind::Markdown);
    assert_eq!(classify_request("notes.markdown"), RequestKind::Markdown);
    assert_eq!(classify_request("photo.png"), RequestKind::Image);
    assert_eq!(classify_request("photo.JPG"), RequestKind::Image);
    assert_eq!(classify_request("secret.txt"), RequestKind::Other);
    // The request route is case-sensitive on the markdown suffix, unlike
    // the file-type check; such a name falls through to not-found.
    assert_eq!(classify_request("notes.MD"), RequestKind::Other);
}

fn cand(path: &str, is_file: bool) -> FileCandidate {
    FileCandidate { path: path.to_string(), is_file }
}

#[test]
fn test_select_markdown_files_sorts_and_filters() {
    let candidates = vec![
        cand("c.md", true),
        cand("notes.txt", true),
        cand("a.md", true),
        cand("README", true),
        cand("b.markdown", true),
    ];
    let selected = select_markdown_files(&candidates);
    assert_eq!(selected, vec!["a.md", "b.markdown", "c.md"]);
}

#[test]
fn test_select_markdown_files_skips_directories() {
    let candidates = vec![cand("root.md", true), cand("subdir.md", false)];
    let selected = select_markdown_files(&candidates);
    assert_eq!(selected, vec!["root.md"]);
}

#[test]
fn test_select_markdown_files_empty() {
    let candidates: Vec<FileCandidate> = Vec::new();
    let selected = select_markdown_files(&candidates);
    assert_eq!(selected.len(), 0);
}

#[test]
fn test_select_markdown_files_case_insensitive() {
    let candidates = vec![
        cand("test1.md", true),
        cand("test2.MD", true),
        cand("test3.Md", true),
        cand("test4.MARKDOWN", true),
    ];
    let selected = select_markdown_files(&candidates);
    assert_eq!(selected.len(), 4);
}
