use mdserve::paths::path_within_base;
use mdserve::render::html_has_mermaid;
use mdserve::store::{SourceFile, TrackedFileSet};
use mdserve::template::Template;
use mdserve::text::{bytes_lt, contains_bytes, etag_header_matches, format_host, str_eq, str_lt,
    string_colored, u16_to_dec};

#[test]
fn test_string_colored_wraps_in_escape_codes() {
    assert_eq!(string_colored("localhost:3000"), "\x1b[1;38;5;153mlocalhost:3000\x1b[0m");
    assert_eq!(string_colored(""), "\x1b[1;38;5;153m\x1b[0m");
}

#[test]
fn test_byte_order_is_lexicographic() {
    assert!(bytes_lt(b"a.md", b"b.md"));
    assert!(!bytes_lt(b"b.md", b"a.md"));
    assert!(bytes_lt(b"a", b"a.md"));
    assert!(!bytes_lt(b"a.md", b"a.md"));
    assert!(str_lt("test1.md", "test2.markdown"));
    assert!(str_lt("test2.markdown", "test3.md"));
}

#[test]
fn test_str_eq() {
    assert!(str_eq("a.md", "a.md"));
    assert!(!str_eq("a.md", "a.markdown"));
    assert!(!str_eq("", "a"));
    assert!(str_eq("", ""));
}

#[test]
fn test_contains_bytes() {
    assert!(contains_bytes(b"hello world", b"lo wo"));
    assert!(contains_bytes(b"hello", b""));
    assert!(contains_bytes(b"hello", b"hello"));
    assert!(!contains_bytes(b"hello", b"hello!"));
    assert!(!contains_bytes(b"hel", b"hello"));
}

#[test]
fn test_mermaid_marker_detected_in_rendered_output() {
    let store = TrackedFileSet::initialize(
        "/docs".to_string(),
        false,
        vec![SourceFile {
            path: "/docs/diagram.md".to_string(),
            modified: 1,
            content: "```mermaid\ngraph TD\nA-->B\n```\n".to_string(),
        }],
    );
    let entry = store.get("diagram.md").unwrap();
    assert!(html_has_mermaid(&entry.html));
}

#[test]
fn test_no_mermaid_marker_without_mermaid_block() {
    let store = TrackedFileSet::initialize(
        "/docs".to_string(),
        false,
        vec![SourceFile {
            path: "/docs/code.md".to_string(),
            modified: 1,
            content: "```javascript\nconsole.log(1)\n```\n".to_string(),
        }],
    );
    let entry = store.get("code.md").unwrap();
    assert!(!html_has_mermaid(&entry.html));
}

#[test]
fn test_template_names() {
    assert_eq!(Template::Classic.as_ref(), "classic");
    assert_eq!(Template::Cv.as_ref(), "cv");
}

#[test]
fn test_gfm_features_render() {
    let store = TrackedFileSet::initialize(
        "/docs".to_string(),
        false,
        vec![SourceFile {
            path: "/docs/gfm.md".to_string(),
            modified: 1,
            content: "| Name |\n| ---- |\n| John |\n\n~~deleted text~~\n".to_string(),
        }],
    );
    let html = &store.get("gfm.md").unwrap().html;
    assert!(html.contains("<table>"));
    assert!(html.contains("<th>Name</th>"));
    assert!(html.contains("<td>John</td>"));
    assert!(html.contains("<del>deleted text</del>"));
}

#[test]
fn test_raw_html_passes_through() {
    let store = TrackedFileSet::initialize(
        "/docs".to_string(),
        false,
        vec![SourceFile {
            path: "/docs/raw.md".to_string(),
            modified: 1,
            content: "<div class=\"highlight\">kept</div>\n".to_string(),
        }],
    );
    let html = &store.get("raw.md").unwrap().html;
    assert!(html.contains("<div class=\"highlight\">"));
    assert!(!html.contains("&lt;div"));
}

#[test]
fn test_format_host() {
    assert_eq!(format_host("127.0.0.1", 3000, false), "127.0.0.1:3000");
    assert_eq!(format_host("192.168.1.1", 8080, false), "192.168.1.1:8080");

    assert_eq!(format_host("localhost", 3000, false), "localhost:3000");
    assert_eq!(format_host("example.com", 80, false), "example.com:80");

    assert_eq!(format_host("::1", 3000, true), "[::1]:3000");
    assert_eq!(format_host("2001:db8::1", 8080, true), "[2001:db8::1]:8080");
}

#[test]
fn test_port_formatting_edges() {
    assert_eq!(u16_to_dec(0), "0");
    assert_eq!(u16_to_dec(10), "10");
    assert_eq!(u16_to_dec(65535), "65535");
}

#[test]
fn test_path_within_base() {
    assert!(path_within_base("/srv/docs", "/srv/docs/a.png"));
    assert!(path_within_base("/srv/docs", "/srv/docs"));
    assert!(path_within_base("/", "/srv"));
    assert!(!path_within_base("/srv/docs", "/srv/docs-evil/a.png"));
    assert!(!path_within_base("/srv/docs", "/srv/a.png"));
    assert!(!path_within_base("/srv/docs", "/etc/passwd"));
}

#[test]
fn test_etag_header_matches() {
    assert!(etag_header_matches("\"0.1.0\"", "\"0.1.0\""));
    assert!(etag_header_matches("\"a\", \"0.1.0\"", "\"0.1.0\""));
    assert!(etag_header_matches("  \"0.1.0\"  ", "\"0.1.0\""));
    assert!(etag_header_matches("\"a\",\t\"0.1.0\"\t, \"b\"", "\"0.1.0\""));
    assert!(!etag_header_matches("\"different-etag\"", "\"0.1.0\""));
    assert!(!etag_header_matches("\"0.1.0", "\"0.1.0\""));
    assert!(!etag_header_matches("", "\"0.1.0\""));
    // The tag must match a whole element, not a part of one.
    assert!(!etag_header_matches("\"x\" \"0.1.0\"", "\"0.1.0\""));
}
