use mdserve::store::{FileProbe, SourceFile, TrackedFileSet};

fn source(path: &str, modified: u64, content: &str) -> SourceFile {
    SourceFile { path: path.to_string(), modified, content: content.to_string() }
}

fn single_file_store() -> TrackedFileSet {
    TrackedFileSet::initialize(
        "/docs".to_string(),
        false,
        vec![source("/docs/hello.md", 100, "# Hello")],
    )
}

#[test]
fn test_refresh_before_any_change_is_noop() {
    let mut store = single_file_store();

    // No disk change: same modification time observed again.
    let probe = FileProbe::Present { modified: 100, content: "# Hello".to_string() };
    assert!(!store.refresh("hello.md", probe));

    let entry = store.get("hello.md").expect("tracked file must be served");
    assert_eq!(entry.html, "<h1>Hello</h1>");
    assert_eq!(entry.modified, 100);
}

#[test]
fn test_refresh_picks_up_new_content() {
    let mut store = single_file_store();

    let probe = FileProbe::Present { modified: 200, content: "# Changed".to_string() };
    assert!(store.refresh("hello.md", probe));

    let entry = store.get("hello.md").expect("tracked file must be served");
    assert_eq!(entry.html, "<h1>Changed</h1>");
    assert_eq!(entry.modified, 200);
}

#[test]
fn test_refresh_twice_second_is_noop() {
    let mut store = single_file_store();

    let probe = FileProbe::Present { modified: 200, content: "# Changed".to_string() };
    assert!(store.refresh("hello.md", probe));

    // No intervening disk change: the same observation again.  The
    // store reports no second read is even needed.
    assert!(!store.needs_refresh("hello.md", 200));
    let probe = FileProbe::Present { modified: 200, content: "# Changed".to_string() };
    assert!(!store.refresh("hello.md", probe));

    let entry = store.get("hello.md").expect("tracked file must be served");
    assert_eq!(entry.html, "<h1>Changed</h1>");
}

#[test]
fn test_refresh_missing_file_keeps_cache() {
    let mut store = single_file_store();

    // Mid-rename the file is briefly gone: the cached entry stays.
    assert!(!store.refresh("hello.md", FileProbe::Missing));

    let entry = store.get("hello.md").expect("entry must survive a missing probe");
    assert_eq!(entry.html, "<h1>Hello</h1>");
}

#[test]
fn test_refresh_unknown_key() {
    let mut store = single_file_store();
    let probe = FileProbe::Present { modified: 300, content: "# Who".to_string() };
    assert!(!store.refresh("other.md", probe));
    assert!(store.get("other.md").is_none());
}

#[test]
fn test_refresh_older_timestamp_is_noop() {
    let mut store = single_file_store();
    let probe = FileProbe::Present { modified: 50, content: "# Old".to_string() };
    assert!(!store.refresh("hello.md", probe));
    let entry = store.get("hello.md").unwrap();
    assert_eq!(entry.html, "<h1>Hello</h1>");
    assert_eq!(entry.modified, 100);
}

fn directory_store() -> TrackedFileSet {
    TrackedFileSet::initialize(
        "/docs".to_string(),
        true,
        vec![
            source("/docs/c.md", 10, "# C"),
            source("/docs/a.md", 10, "# A"),
            source("/docs/b.md", 10, "# B"),
        ],
    )
}

#[test]
fn test_list_keys_sorted_ignores_creation_order() {
    let store = directory_store();
    assert_eq!(store.list_keys_sorted(), vec!["a.md", "b.md", "c.md"]);
}

#[test]
fn test_add_if_absent_is_noop_on_existing_key() {
    let mut store = directory_store();

    // Same key, different content and time: the first registration wins.
    let added = store.add_if_absent(source("/docs/a.md", 999, "# Clobber"));
    assert!(!added);

    let entry = store.get("a.md").unwrap();
    assert_eq!(entry.html, "<h1>A</h1>");
    assert_eq!(entry.modified, 10);
}

#[test]
fn test_add_if_absent_registers_new_key() {
    let mut store = directory_store();

    let added = store.add_if_absent(source("/docs/d.md", 20, "# D"));
    assert!(added);

    let entry = store.get("d.md").unwrap();
    assert_eq!(entry.html, "<h1>D</h1>");
    assert_eq!(store.list_keys_sorted(), vec!["a.md", "b.md", "c.md", "d.md"]);
}

#[test]
fn test_initialize_first_registration_wins() {
    let store = TrackedFileSet::initialize(
        "/x".to_string(),
        true,
        vec![source("/x/a.md", 1, "# First"), source("/y/a.md", 2, "# Second")],
    );
    let entry = store.get("a.md").unwrap();
    assert_eq!(entry.html, "<h1>First</h1>");
    assert_eq!(entry.path, "/x/a.md");
}

#[test]
fn test_empty_store() {
    let store = TrackedFileSet::initialize("/x".to_string(), true, Vec::new());
    assert!(store.get("a.md").is_none());
    assert_eq!(store.list_keys_sorted().len(), 0);
}

#[test]
fn test_renderer_produces_markup_not_source() {
    // The rendering boundary must transform its input: served output is
    // HTML markup, not the markdown source handed in.
    let store = TrackedFileSet::initialize(
        "/docs".to_string(),
        false,
        vec![source("/docs/hello.md", 100, "This is **bold** text.")],
    );
    let entry = store.get("hello.md").unwrap();
    assert_ne!(entry.html, "This is **bold** text.");
    assert_eq!(entry.html, "<p>This is <strong>bold</strong> text.</p>");
}

#[test]
fn test_store_modes() {
    let store = directory_store();
    assert!(store.directory_mode());
    assert!(store.show_navigation());
    assert_eq!(store.base_dir(), "/docs");

    let store = single_file_store();
    assert!(!store.directory_mode());
    assert!(!store.show_navigation());
}

#[test]
fn test_default_document_is_first_sorted_key() {
    let store = directory_store();
    assert_eq!(store.default_document(), Some("a.md".to_string()));

    let empty = TrackedFileSet::initialize("/x".to_string(), true, Vec::new());
    assert_eq!(empty.default_document(), None);
}
