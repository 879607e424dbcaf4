use anaphor::json::JsonValue;
use anaphor::tools::{
    brave_results_from_body, has_content, normalize_file_path, normalize_lowered_path,
    normalize_url, parse_brave_results, readable_page_text, admits_page, safe_file_path_in, sanitized_tool_error,
    truncate, FileAccessError,
};
use anaphor::types::SearchResult;

fn text(s: &str) -> JsonValue {
    JsonValue::Text(s.to_string())
}

fn obj(members: Vec<(&str, JsonValue)>) -> JsonValue {
    JsonValue::Object(members.into_iter().map(|(k, v)| (k.to_string(), v)).collect())
}

fn brave_doc(items: Vec<JsonValue>) -> JsonValue {
    obj(vec![("web", obj(vec![("results", JsonValue::Array(items))]))])
}

#[test]
fn parses_brave_web_results() {
    let data = brave_doc(vec![
        obj(vec![
            ("title", text("Rust")),
            ("url", text("https://www.rust-lang.org/")),
            ("description", text("A language empowering everyone.")),
        ]),
        obj(vec![
            ("title", text("The Rust Book")),
            ("url", text("https://doc.rust-lang.org/book/")),
            ("description", text("The Rust Programming Language book.")),
        ]),
    ]);

    assert_eq!(
        parse_brave_results(&data),
        vec![
            SearchResult {
                title: "Rust".to_string(),
                url: "https://www.rust-lang.org/".to_string(),
                snippet: "A language empowering everyone.".to_string(),
            },
            SearchResult {
                title: "The Rust Book".to_string(),
                url: "https://doc.rust-lang.org/book/".to_string(),
                snippet: "The Rust Programming Language book.".to_string(),
            },
        ]
    );
}

#[test]
fn skips_incomplete_brave_results() {
    let data = brave_doc(vec![
        obj(vec![
            ("title", text("Missing URL")),
            ("description", text("This should be ignored.")),
        ]),
        obj(vec![
            ("title", text("Complete")),
            ("url", text("https://example.com/")),
            ("description", text("This should be kept.")),
        ]),
    ]);

    assert_eq!(
        parse_brave_results(&data),
        vec![SearchResult {
            title: "Complete".to_string(),
            url: "https://example.com/".to_string(),
            snippet: "This should be kept.".to_string(),
        }]
    );
}

#[test]
fn returns_no_results_for_missing_brave_web_results() {
    let data = obj(vec![("web", obj(vec![]))]);

    assert!(parse_brave_results(&data).is_empty());
}

#[test]
fn reads_brave_results_from_response_body() {
    let body = r#"{"web":{"results":[{"title":"T","url":"https://t.example/","description":"D","age":3},{"title":7,"url":"u","description":"d"}]}}"#;
    assert_eq!(
        brave_results_from_body(body),
        Some(vec![SearchResult {
            title: "T".to_string(),
            url: "https://t.example/".to_string(),
            snippet: "D".to_string(),
        }])
    );
    assert_eq!(brave_results_from_body("{\"web\": []}"), Some(vec![]));
    assert_eq!(brave_results_from_body("<html>"), None);
}

#[test]
fn normalizes_url_and_readme_path() {
    assert_eq!(normalize_url("https://example.com"), "https://example.com");
    assert_eq!(normalize_url("example.com"), "https://example.com");
    assert_eq!(normalize_file_path("README"), "README.md");
    assert_eq!(normalize_file_path("readme.md"), "README.md");
    assert_eq!(normalize_file_path("cargo.toml"), "Cargo.toml");
    assert_eq!(normalize_file_path("main.rs"), "src/main.rs");
    assert_eq!(normalize_file_path("gitignore"), ".gitignore");
    assert_eq!(normalize_file_path("src/main.rs"), "src/main.rs");
}

#[test]
fn normalizes_more_paths_and_urls() {
    assert_eq!(normalize_url("  http://x.org/a "), "http://x.org/a");
    assert_eq!(normalize_url("ftp://x"), "https://ftp://x");
    assert_eq!(normalize_file_path("  MakeFile "), "Makefile");
    assert_eq!(normalize_file_path(".GITIGNORE"), ".gitignore");
    assert_eq!(normalize_file_path("Docs/Guide.MD"), "docs/guide.md");
    assert_eq!(normalize_lowered_path("readme"), "README.md");
    assert_eq!(normalize_lowered_path("README"), "README");
}

#[test]
fn detects_non_empty_context() {
    assert!(has_content("notes"));
    assert!(has_content("\nnotes\n"));
    assert!(!has_content(""));
    assert!(!has_content(" \n\t"));
}

#[test]
fn unicode_whitespace_is_not_content() {
    assert!(!has_content("\u{a0}\u{3000}\u{2009}\r\n"));
    assert!(has_content("\u{200b}"));
}

#[test]
fn truncates_on_char_boundary() {
    assert_eq!(truncate("aébc", 4), "aébc");
    assert_eq!(truncate("aébcdef", 5), "aé...");
    assert_eq!(truncate("aébc", 3), "...");
    assert_eq!(truncate("aébc", 2), "..");
}

#[test]
fn truncation_never_exceeds_the_limit() {
    for max in 0..8 {
        let t = truncate("abcdefg", max);
        assert_eq!(t.chars().count(), max.min(7));
    }
    assert_eq!(truncate("", 0), "");
    assert_eq!(truncate("abc", 0), "");
}

#[test]
fn sanitizes_tool_errors() {
    assert_eq!(sanitized_tool_error("read_url"), "read_url failed; details omitted");
}

#[test]
fn renders_page_text() {
    let text = readable_page_text("<html><body><h1>Hello</h1><p>World <b>wide</b></p></body></html>").unwrap();
    assert!(text.contains("Hello"));
    assert!(text.contains("World"));
    assert!(!text.contains("<p>"));
}

fn comps(parts: &[&str]) -> Vec<Vec<u8>> {
    parts.iter().map(|p| p.as_bytes().to_vec()).collect()
}

#[test]
fn rejects_paths_outside_the_working_directory() {
    let cwd = comps(&["/", "home", "me", "proj"]);
    assert_eq!(
        safe_file_path_in(&comps(&["/", "home", "me", "Cargo.toml"]), &cwd, true),
        Err(FileAccessError::OutsideWorkingDirectory)
    );
    assert_eq!(
        safe_file_path_in(&comps(&["/", "home", "me", "project", "a"]), &cwd, true),
        Err(FileAccessError::OutsideWorkingDirectory)
    );
    assert_eq!(
        safe_file_path_in(&comps(&["/", "home", "me", "proj", "src"]), &cwd, false),
        Err(FileAccessError::NotAFile)
    );
    assert_eq!(
        safe_file_path_in(&comps(&["/", "home", "me", "proj", "README.md"]), &cwd, true),
        Ok(())
    );
    assert_eq!(
        FileAccessError::OutsideWorkingDirectory.message(),
        "requested file is outside the current working directory"
    );
    assert_eq!(FileAccessError::NotAFile.message(), "requested path is not a file");
}

#[test]
fn normalizing_a_url_twice_changes_nothing() {
    for url in ["  example.com ", "http://a.b", "", " https://x "] {
        let once = normalize_url(url);
        assert_eq!(normalize_url(&once), once);
        assert!(once.starts_with("http://") || once.starts_with("https://"));
    }
}

#[test]
fn normalizing_an_ascii_path_twice_changes_nothing() {
    for path in [" README ", "Cargo.TOML", "main.rs", "src/main.rs", "MakeFile", "Docs/A.md", ".GitIgnore"] {
        let once = normalize_file_path(path);
        assert_eq!(normalize_file_path(&once), once);
    }
}

#[test]
fn refuses_pages_with_huge_column_spans() {
    let huge = r#"<table><tr><td colspan="18446744073709551615">a</td><td colspan="2">b</td></tr></table>"#;
    assert!(!admits_page(huge));
    assert_eq!(readable_page_text(huge), None);
    assert!(!admits_page(r#"<td COLSPAN="&#57;&#57;">x</td>"#));
    assert!(!admits_page("<td colspan=12345>x</td>"));
    assert!(admits_page(r#"<table><tr><td colSpan = "2">a</td><td colspan=3 >b</td></tr></table>"#));
    assert!(admits_page("<p>no tables here, 123456789012</p>"));
    let text = readable_page_text(r#"<table><tr><td colspan="2">wide</td></tr><tr><td>a</td><td>b</td></tr></table>"#).unwrap();
    assert!(text.contains("wide"));
}
