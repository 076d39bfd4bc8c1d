//! The character-level helpers, path building and rendering on concrete
//! values.

use sci_librarian::clients::{upload_path_allowed, FakeDropboxClient};
use sci_librarian::indexing::generate_index;
use sci_librarian::indexing::{file_part_of, render_index};
use sci_librarian::models::{
    ArticleMetadata, DropboxId, OneLineSummary, RemotePath, Rule, Rules, WorkDirectory,
};
use sci_librarian::pipeline::{raw_copy_path_of, render_sidecar, sidecar_path_of};
use sci_librarian::text::{
    contains_str, is_blank, join_strings, sanitize_text, str_contains, str_eq, str_le,
    str_starts_with,
};

#[test]
fn test_sanitize_text() {
    assert_eq!(sanitize_text("id:123"), "id_123");
    assert_eq!(sanitize_text("a/b\\c d"), "a_b_c_d");
    assert_eq!(sanitize_text("plain"), "plain");
    assert_eq!(sanitize_text(""), "");
}

#[test]
fn test_raw_copy_path() {
    let p = raw_copy_path_of(
        &WorkDirectory("working".to_string()),
        &DropboxId("id:123".to_string()),
    );
    assert_eq!(p.0, "working/raw/id_123.pdf");
}

#[test]
fn test_sidecar_path() {
    let p = sidecar_path_of(&RemotePath("/out/paper.pdf".to_string()));
    assert_eq!(p.0, "/out/paper.pdf.md");
}

#[test]
fn test_str_contains() {
    assert!(str_contains("hello world", "lo wo"));
    assert!(str_contains("hello", ""));
    assert!(!str_contains("hello", "world"));
    assert!(!str_contains("ab", "abc"));
    assert!(str_contains("abc", "abc"));
}

#[test]
fn test_str_eq_and_prefix() {
    assert!(str_eq("abc", "abc"));
    assert!(!str_eq("abc", "abd"));
    assert!(!str_eq("abc", "ab"));
    assert!(str_starts_with("/out/a/b", "/out"));
    assert!(!str_starts_with("/elsewhere", "/out"));
    assert!(upload_path_allowed(
        &RemotePath("/out/a.pdf".to_string()),
        "/out"
    ));
    assert!(!upload_path_allowed(
        &RemotePath("/secret/a.pdf".to_string()),
        "/out"
    ));
}

#[test]
fn test_is_blank() {
    assert!(is_blank(""));
    assert!(is_blank(" \t\r\n "));
    assert!(!is_blank(" x "));
}

#[test]
fn test_str_le() {
    assert!(str_le("", "a"));
    assert!(str_le("a", "a"));
    assert!(str_le("Alpha", "Beta"));
    assert!(!str_le("Beta", "Alpha"));
    assert!(str_le("ab", "abc"));
    assert!(!str_le("abc", "ab"));
}

#[test]
fn test_join_strings() {
    assert_eq!(join_strings(&vec![], ", "), "");
    assert_eq!(join_strings(&vec!["a".to_string()], ", "), "a");
    assert_eq!(
        join_strings(&vec!["a".to_string(), "b".to_string()], ", "),
        "a, b"
    );
}

#[test]
fn test_contains_str() {
    let v = vec!["alpha".to_string(), "beta".to_string()];
    assert!(contains_str(&v, "beta"));
    assert!(!contains_str(&v, "gamma"));
}

#[test]
fn test_match_names() {
    let rules = Rules::from(vec![
        Rule {
            name: "AI".to_string(),
            description: "ai things".to_string(),
            path: RemotePath("/out/ai".to_string()),
        },
        Rule {
            name: "PL".to_string(),
            description: "pl things".to_string(),
            path: RemotePath("/out/pl".to_string()),
        },
    ]);
    let matched = rules.match_names(&vec!["PL".to_string(), "Nonsense".to_string()]);
    assert_eq!(matched.len(), 1);
    assert_eq!(matched[0].name, "PL");
    // A repeated name still selects the rule once.
    let matched = rules.match_names(&vec!["AI".to_string(), "AI".to_string()]);
    assert_eq!(matched.len(), 1);
    assert_eq!(matched[0].name, "AI");
    // No names, no rules.
    assert_eq!(rules.match_names(&Vec::new()).len(), 0);
}

#[test]
fn test_render_sidecar() {
    let meta = ArticleMetadata {
        title: "A Title".to_string(),
        authors: vec!["Ada".to_string(), "Bob".to_string()],
        summary: OneLineSummary("Short.".to_string()),
        abstract_text: "Long text.".to_string(),
    };
    let s = render_sidecar(&meta);
    assert_eq!(
        s,
        "# A Title\n\n## Authors\nAda, Bob\n\n## Summary\nShort.\n\n## Abstract\nLong text.\n"
    );
}

#[test]
fn test_file_part() {
    assert_eq!(file_part_of("/a/b/c.pdf"), "c.pdf");
    assert_eq!(file_part_of("c.pdf"), "c.pdf");
    assert_eq!(file_part_of("/a/b/"), "");
    assert_eq!(file_part_of(""), "");
}

#[test]
fn test_render_index() {
    let mut storage = sci_librarian::storage::Storage::new();
    storage.upsert_file(
        &DropboxId("id:1".to_string()),
        "a.pdf",
        &sci_librarian::models::FileHash("h1".to_string()),
    );
    storage.apply_result(&sci_librarian::models::JobResult::Success {
        id: DropboxId("id:1".to_string()),
        file_name: None,
        meta: ArticleMetadata {
            title: "A Title".to_string(),
            authors: vec!["Ada".to_string()],
            summary: OneLineSummary("Short.".to_string()),
            abstract_text: "Long.".to_string(),
        },
        target_paths: vec![RemotePath("/out/research/a.pdf".to_string())],
    });
    let files = storage.get_files_in_folder("/out/research");
    let index = render_index(&files);
    assert_eq!(
        index,
        "| Title | Authors | Summary |\n| :--- | :--- | :--- |\n| [A Title](a.pdf) | Ada | Short. |\n"
    );

    // Regenerating the index uploads exactly that table as the folder's
    // readme; a folder with no records uploads nothing.
    let mut dropbox = FakeDropboxClient::new();
    generate_index(&storage, &mut dropbox, "/out/research").unwrap();
    let readme = String::from_utf8(
        dropbox
            .file_bytes(&"/out/research/README.md".to_string())
            .unwrap()
            .clone(),
    )
    .unwrap();
    assert_eq!(readme, index);
    let mut empty_dropbox = FakeDropboxClient::new();
    generate_index(&storage, &mut empty_dropbox, "/nowhere").unwrap();
    assert!(!empty_dropbox.has_file(&"/nowhere/README.md".to_string()));
}
