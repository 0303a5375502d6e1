use ftgrep::indexer::{
    frontmatter_pairs, glob_match, line_documents, looks_binary, matches_patterns,
    parse_frontmatter, plan_sync, strip_frontmatter, sync_metadata,
};
use ftgrep::meta::{IndexMeta, IndexMode};

#[test]
fn test_glob_match_star() {
    assert!(glob_match("*.rs", "main.rs"));
    assert!(!glob_match("*.rs", "main.txt"));
    assert!(!glob_match("*.rs", "src/main.rs"));
}

#[test]
fn test_glob_match_double_star() {
    assert!(glob_match("**/*.rs", "src/main.rs"));
    assert!(glob_match("**/*.rs", "a/b/c/main.rs"));
    assert!(!glob_match("**/*.rs", "a/b/c/main.txt"));
}

#[test]
fn test_glob_match_exact() {
    assert!(glob_match("Cargo.toml", "Cargo.toml"));
    assert!(!glob_match("Cargo.toml", "Cargo.lock"));
}

#[test]
fn glob_edge_cases() {
    assert!(glob_match("", ""));
    assert!(!glob_match("", "a"));
    assert!(glob_match("*", ""));
    assert!(glob_match("**", "a/b/c"));
    assert!(!glob_match("*", "a/b"));
    assert!(glob_match("target/**", "target/debug/x"));
    assert!(!glob_match("target/**", "src/target/x"));
}

#[test]
fn patterns_include_and_exclude() {
    assert!(matches_patterns("/home/u/notes/a.md", Some("**/*.md"), None));
    assert!(!matches_patterns("/home/u/notes/a.txt", Some("**/*.md"), None));
    assert!(!matches_patterns("/home/u/notes/a.md", None, Some("**/*.md")));
    assert!(matches_patterns("/home/u/notes/a.txt", None, Some("**/*.md")));
    assert!(matches_patterns("anything", None, None));
}

#[test]
fn test_strip_frontmatter() {
    let content = "---\ntitle: Test\n---\nBody text here.";
    let body = strip_frontmatter(content);
    assert!(body.contains("Body text here."));
    assert!(!body.contains("title: Test"));
}

#[test]
fn test_strip_frontmatter_no_frontmatter() {
    let content = "No frontmatter here.";
    assert_eq!(strip_frontmatter(content), content);
}

#[test]
fn strip_frontmatter_exact_results() {
    assert_eq!(strip_frontmatter("---\ntitle: Test\n---\nBody"), "\nBody");
    assert_eq!(strip_frontmatter("---\nno closing line"), "---\nno closing line");
    assert_eq!(strip_frontmatter("---\n---"), "");
    assert_eq!(strip_frontmatter("--"), "--");
}

#[test]
fn frontmatter_lines_become_pairs() {
    let pairs = frontmatter_pairs("\ntitle: 開発メモ\ndate: 2026-01-01\nnot a pair\n: empty key\ncategory: dev\r\ntitle: again");
    assert_eq!(
        pairs,
        vec![
            ("title".to_string(), "again".to_string()),
            ("date".to_string(), "2026-01-01".to_string()),
            ("category".to_string(), "dev".to_string()),
        ]
    );
}

#[test]
fn parse_frontmatter_splits_pairs_and_body() {
    let (pairs, body) = parse_frontmatter("---\ntitle: Test\nauthor: テスト太郎\n---\nBody text.");
    assert_eq!(
        pairs,
        vec![("title".to_string(), "Test".to_string()), ("author".to_string(), "テスト太郎".to_string())]
    );
    assert_eq!(body, "\nBody text.");
    let (pairs, body) = parse_frontmatter("plain text");
    assert!(pairs.is_empty());
    assert_eq!(body, "plain text");
}

#[test]
fn line_documents_skip_blank_lines_and_frontmatter() {
    let docs = line_documents("---\ntitle: t\n---\nfirst line\n\n  second line  \r\n");
    assert_eq!(docs, vec![(4, "first line".to_string()), (6, "second line".to_string())]);
    assert_eq!(line_documents("---\na: b\n---\nhello\n"), vec![(4, "hello".to_string())]);
    let docs = line_documents("Rustはシステム言語です。\nメモリ安全性があります。");
    assert_eq!(
        docs,
        vec![(1, "Rustはシステム言語です。".to_string()), (2, "メモリ安全性があります。".to_string())]
    );
    assert!(line_documents("").is_empty());
}

#[test]
fn nul_byte_marks_binary() {
    assert!(looks_binary(&[0x41, 0x00, 0x42]));
    assert!(!looks_binary(b"plain text"));
    assert!(!looks_binary(&[]));
}

#[test]
fn sync_plan_finds_deleted_and_changed_files() {
    let mut meta = IndexMeta::new(IndexMode::Line);
    meta.record_file("/d/keep.txt".to_string(), 10);
    meta.record_file("/d/changed.txt".to_string(), 20);
    meta.record_file("/d/gone.txt".to_string(), 30);
    let current = vec![
        ("/d/keep.txt".to_string(), 10),
        ("/d/changed.txt".to_string(), 21),
        ("/d/new.txt".to_string(), 5),
    ];
    let plan = plan_sync(&meta, &current);
    assert_eq!(plan.deleted, vec!["/d/gone.txt".to_string()]);
    assert_eq!(plan.to_update, vec!["/d/changed.txt".to_string(), "/d/new.txt".to_string()]);
    // Applying the plan gives the disk state.
    for p in &plan.deleted {
        meta.remove_file(p);
    }
    for (p, t) in &current {
        if plan.to_update.contains(p) {
            meta.record_file(p.clone(), *t);
        }
    }
    for (p, t) in &current {
        assert_eq!(meta.recorded_mtime(p), Some(*t));
    }
    assert_eq!(meta.doc_count(), 3);
    assert_eq!(meta.recorded_mtime(&"/d/gone.txt".to_string()), None);
}

#[test]
fn file_body_is_line_body() {
    for c in [
        "---\ntitle: t\n---\nbody\nmore",
        "---\nno closing block",
        "plain text",
        "---\n---",
        "",
    ] {
        assert_eq!(parse_frontmatter(c).1, strip_frontmatter(c));
    }
}

#[test]
fn line_numbers_increase_and_lines_are_not_blank() {
    let docs = line_documents("a\n \n\tb\n\nc\n   ");
    assert_eq!(docs.iter().map(|d| d.0).collect::<Vec<_>>(), vec![1, 3, 5]);
    assert!(docs.iter().all(|d| !d.1.is_empty()));
}

#[test]
fn sync_metadata_matches_the_disk() {
    let mut meta = IndexMeta::new(IndexMode::File);
    meta.record_file("/d/keep.txt".to_string(), 10);
    meta.record_file("/d/changed.txt".to_string(), 20);
    meta.record_file("/d/gone.txt".to_string(), 30);
    let current = vec![
        ("/d/new.txt".to_string(), 5),
        ("/d/keep.txt".to_string(), 10),
        ("/d/changed.txt".to_string(), 21),
    ];
    let plan = sync_metadata(&mut meta, &current);
    assert_eq!(plan.deleted, vec!["/d/gone.txt".to_string()]);
    assert_eq!(plan.to_update, vec!["/d/new.txt".to_string(), "/d/changed.txt".to_string()]);
    for (p, t) in &current {
        assert_eq!(meta.recorded_mtime(p), Some(*t));
    }
    assert_eq!(meta.doc_count(), 3);
    assert_eq!(meta.recorded_mtime(&"/d/gone.txt".to_string()), None);
    assert!(meta.last_sync.is_some());
    assert_eq!(meta.mode, IndexMode::File);
}
