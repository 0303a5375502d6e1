use ftgrep::meta::IndexMode;
use ftgrep::searcher::{
    extract_snippet, file_snippet, frontmatter_snippet, logical_to_physical, plan_query,
    query_implies_file_mode, query_targets_filename, query_targets_frontmatter, rewrite_query,
    scan_field_qualifiers, QueryPlan, SortOrder,
};

#[test]
fn test_sort_order_parse() {
    assert_eq!(SortOrder::parse("score"), Some(SortOrder::Score));
    assert_eq!(SortOrder::parse("path"), Some(SortOrder::Path));
    assert_eq!(SortOrder::parse("mtime"), Some(SortOrder::Mtime));
    assert_eq!(SortOrder::parse("invalid"), None);
}

#[test]
fn sort_order_parse_is_exact() {
    assert_eq!(SortOrder::parse("Score"), None);
    assert_eq!(SortOrder::parse(" score"), None);
    assert_eq!(SortOrder::parse(""), None);
}

#[test]
fn scan_finds_frontmatter_and_filename_qualifiers() {
    assert_eq!(scan_field_qualifiers("frontmatter.author:taro"), (true, false));
    assert_eq!(scan_field_qualifiers("filename:notes"), (false, true));
    assert_eq!(scan_field_qualifiers("+filename:a -frontmatter.tag:b"), (true, true));
    assert_eq!(scan_field_qualifiers("plain words only"), (false, false));
    // A value that looks like a qualifier is not one.
    assert_eq!(scan_field_qualifiers("body:filename:x"), (false, false));
    // The field name must start the token.
    assert_eq!(scan_field_qualifiers("(filename:x)"), (false, false));
    assert_eq!(scan_field_qualifiers(":filename"), (false, false));
}

#[test]
fn targets_follow_the_scan() {
    assert!(query_targets_frontmatter("frontmatter.author:テスト太郎"));
    assert!(!query_targets_frontmatter("frontmatter:x"));
    assert!(query_targets_filename("foo filename:bar"));
    assert!(!query_targets_filename("filenames:bar"));
}

#[test]
fn file_mode_is_implied_by_file_fields() {
    assert!(query_implies_file_mode("filename:readme"));
    assert!(query_implies_file_mode("rust frontmatter.title:intro"));
    assert!(!query_implies_file_mode("body:rust"));
    assert!(!query_implies_file_mode("rust"));
    // Non-ASCII letters are field characters too.
    assert!(!query_implies_file_mode("ファイル:名前"));
}

#[test]
fn logical_fields_map_to_physical_pairs() {
    assert_eq!(logical_to_physical("body"), Some(("body_japanese", "body_bigram")));
    assert_eq!(logical_to_physical("filename"), Some(("filename", "filename_bigram")));
    assert_eq!(logical_to_physical("frontmatter.author"), None);
    assert_eq!(logical_to_physical("path"), None);
}

#[test]
fn rewrite_expands_field_names() {
    assert_eq!(rewrite_query("body:rust"), ("body_japanese:rust".to_string(), "body_bigram:rust".to_string()));
    assert_eq!(
        rewrite_query("+filename:notes search"),
        ("+filename:notes search".to_string(), "+filename_bigram:notes search".to_string())
    );
    assert_eq!(
        rewrite_query("frontmatter.author:taro"),
        ("frontmatter.author:taro".to_string(), "frontmatter_bigram.author:taro".to_string())
    );
    assert_eq!(rewrite_query("path:x a:b:c"), ("path:x a:b:c".to_string(), "path:x a:b:c".to_string()));
}

#[test]
fn rewrite_copies_other_characters() {
    assert_eq!(
        rewrite_query("body:\"full text\""),
        ("body_japanese:\"full text\"".to_string(), "body_bigram:\"full text\"".to_string())
    );
    assert_eq!(rewrite_query("a::b"), ("a::b".to_string(), "a::b".to_string()));
    assert_eq!(
        rewrite_query("(body:x) *"),
        ("(body_japanese:x) *".to_string(), "(body_bigram:x) *".to_string())
    );
}

#[test]
fn plan_line_mode_keeps_query() {
    match plan_query("rust", IndexMode::Line, &vec![]) {
        QueryPlan::Line { query } => assert_eq!(query, "rust"),
        _ => panic!("expected a line plan"),
    }
}

#[test]
fn plan_file_mode_plain_query_covers_frontmatter_keys() {
    let keys = vec!["title".to_string(), "author".to_string()];
    match plan_query("Rust", IndexMode::File, &keys) {
        QueryPlan::FilePlain { query, frontmatter_queries } => {
            assert_eq!(query, "Rust");
            assert_eq!(
                frontmatter_queries,
                vec![
                    ("frontmatter.title:(Rust)".to_string(), "frontmatter_bigram.title:(Rust)".to_string()),
                    ("frontmatter.author:(Rust)".to_string(), "frontmatter_bigram.author:(Rust)".to_string()),
                ]
            );
        }
        _ => panic!("expected a plain file plan"),
    }
}

#[test]
fn plan_file_mode_qualified_queries() {
    match plan_query("frontmatter.author:taro", IndexMode::File, &vec![]) {
        QueryPlan::FileBigram { bigram_query } => {
            assert_eq!(bigram_query, "frontmatter_bigram.author:taro")
        }
        _ => panic!("expected a bigram-only plan"),
    }
    match plan_query("body:rust", IndexMode::File, &vec![]) {
        QueryPlan::FileQualified { japanese_query, bigram_query } => {
            assert_eq!(japanese_query, "body_japanese:rust");
            assert_eq!(bigram_query, "body_bigram:rust");
        }
        _ => panic!("expected a qualified plan"),
    }
    match plan_query("body:\"x\"", IndexMode::File, &vec![]) {
        QueryPlan::FileQualified { japanese_query, bigram_query } => {
            assert_eq!(japanese_query, "body_japanese:\"x\"");
            assert_eq!(bigram_query, "body_bigram:\"x\"");
        }
        _ => panic!("expected a qualified plan"),
    }
}

#[test]
fn frontmatter_snippet_puts_target_key_first() {
    let pairs = vec![
        ("author".to_string(), "テスト太郎".to_string()),
        ("title".to_string(), "Rust入門".to_string()),
    ];
    assert_eq!(
        frontmatter_snippet(&pairs, "frontmatter.title:Rust"),
        "title:Rust入門  author:テスト太郎"
    );
    assert_eq!(frontmatter_snippet(&pairs, "rust"), "author:テスト太郎  title:Rust入門");
    assert_eq!(frontmatter_snippet(&vec![], "frontmatter.title:x"), "");
}

#[test]
fn snippet_of_short_body_is_whole_body() {
    assert_eq!(extract_snippet("short body text", "body"), "short body text");
    assert_eq!(extract_snippet("", "x"), "");
}

#[test]
fn snippet_window_starts_forty_chars_before_match() {
    let body = format!("{}needle{}", "a".repeat(100), "b".repeat(200));
    let s = extract_snippet(&body, "needle");
    let expected = format!("…{}needle{}…", "a".repeat(40), "b".repeat(74));
    assert_eq!(s, expected);
}

#[test]
fn snippet_without_match_starts_at_beginning() {
    let body = "x".repeat(130);
    let s = extract_snippet(&body, "zzz");
    assert_eq!(s, format!("{}…", "x".repeat(120)));
}

#[test]
fn snippet_match_uses_normalization() {
    let body = format!("{}モデルの評価", "い".repeat(50));
    let s = extract_snippet(&body, "もでる");
    assert_eq!(s, format!("…{}モデルの評価", "い".repeat(40)));
}

#[test]
fn file_snippet_chooses_its_source() {
    let pairs = vec![("author".to_string(), "taro".to_string())];
    assert_eq!(file_snippet("frontmatter.author:taro", &pairs, Some("body"), Some("a.md")), "author:taro");
    assert_eq!(file_snippet("frontmatter.author:taro", &vec![], Some("the body"), Some("a.md")), "the body");
    assert_eq!(file_snippet("filename:a", &pairs, Some("the body"), Some("a.md")), "a.md");
    assert_eq!(file_snippet("filename:a", &pairs, Some("the body"), None), "");
    assert_eq!(file_snippet("body", &pairs, Some("the body"), Some("a.md")), "the body");
    assert_eq!(file_snippet("body", &pairs, None, Some("a.md")), "");
}
