use ftgrep::highlight::{highlight, highlight_with_tokens, japanese_query_tokens, known_tokens, strip_query_syntax};
use ftgrep::japanese::{finish_token_texts, ipadic_stop_tags, JapaneseAnalyzer};

const RED: &str = "\x1b[1;31m";
const RESET: &str = "\x1b[0m";

#[test]
fn strip_query_syntax_removes_operators_fields_and_quotes() {
    assert_eq!(strip_query_syntax("+rust"), "rust");
    assert_eq!(strip_query_syntax("-+-rust"), "rust");
    assert_eq!(strip_query_syntax("frontmatter.author:foo"), "foo");
    assert_eq!(strip_query_syntax("filename:\"bar baz\""), "bar baz");
    // Quotes are stripped before white space, so surrounding blanks keep them.
    assert_eq!(strip_query_syntax("  \" spaced \"  "), "\" spaced \"");
    assert_eq!(strip_query_syntax("\" spaced \""), "spaced");
    assert_eq!(strip_query_syntax("a:b:c"), "b:c");
    assert_eq!(strip_query_syntax(""), "");
}

#[test]
fn substring_match_is_highlighted() {
    let out = highlight_with_tokens("full-text search engine", &vec![], &vec![], "search");
    assert_eq!(out, format!("full-text {}search{} engine", RED, RESET));
}

#[test]
fn every_occurrence_is_highlighted_and_touching_regions_merge() {
    let out = highlight_with_tokens("abab", &vec![], &vec![], "ab");
    assert_eq!(out, format!("{}abab{}", RED, RESET));
    let out = highlight_with_tokens("ab ab", &vec![], &vec![], "ab");
    assert_eq!(out, format!("{}ab{} {}ab{}", RED, RESET, RED, RESET));
}

#[test]
fn normalized_query_highlights_original_surface() {
    let out = highlight_with_tokens("モデルの評価を行います。", &vec![], &vec![], "もでる");
    assert_eq!(out, format!("{}モデル{}の評価を行います。", RED, RESET));
    let out = highlight_with_tokens("ＲＵＳＴ rocks", &vec![], &vec![], "rust");
    assert_eq!(out, format!("{}ＲＵＳＴ{} rocks", RED, RESET));
}

#[test]
fn token_regions_use_byte_offsets() {
    // "猫が走っていた。": 走って starts at byte 6 (猫 and が are 3 bytes each).
    let line = "猫が走っていた。";
    let toks = vec!["走る".to_string()];
    let line_tokens = vec![("猫".to_string(), 0, 3), ("走る".to_string(), 6, 12)];
    let out = highlight_with_tokens(line, &toks, &line_tokens, "走る");
    assert_eq!(out, format!("猫が{}走っ{}ていた。", RED, RESET));
}

#[test]
fn token_regions_off_char_boundaries_are_ignored() {
    let line = "猫が走る";
    let toks = vec!["x".to_string()];
    let line_tokens = vec![("x".to_string(), 1, 3), ("x".to_string(), 6, 3)];
    let out = highlight_with_tokens(line, &toks, &line_tokens, "");
    assert_eq!(out, "猫が走る");
}

#[test]
fn no_match_leaves_line_unchanged() {
    assert_eq!(highlight_with_tokens("nothing here", &vec![], &vec![], "zzz"), "nothing here");
}

#[test]
fn highlight_without_color_returns_line() {
    if let Some(mut analyzer) = JapaneseAnalyzer::new() {
        let toks = vec!["search".to_string()];
        assert_eq!(highlight("full-text search", &toks, "search", &mut analyzer, false), "full-text search");
    }
}

#[test]
fn analyzer_token_texts_are_normalized_and_lowercased() {
    let raw = vec![("Rust".to_string(), 0, 4), ("コンピューター".to_string(), 5, 26), ("ＡＢＣ".to_string(), 26, 35)];
    assert_eq!(
        finish_token_texts(raw),
        vec![("rust".to_string(), 0, 4), ("こんぴゅた".to_string(), 5, 26), ("abc".to_string(), 26, 35)]
    );
}

#[test]
fn highlight_with_analyzer_tokens() {
    let line_tokens = finish_token_texts(vec![("full".to_string(), 0, 4), ("TEXT".to_string(), 5, 9)]);
    let out = highlight_with_tokens("full-text search", &vec!["text".to_string()], &line_tokens, "zzz");
    assert_eq!(out, format!("full-{}text{} search", RED, RESET));
}

#[test]
fn query_tokens_come_from_the_analyzer() {
    if let Some(mut analyzer) = JapaneseAnalyzer::new() {
        let toks = japanese_query_tokens(&mut analyzer, "走っていた");
        assert!(toks.contains(&"走る".to_string()));
        let out = highlight("彼は走っていた", &toks, "走っていた", &mut analyzer, true);
        assert!(out.contains(RED));
    }
}

#[test]
fn ipadic_stop_tags_list_function_words() {
    let tags = ipadic_stop_tags();
    assert_eq!(tags.len(), 25);
    assert!(tags.contains(&"助詞".to_string()));
    assert!(tags.contains(&"記号,句点".to_string()));
}

#[test]
fn unknown_word_tokens_are_dropped() {
    let tokens = vec![
        ("走る".to_string(), 0, 6),
        ("*".to_string(), 6, 9),
        ("**".to_string(), 9, 12),
    ];
    assert_eq!(known_tokens(tokens), vec!["走る".to_string(), "**".to_string()]);
}
