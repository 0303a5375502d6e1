use ftgrep::order::{sort_file_results, sort_line_results};
use ftgrep::searcher::{FileResult, LineResult, SortOrder};

fn line(path: &str, n: u64) -> LineResult {
    LineResult { path: path.to_string(), line_number: n, lines: vec![format!("{}:{}", path, n)] }
}

fn shown(rs: &[LineResult]) -> Vec<(String, u64)> {
    rs.iter().map(|r| (r.path.clone(), r.line_number)).collect()
}

#[test]
fn score_order_keeps_the_index_order() {
    let rs = vec![line("b", 2), line("a", 9), line("b", 1)];
    let out = sort_line_results(rs, SortOrder::Score, &vec![5, 6, 7]);
    assert_eq!(shown(&out), vec![("b".to_string(), 2), ("a".to_string(), 9), ("b".to_string(), 1)]);
}

#[test]
fn path_order_sorts_by_path_then_line() {
    let rs = vec![line("b", 2), line("a", 9), line("b", 1), line("a", 3)];
    let out = sort_line_results(rs, SortOrder::Path, &vec![0, 0, 0, 0]);
    assert_eq!(
        shown(&out),
        vec![("a".to_string(), 3), ("a".to_string(), 9), ("b".to_string(), 1), ("b".to_string(), 2)]
    );
}

#[test]
fn mtime_order_puts_newest_first() {
    let rs = vec![line("old", 1), line("new", 1), line("mid", 4), line("mid", 2)];
    let out = sort_line_results(rs, SortOrder::Mtime, &vec![10, 30, 20, 20]);
    assert_eq!(
        shown(&out),
        vec![("new".to_string(), 1), ("mid".to_string(), 2), ("mid".to_string(), 4), ("old".to_string(), 1)]
    );
}

#[test]
fn file_results_sort_by_path() {
    let rs = vec![
        FileResult { path: "z.md".to_string(), snippets: vec![] },
        FileResult { path: "a.md".to_string(), snippets: vec![] },
    ];
    let out = sort_file_results(rs, SortOrder::Path, &vec![1, 2]);
    assert_eq!(out.iter().map(|r| r.path.clone()).collect::<Vec<_>>(), vec!["a.md", "z.md"]);
}
