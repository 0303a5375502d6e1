use ftgrep::cli::{plan_command, Cli, Command, CommandError};
use ftgrep::meta::IndexMode;
use ftgrep::searcher::SortOrder;

fn cli(query: Option<&str>, paths: &[&str]) -> Cli {
    Cli {
        query: query.map(|q| q.to_string()),
        paths: paths.iter().map(|p| p.to_string()).collect(),
        by_line: false,
        by_file: false,
        limit: 100,
        sort: "score".to_string(),
        json: false,
        index: None,
        sync: None,
        list: false,
        info: None,
        index_path: None,
        no_register: false,
        no_index: false,
        include_glob: None,
        exclude_glob: None,
    }
}

#[test]
fn invalid_sort_is_refused_first() {
    let mut c = cli(Some("x"), &[]);
    c.sort = "size".to_string();
    c.list = true;
    match plan_command(&c) {
        Err(CommandError::InvalidSort(s)) => assert_eq!(s, "size"),
        _ => panic!("expected an invalid sort order"),
    }
}

#[test]
fn index_builds_both_modes_with_suffixed_paths() {
    let mut c = cli(Some("/notes"), &["/drafts"]);
    c.index = Some("my-notes".to_string());
    c.index_path = Some("/tmp/idx".to_string());
    match plan_command(&c) {
        Ok(Command::Index { name, dirs, runs }) => {
            assert_eq!(name, "my-notes");
            assert_eq!(dirs, vec!["/notes".to_string(), "/drafts".to_string()]);
            assert_eq!(
                runs,
                vec![
                    (IndexMode::Line, Some("/tmp/idx-line".to_string())),
                    (IndexMode::File, Some("/tmp/idx-file".to_string())),
                ]
            );
        }
        _ => panic!("expected an index command"),
    }
}

#[test]
fn index_one_mode_keeps_the_path() {
    let mut c = cli(Some("/notes"), &[]);
    c.index = Some("n".to_string());
    c.by_file = true;
    c.index_path = Some("/tmp/idx".to_string());
    match plan_command(&c) {
        Ok(Command::Index { runs, .. }) => {
            assert_eq!(runs, vec![(IndexMode::File, Some("/tmp/idx".to_string()))]);
        }
        _ => panic!("expected an index command"),
    }
}

#[test]
fn management_commands_in_order() {
    let mut c = cli(None, &[]);
    c.sync = Some("a".to_string());
    c.info = Some("b".to_string());
    assert!(matches!(plan_command(&c), Ok(Command::Sync { name }) if name == "a"));
    c.sync = None;
    c.list = true;
    assert!(matches!(plan_command(&c), Ok(Command::List)));
    c.list = false;
    assert!(matches!(plan_command(&c), Ok(Command::Info { name }) if name == "b"));
}

#[test]
fn search_refuses_globs_and_needs_a_query() {
    let mut c = cli(Some("x"), &[]);
    c.include_glob = Some("*.md".to_string());
    assert!(matches!(plan_command(&c), Err(CommandError::GlobInSearch)));
    let c = cli(None, &["."]);
    assert!(matches!(plan_command(&c), Err(CommandError::MissingQuery)));
}

#[test]
fn search_mode_follows_the_query() {
    let mut c = cli(Some("filename:notes"), &[]);
    c.sort = "path".to_string();
    match plan_command(&c) {
        Ok(Command::Search { query, mode, sort }) => {
            assert_eq!(query, "filename:notes");
            assert_eq!(mode, IndexMode::File);
            assert_eq!(sort, SortOrder::Path);
        }
        _ => panic!("expected a search"),
    }
    let c = cli(Some("走る"), &[]);
    assert!(matches!(plan_command(&c), Ok(Command::Search { mode: IndexMode::Line, .. })));
}
