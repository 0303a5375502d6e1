use ftgrep::dispatch::{
    display_dirs, index_modes, list_entries, list_shows, mode_filter, plan_index, search_mode, select_index, sync_modes,
    IndexAction, IndexError, IndexOptions,
};
use ftgrep::meta::{IndexMeta, IndexMode, SyncTime};
use ftgrep::registry::{Registry, RegistryError};

fn path(parts: &[&str]) -> Vec<String> {
    parts.iter().map(|s| s.to_string()).collect()
}

#[test]
fn mode_text() {
    assert_eq!(IndexMode::Line.as_str(), "line");
    assert_eq!(IndexMode::File.as_str(), "file");
}

#[test]
fn add_dir_registers_once() {
    let mut meta = IndexMeta::new(IndexMode::File);
    assert!(meta.add_dir(path(&["/", "home", "notes"])));
    assert!(!meta.add_dir(path(&["/", "home", "notes"])));
    assert!(meta.add_dir(path(&["/", "home", "drafts"])));
    assert_eq!(meta.dirs.len(), 2);
}

#[test]
fn touch_sync_sets_time() {
    let mut meta = IndexMeta::new(IndexMode::Line);
    assert!(meta.last_sync.is_none());
    meta.touch_sync();
    assert!(meta.last_sync.unwrap().secs > 1_600_000_000);
}

#[test]
fn frontmatter_keys_are_a_set() {
    let mut meta = IndexMeta::new(IndexMode::File);
    meta.add_frontmatter_key("title".to_string());
    meta.add_frontmatter_key("author".to_string());
    meta.add_frontmatter_key("title".to_string());
    assert_eq!(meta.frontmatter_keys, vec!["title".to_string(), "author".to_string()]);
}

#[test]
fn registry_resolves_registered_names_and_paths() {
    let mut reg = Registry::default();
    reg.register("my-notes", "/data/line/my-notes");
    assert_eq!(reg.resolve("my-notes").unwrap(), "/data/line/my-notes");
    reg.register("my-notes", "/elsewhere");
    assert_eq!(reg.resolve("my-notes").unwrap(), "/elsewhere");
    assert_eq!(reg.indices.len(), 1);
    assert_eq!(reg.resolve("/abs/index").unwrap(), "/abs/index");
    assert_eq!(reg.resolve("./rel").unwrap(), "./rel");
    match reg.resolve("missing") {
        Err(RegistryError::NotFound(n)) => assert_eq!(n, "missing"),
        Ok(_) => panic!("expected an error"),
    }
}

#[test]
fn search_mode_choice() {
    assert_eq!(search_mode(true, false, Some("x")), IndexMode::File);
    assert_eq!(search_mode(false, true, Some("filename:x")), IndexMode::Line);
    assert_eq!(search_mode(false, false, Some("filename:x")), IndexMode::File);
    assert_eq!(search_mode(false, false, Some("frontmatter.author:テスト太郎")), IndexMode::File);
    assert_eq!(search_mode(false, false, Some("rust")), IndexMode::Line);
    assert_eq!(search_mode(false, false, None), IndexMode::Line);
}

#[test]
fn modes_of_index_commands() {
    assert_eq!(index_modes(false, false), vec![IndexMode::Line, IndexMode::File]);
    assert_eq!(index_modes(true, false), vec![IndexMode::Line]);
    assert_eq!(index_modes(false, true), vec![IndexMode::File]);
    assert_eq!(index_modes(true, true), vec![IndexMode::File]);
    assert_eq!(sync_modes(true, true), vec![IndexMode::Line, IndexMode::File]);
    assert_eq!(sync_modes(false, true), vec![IndexMode::File]);
    assert_eq!(mode_filter(true, false), Some(IndexMode::Line));
    assert_eq!(mode_filter(false, false), None);
}

fn options(name: &str, dirs: Vec<Vec<String>>, mode: IndexMode) -> IndexOptions {
    IndexOptions {
        name: name.to_string(),
        dirs,
        mode,
        index_path: None,
        no_register: false,
        no_index: false,
        include_glob: Some("**/*.md".to_string()),
        exclude_glob: None,
    }
}

#[test]
fn plan_index_adds_dirs_and_chooses_action() {
    let mut meta = IndexMeta::new(IndexMode::Line);
    let plan = plan_index(options("notes", vec![path(&["/", "a"]), path(&["/", "a"])], IndexMode::Line), &mut meta)
        .unwrap();
    assert_eq!(plan.added, vec![true, false]);
    assert!(plan.register);
    assert_eq!(plan.action, IndexAction::Build);
    assert_eq!(meta.include_glob, Some("**/*.md".to_string()));
    meta.record_file("/a/x.md".to_string(), 1);
    let plan = plan_index(options("./local", vec![path(&["/", "a"])], IndexMode::Line), &mut meta).unwrap();
    assert_eq!(plan.added, vec![false]);
    assert!(!plan.register);
    assert_eq!(plan.action, IndexAction::Sync);
}

#[test]
fn plan_index_errors() {
    let mut meta = IndexMeta::new(IndexMode::Line);
    assert!(matches!(plan_index(options("n", vec![], IndexMode::Line), &mut meta), Err(IndexError::NoDirectories)));
    match plan_index(options("n", vec![path(&["/", "a"])], IndexMode::File), &mut meta) {
        Err(IndexError::ModeMismatch { existing, requested }) => {
            assert_eq!(existing, IndexMode::Line);
            assert_eq!(requested, IndexMode::File);
        }
        _ => panic!("expected a mode mismatch"),
    }
    assert!(meta.dirs.is_empty());
    assert_eq!(meta.include_glob, None);
}

fn candidate(dir: &[&str], mode: IndexMode, dirs: Vec<Vec<String>>, sync: Option<i64>) -> (Vec<String>, IndexMeta) {
    let mut meta = IndexMeta::new(mode);
    for d in dirs {
        meta.add_dir(d);
    }
    meta.last_sync = sync.map(|s| SyncTime { secs: s, nanos: 0 });
    (path(dir), meta)
}

#[test]
fn select_index_prefers_smallest_then_newest_then_path() {
    let targets = vec![path(&["/", "home", "notes", "sub"])];
    let cands = vec![
        candidate(&["/", "idx", "wrong-mode"], IndexMode::File, vec![path(&["/", "home"])], Some(5)),
        candidate(&["/", "idx", "big"], IndexMode::Line, vec![path(&["/", "home"]), path(&["/", "tmp"])], Some(9)),
        candidate(&["/", "idx", "old"], IndexMode::Line, vec![path(&["/", "home", "notes"])], Some(1)),
        candidate(&["/", "idx", "new"], IndexMode::Line, vec![path(&["/", "home"])], Some(3)),
        candidate(&["/", "idx", "other"], IndexMode::Line, vec![path(&["/", "var"])], Some(9)),
    ];
    assert_eq!(select_index(&cands, &targets, IndexMode::Line), Some(3));
    let tie = vec![
        candidate(&["/", "idx", "b"], IndexMode::Line, vec![path(&["/", "home"])], Some(3)),
        candidate(&["/", "idx", "a"], IndexMode::Line, vec![path(&["/", "home"])], Some(3)),
    ];
    assert_eq!(select_index(&tie, &targets, IndexMode::Line), Some(1));
    assert_eq!(select_index(&cands, &vec![path(&["/", "elsewhere"])], IndexMode::Line), None);
    // A directory is not within a sibling that merely shares a name prefix.
    let sib = vec![candidate(&["/", "i"], IndexMode::Line, vec![path(&["/", "home", "not"])], None)];
    assert_eq!(select_index(&sib, &targets, IndexMode::Line), None);
}

#[test]
fn list_shows_home_as_tilde() {
    let dirs = vec!["/home/u/notes".to_string(), "/srv/docs".to_string()];
    assert_eq!(display_dirs(&dirs, "/home/u"), "~/notes, /srv/docs");
    assert_eq!(display_dirs(&dirs, ""), "/home/u/notes, /srv/docs");
    assert_eq!(display_dirs(&vec![], "/home/u"), "");
}

#[test]
fn list_rows_in_name_order() {
    let registry = Registry {
        indices: vec![
            ("notes".to_string(), "/i/notes".to_string()),
            ("docs".to_string(), "/i/docs".to_string()),
            ("Zeta".to_string(), "/i/zeta".to_string()),
            ("docs2".to_string(), "/i/docs2".to_string()),
        ],
    };
    let names: Vec<String> = list_entries(&registry).into_iter().map(|e| e.0).collect();
    assert_eq!(names, vec!["Zeta", "docs", "docs2", "notes"]);
}

#[test]
fn list_shows_by_mode_filter() {
    assert!(list_shows(None, Some(IndexMode::File)));
    assert!(list_shows(Some(IndexMode::Line), None));
    assert!(list_shows(Some(IndexMode::File), Some(IndexMode::File)));
    assert!(!list_shows(Some(IndexMode::Line), Some(IndexMode::File)));
}

#[test]
fn registry_and_index_locations() {
    let home = Some(path(&["/", "home", "u"]));
    assert_eq!(
        ftgrep::registry::registry_path(None, home.clone()),
        path(&["/", "home", "u", ".config", "ftgrep", "registry.json"])
    );
    assert_eq!(
        ftgrep::registry::registry_path(Some(path(&["/", "cfg"])), home.clone()),
        path(&["/", "cfg", "ftgrep", "registry.json"])
    );
    assert_eq!(
        ftgrep::registry::default_index_path(None, home, "my-notes", true),
        path(&["/", "home", "u", ".local", "share", "ftgrep", "indices", "file", "my-notes"])
    );
    assert_eq!(
        ftgrep::registry::default_index_path(None, None, "n", false),
        path(&["/", "tmp", ".local", "share", "ftgrep", "indices", "line", "n"])
    );
}

#[test]
fn sync_visits_both_default_directories_of_a_name() {
    let home = Some(path(&["/", "h"]));
    let file_dir = path(&["/", "h", ".local", "share", "ftgrep", "indices", "file", "n"]);
    let line_dir = path(&["/", "h", ".local", "share", "ftgrep", "indices", "line", "n"]);
    assert_eq!(
        ftgrep::dispatch::sync_dirs(&file_dir, "n", IndexMode::Line, None, home.clone()),
        vec![file_dir.clone(), line_dir.clone()]
    );
    assert_eq!(ftgrep::dispatch::sync_dirs(&file_dir, "n", IndexMode::File, None, home.clone()), vec![file_dir.clone()]);
    let custom = path(&["/", "idx"]);
    assert_eq!(ftgrep::dispatch::sync_dirs(&custom, "./idx", IndexMode::Line, None, home), vec![custom.clone()]);
}
