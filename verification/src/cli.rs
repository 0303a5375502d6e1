//! The command line as the library reads it, and what a command line asks
//! for: an index management command or a search.
use vstd::prelude::*;

use crate::dispatch::{index_modes, search_mode, spec_search_mode};
use crate::meta::IndexMode;
use crate::searcher::{spec_sort_order, SortOrder};
use crate::text::{chars_of, push_str, string_from_chars};

verus! {

/// The options and arguments of the command line.
pub struct Cli {
    /// The query; in management mode, the first directory.
    pub query: Option<String>,
    /// Files or directories to search (or further directories to index).
    pub paths: Vec<String>,
    pub by_line: bool,
    pub by_file: bool,
    /// Maximum number of results.
    pub limit: usize,
    /// Sort order: `score`, `path` or `mtime`.
    pub sort: String,
    pub json: bool,
    /// `--index <name>`.
    pub index: Option<String>,
    /// `--sync <name>`.
    pub sync: Option<String>,
    /// `--list`.
    pub list: bool,
    /// `--info <name>`.
    pub info: Option<String>,
    /// `--index-path`.
    pub index_path: Option<String>,
    pub no_register: bool,
    pub no_index: bool,
    /// The glob pattern that indexed files must match.
    pub include_glob: Option<String>,
    /// The glob pattern that indexed files must not match.
    pub exclude_glob: Option<String>,
}

/// What a command line asks for.
pub enum Command {
    /// `--index`: the directories as given, and for each mode to build, the
    /// index path asked for (suffixed with the mode when both are built).
    Index { name: String, dirs: Vec<String>, runs: Vec<(IndexMode, Option<String>)> },
    Sync { name: String },
    List,
    Info { name: String },
    /// A search for `query` in `mode`.
    Search { query: String, mode: IndexMode, sort: SortOrder },
}

/// Why a command line is refused.
#[derive(Debug)]
pub enum CommandError {
    /// `--sort` names no sort order.
    InvalidSort(String),
    /// `--include` or `--exclude` given with a search.
    GlobInSearch,
    /// A search without a query.
    MissingQuery,
}

pub open spec fn opt_string_view(o: Option<String>) -> Option<Seq<char>> {
    match o {
        Some(s) => Some(s@),
        None => None,
    }
}

pub open spec fn strings_view(v: Seq<String>) -> Seq<Seq<char>> {
    v.map_values(|s: String| s@)
}

/// The modes that `--index` builds (see `index_modes`).
pub open spec fn spec_index_modes(by_line: bool, by_file: bool) -> Seq<IndexMode> {
    if by_file {
        seq![IndexMode::File]
    } else if by_line {
        seq![IndexMode::Line]
    } else {
        seq![IndexMode::Line, IndexMode::File]
    }
}

/// `line` or `file`.
pub open spec fn mode_name(m: IndexMode) -> Seq<char> {
    match m {
        IndexMode::Line => "line"@,
        IndexMode::File => "file"@,
    }
}

/// The index path of one mode: the path asked for, followed by `-` and the
/// mode's name when several modes are built.
pub open spec fn run_path(p: Option<Seq<char>>, m: IndexMode, several: bool) -> Option<Seq<char>> {
    match p {
        Some(p) => Some(
            if several {
                p + "-"@ + mode_name(m)
            } else {
                p
            },
        ),
        None => None,
    }
}

/// The runs of `--index`: each mode to build with its index path.
pub open spec fn spec_index_runs(by_line: bool, by_file: bool, p: Option<Seq<char>>) -> Seq<
    (IndexMode, Option<Seq<char>>),
> {
    let ms = spec_index_modes(by_line, by_file);
    ms.map_values(|m: IndexMode| (m, run_path(p, m, ms.len() > 1)))
}

pub open spec fn runs_view(v: Seq<(IndexMode, Option<String>)>) -> Seq<(IndexMode, Option<Seq<char>>)> {
    v.map_values(|r: (IndexMode, Option<String>)| (r.0, opt_string_view(r.1)))
}

/// The directories of `--index`: the first positional argument, then the
/// others.
pub open spec fn spec_index_dirs(query: Option<String>, paths: Seq<String>) -> Seq<Seq<char>> {
    match query {
        Some(q) => seq![q@] + strings_view(paths),
        None => strings_view(paths),
    }
}

/// What the command line asks for: an invalid `--sort` is refused first;
/// then `--index`, `--sync`, `--list` and `--info` are taken in that order;
/// otherwise it is a search, which takes no glob pattern and needs a query.
pub open spec fn command_matches(cli: Cli, r: Result<Command, CommandError>) -> bool {
    match spec_sort_order(cli.sort@) {
        None => r matches Err(CommandError::InvalidSort(s)) && s@ == cli.sort@,
        Some(order) => if cli.index is Some {
            r matches Ok(Command::Index { name, dirs, runs }) && name@ == cli.index->0@
                && strings_view(dirs@) == spec_index_dirs(cli.query, cli.paths@)
                && runs_view(runs@) == spec_index_runs(
                cli.by_line,
                cli.by_file,
                opt_string_view(cli.index_path),
            )
        } else if cli.sync is Some {
            r matches Ok(Command::Sync { name }) && name@ == cli.sync->0@
        } else if cli.list {
            r matches Ok(Command::List)
        } else if cli.info is Some {
            r matches Ok(Command::Info { name }) && name@ == cli.info->0@
        } else if cli.include_glob is Some || cli.exclude_glob is Some {
            r matches Err(CommandError::GlobInSearch)
        } else {
            match cli.query {
                None => r matches Err(CommandError::MissingQuery),
                Some(q) => r matches Ok(Command::Search { query, mode, sort }) && query@ == q@
                    && sort == order && mode == spec_search_mode(cli.by_file, cli.by_line, Some(q@)),
            }
        },
    }
}

fn clone_string(s: &String) -> (r: String)
    ensures
        r@ == s@,
{
    s.clone()
}

fn clone_opt_string(o: &Option<String>) -> (r: Option<String>)
    ensures
        opt_string_view(r) == opt_string_view(*o),
{
    match o {
        Some(s) => Some(clone_string(s)),
        None => None,
    }
}

/// The index path of one mode (see `run_path`).
fn run_path_exec(p: &Option<String>, m: IndexMode, several: bool) -> (r: Option<String>)
    ensures
        opt_string_view(r) == run_path(opt_string_view(*p), m, several),
{
    match p {
        Some(p) => if several {
            let mut out = chars_of(p.as_str());
            push_str(&mut out, "-");
            push_str(&mut out, m.as_str());
            assert(out@ =~= p@ + "-"@ + mode_name(m));
            Some(string_from_chars(&out))
        } else {
            Some(clone_string(p))
        },
        None => None,
    }
}

/// The directories of `--index` (see `spec_index_dirs`).
fn index_dirs(query: &Option<String>, paths: &Vec<String>) -> (dirs: Vec<String>)
    ensures
        strings_view(dirs@) == spec_index_dirs(*query, paths@),
{
    let mut dirs: Vec<String> = Vec::new();
    let ghost head: Seq<Seq<char>> = match query {
        Some(q) => seq![q@],
        None => seq![],
    };
    match query {
        Some(q) => dirs.push(clone_string(q)),
        None => {},
    }
    assert(strings_view(dirs@) =~= head);
    for i in 0..paths.len()
        invariant
            strings_view(dirs@) == head + strings_view(paths@.take(i as int)),
    {
        let ghost before = strings_view(dirs@);
        dirs.push(clone_string(&paths[i]));
        assert(strings_view(dirs@) =~= before.push(paths@[i as int]@));
        assert(strings_view(paths@.take(i as int + 1)) =~= strings_view(paths@.take(i as int)).push(
            paths@[i as int]@,
        ));
    }
    assert(paths@.take(paths.len() as int) == paths@);
    assert(strings_view(dirs@) =~= spec_index_dirs(*query, paths@));
    dirs
}

/// The runs of `--index` (see `spec_index_runs`).
fn index_runs(by_line: bool, by_file: bool, p: &Option<String>) -> (runs: Vec<(IndexMode, Option<String>)>)
    ensures
        runs_view(runs@) == spec_index_runs(by_line, by_file, opt_string_view(*p)),
{
    let modes = index_modes(by_line, by_file);
    let ghost ms = spec_index_modes(by_line, by_file);
    assert(modes@ == ms);
    let several = modes.len() > 1;
    let mut runs: Vec<(IndexMode, Option<String>)> = Vec::new();
    for i in 0..modes.len()
        invariant
            modes@ == ms,
            several == (ms.len() > 1),
            runs_view(runs@) == ms.take(i as int).map_values(
                |m: IndexMode| (m, run_path(opt_string_view(*p), m, ms.len() > 1)),
            ),
    {
        let m = modes[i];
        let ghost before = runs_view(runs@);
        runs.push((m, run_path_exec(p, m, several)));
        assert(runs_view(runs@) =~= before.push((m, run_path(opt_string_view(*p), m, several))));
        assert(ms.take(i as int + 1).map_values(
            |m: IndexMode| (m, run_path(opt_string_view(*p), m, ms.len() > 1)),
        ) =~= ms.take(i as int).map_values(
            |m: IndexMode| (m, run_path(opt_string_view(*p), m, ms.len() > 1)),
        ).push((m, run_path(opt_string_view(*p), m, several))));
    }
    assert(ms.take(modes.len() as int) == ms);
    runs
}

/// Reads what the command line asks for (see `command_matches`).
pub fn plan_command(cli: &Cli) -> (r: Result<Command, CommandError>)
    ensures
        command_matches(*cli, r),
{
    let sort = match SortOrder::parse(cli.sort.as_str()) {
        Some(s) => s,
        None => return Err(CommandError::InvalidSort(clone_string(&cli.sort))),
    };
    match &cli.index {
        Some(name) => {
            return Ok(
                Command::Index {
                    name: clone_string(name),
                    dirs: index_dirs(&cli.query, &cli.paths),
                    runs: index_runs(cli.by_line, cli.by_file, &cli.index_path),
                },
            );
        },
        None => {},
    }
    match &cli.sync {
        Some(name) => {
            return Ok(Command::Sync { name: clone_string(name) });
        },
        None => {},
    }
    if cli.list {
        return Ok(Command::List);
    }
    match &cli.info {
        Some(name) => {
            return Ok(Command::Info { name: clone_string(name) });
        },
        None => {},
    }
    if cli.include_glob.is_some() || cli.exclude_glob.is_some() {
        return Err(CommandError::GlobInSearch);
    }
    match &cli.query {
        Some(q) => {
            let mode = search_mode(cli.by_file, cli.by_line, Some(q.as_str()));
            Ok(Command::Search { query: clone_string(q), mode, sort })
        },
        None => Err(CommandError::MissingQuery),
    }
}

} // verus!
