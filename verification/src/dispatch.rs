//! The decisions of the command line: which mode a search runs in, which
//! modes an index command touches, how an index command changes the index
//! metadata and what it does next, and which registered index serves a
//! directory search.
use vstd::prelude::*;

use crate::meta::{
    chars_less, chars_lt, lemma_chars_lt_order, lemma_chars_lt_total, lemma_opt_time_lt_order, lemma_path_lt_order,
    opt_time_less, path_less, path_lt, opt_time_lt, path_has_prefix, paths_equal, path_starts_with, path_view, IndexMeta, IndexMode, SyncTime,
};
use crate::registry::{default_index_path, is_path_like, opt_path_view, spec_env_dir, Registry};
use crate::searcher::{query_implies_file_mode, spec_implies_file_mode};
use crate::searcher::join;
use crate::text::{chars_of, chars_range, push_range, string_from_chars};

verus! {

/// The mode of a search: `--by-file`, else `--by-line`, else file mode
/// when the query names a file-mode field, else line mode.
pub open spec fn spec_search_mode(by_file: bool, by_line: bool, query: Option<Seq<char>>) -> IndexMode {
    if by_file {
        IndexMode::File
    } else if by_line {
        IndexMode::Line
    } else {
        match query {
            Some(q) => if spec_implies_file_mode(q) {
                IndexMode::File
            } else {
                IndexMode::Line
            },
            None => IndexMode::Line,
        }
    }
}

/// Chooses the mode of a search (see `spec_search_mode`).
pub fn search_mode(by_file: bool, by_line: bool, query: Option<&str>) -> (m: IndexMode)
    ensures
        m == spec_search_mode(
            by_file,
            by_line,
            match query {
                Some(q) => Some(q@),
                None => None,
            },
        ),
{
    if by_file {
        IndexMode::File
    } else if by_line {
        IndexMode::Line
    } else {
        match query {
            Some(q) => if query_implies_file_mode(q) {
                IndexMode::File
            } else {
                IndexMode::Line
            },
            None => IndexMode::Line,
        }
    }
}

/// The modes that `--index` builds: the one asked for, both when neither is.
pub fn index_modes(by_line: bool, by_file: bool) -> (modes: Vec<IndexMode>)
    ensures
        modes@ == (if by_file {
            seq![IndexMode::File]
        } else if by_line {
            seq![IndexMode::Line]
        } else {
            seq![IndexMode::Line, IndexMode::File]
        }),
{
    let mut v: Vec<IndexMode> = Vec::new();
    if by_file {
        v.push(IndexMode::File);
    } else if by_line {
        v.push(IndexMode::Line);
    } else {
        v.push(IndexMode::Line);
        v.push(IndexMode::File);
    }
    assert(v@ =~= (if by_file {
        seq![IndexMode::File]
    } else if by_line {
        seq![IndexMode::Line]
    } else {
        seq![IndexMode::Line, IndexMode::File]
    }));
    v
}

/// The single mode that `--by-line` or `--by-file` selects when exactly one
/// of them is given.
pub open spec fn spec_mode_filter(by_line: bool, by_file: bool) -> Option<IndexMode> {
    if by_line && !by_file {
        Some(IndexMode::Line)
    } else if by_file && !by_line {
        Some(IndexMode::File)
    } else {
        None
    }
}

/// The mode that `--list` and `--info` restrict to, if any.
pub fn mode_filter(by_line: bool, by_file: bool) -> (m: Option<IndexMode>)
    ensures
        m == spec_mode_filter(by_line, by_file),
{
    if by_line && !by_file {
        Some(IndexMode::Line)
    } else if by_file && !by_line {
        Some(IndexMode::File)
    } else {
        None
    }
}

/// The modes that `--sync` visits: the one selected, both otherwise.
pub fn sync_modes(by_line: bool, by_file: bool) -> (modes: Vec<IndexMode>)
    ensures
        modes@ == (match spec_mode_filter(by_line, by_file) {
            Some(m) => seq![m],
            None => seq![IndexMode::Line, IndexMode::File],
        }),
{
    let mut v: Vec<IndexMode> = Vec::new();
    match mode_filter(by_line, by_file) {
        Some(m) => v.push(m),
        None => {
            v.push(IndexMode::Line);
            v.push(IndexMode::File);
        },
    }
    assert(v@ =~= (match spec_mode_filter(by_line, by_file) {
        Some(m) => seq![m],
        None => seq![IndexMode::Line, IndexMode::File],
    }));
    v
}

/// The options of an `--index` command. The directories are given as path
/// components, already made absolute where the file system allowed it.
pub struct IndexOptions {
    pub name: String,
    pub dirs: Vec<Vec<String>>,
    pub mode: IndexMode,
    pub index_path: Option<String>,
    pub no_register: bool,
    pub no_index: bool,
    pub include_glob: Option<String>,
    pub exclude_glob: Option<String>,
}

/// Why an `--index` command stops.
#[derive(Debug)]
pub enum IndexError {
    /// No directory was given.
    NoDirectories,
    /// The index exists with another mode.
    ModeMismatch { existing: IndexMode, requested: IndexMode },
}

/// What an `--index` command does once the metadata is saved.
#[derive(Debug, Clone, Copy, PartialEq, Eq, Structural)]
pub enum IndexAction {
    /// `--no-index`: registration only.
    SkipIndexing,
    /// New directories, or nothing indexed yet: index everything.
    Build,
    /// Otherwise: a differential sync.
    Sync,
}

/// The outcome of an `--index` command's decisions.
pub struct IndexPlan {
    /// For each given directory, whether it was newly registered.
    pub added: Vec<bool>,
    /// Whether the index is to be entered in the registry.
    pub register: bool,
    pub action: IndexAction,
}

/// Registering the directories one by one: the directory list after each
/// registration, and for each directory whether it was new.
pub open spec fn add_dirs_spec(
    existing: Seq<Seq<Seq<char>>>,
    new: Seq<Seq<Seq<char>>>,
) -> (Seq<Seq<Seq<char>>>, Seq<bool>)
    decreases new.len(),
{
    if new.len() == 0 {
        (existing, seq![])
    } else {
        let (ds, flags) = add_dirs_spec(existing, new.drop_last());
        let d = new.last();
        if ds.contains(d) {
            (ds, flags.push(false))
        } else {
            (ds.push(d), flags.push(true))
        }
    }
}

pub open spec fn dirs_view(dirs: Seq<Vec<String>>) -> Seq<Seq<Seq<char>>> {
    dirs.map_values(|d: Vec<String>| path_view(d@))
}

/// Whether the index is entered in the registry: unless `--no-register`
/// or the name is itself a path.
pub open spec fn spec_should_register(no_register: bool, name: Seq<char>) -> bool {
    !no_register && !is_path_like(name)
}

pub open spec fn spec_index_action(no_index: bool, added: Seq<bool>, files_empty: bool) -> IndexAction {
    if no_index {
        IndexAction::SkipIndexing
    } else if added.contains(true) || files_empty {
        IndexAction::Build
    } else {
        IndexAction::Sync
    }
}

/// Applies an `--index` command to the index metadata: checks the
/// directories and the mode, takes over the glob patterns that are given,
/// registers the directories, and decides on registration and indexing.
/// On an error the metadata is left as it was.
pub fn plan_index(opts: IndexOptions, meta: &mut IndexMeta) -> (r: Result<IndexPlan, IndexError>)
    ensures
        opts.dirs@.len() == 0 ==> (r matches Err(IndexError::NoDirectories) && *final(meta) == *old(meta)),
        opts.dirs@.len() > 0 && old(meta).mode != opts.mode ==> (r matches Err(
            IndexError::ModeMismatch { existing, requested },
        ) && existing == old(meta).mode && requested == opts.mode && *final(meta) == *old(meta)),
        opts.dirs@.len() > 0 && old(meta).mode == opts.mode ==> (r matches Ok(plan) && {
            let (ds, flags) = add_dirs_spec(old(meta).dir_views(), dirs_view(opts.dirs@));
            &&& final(meta).dir_views() == ds
            &&& plan.added@ == flags
            &&& final(meta).include_glob == (if opts.include_glob is Some {
                opts.include_glob
            } else {
                old(meta).include_glob
            })
            &&& final(meta).exclude_glob == (if opts.exclude_glob is Some {
                opts.exclude_glob
            } else {
                old(meta).exclude_glob
            })
            &&& final(meta).mode == old(meta).mode
            &&& final(meta).files == old(meta).files
            &&& final(meta).last_sync == old(meta).last_sync
            &&& final(meta).frontmatter_keys == old(meta).frontmatter_keys
            &&& plan.register == spec_should_register(opts.no_register, opts.name@)
            &&& plan.action == spec_index_action(opts.no_index, flags, old(meta).files@.len() == 0)
        }),
{
    if opts.dirs.len() == 0 {
        return Err(IndexError::NoDirectories);
    }
    if meta.mode != opts.mode {
        return Err(IndexError::ModeMismatch { existing: meta.mode, requested: opts.mode });
    }
    let IndexOptions { name, dirs, mode, index_path, no_register, no_index, include_glob, exclude_glob } =
        opts;
    if include_glob.is_some() {
        meta.include_glob = include_glob;
    }
    if exclude_glob.is_some() {
        meta.exclude_glob = exclude_glob;
    }
    let ghost dv = dirs_view(dirs@);
    let ghost d0 = meta.dir_views();
    let mut added: Vec<bool> = Vec::new();
    let mut any_added = false;
    let mut i: usize = 0;
    while i < dirs.len()
        invariant
            i <= dirs.len(),
            dv == dirs_view(dirs@),
            (meta.dir_views(), added@) == add_dirs_spec(d0, dv.take(i as int)),
            any_added == added@.contains(true),
            meta.mode == old(meta).mode,
            meta.files == old(meta).files,
            meta.last_sync == old(meta).last_sync,
            meta.frontmatter_keys == old(meta).frontmatter_keys,
            meta.include_glob == (if include_glob is Some {
                include_glob
            } else {
                old(meta).include_glob
            }),
            meta.exclude_glob == (if exclude_glob is Some {
                exclude_glob
            } else {
                old(meta).exclude_glob
            }),
        decreases dirs.len() - i,
    {
        assert(dv.take(i as int + 1).drop_last() == dv.take(i as int));
        assert(dv.take(i as int + 1).last() == path_view(dirs@[i as int]@));
        let d = clone_path(&dirs[i]);
        let ghost before = added@;
        let was_added = meta.add_dir(d);
        added.push(was_added);
        proof {
            assert(added@ == before.push(was_added));
            if was_added {
                assert(added@[added@.len() - 1] == true);
            }
            if before.contains(true) {
                let j = choose|j: int| 0 <= j < before.len() && before[j] == true;
                assert(added@[j] == true);
            }
            if added@.contains(true) && !was_added {
                let j = choose|j: int| 0 <= j < added@.len() && added@[j] == true;
                assert(before[j] == true);
            }
        }
        any_added = any_added || was_added;
        i = i + 1;
    }
    assert(dv.take(dirs.len() as int) == dv);
    let v = chars_of(name.as_str());
    let path_like = v.len() > 0 && (v[0] == '/' || v[0] == '.');
    let register = !no_register && !path_like;
    let action = if no_index {
        IndexAction::SkipIndexing
    } else if any_added || meta.files.len() == 0 {
        IndexAction::Build
    } else {
        IndexAction::Sync
    };
    Ok(IndexPlan { added, register, action })
}

/// A copy of a path.
pub fn clone_path(p: &Vec<String>) -> (r: Vec<String>)
    ensures
        r@ == p@,
{
    let mut r: Vec<String> = Vec::new();
    for i in 0..p.len()
        invariant
            r@ == p@.take(i as int),
    {
        r.push(p[i].clone());
        assert(r@ =~= p@.take(i as int + 1));
    }
    assert(p@.take(p.len() as int) == p@);
    r
}

/// Every target directory lies within one of the index directories.
pub open spec fn covers(index_dirs: Seq<Seq<Seq<char>>>, targets: Seq<Seq<Seq<char>>>) -> bool {
    forall|t: int| 0 <= t < targets.len() ==> #[trigger] within_any(index_dirs, targets[t])
}

/// `target` lies within one of the index directories.
pub open spec fn within_any(index_dirs: Seq<Seq<Seq<char>>>, target: Seq<Seq<char>>) -> bool {
    exists|d: int| 0 <= d < index_dirs.len() && path_starts_with(target, #[trigger] index_dirs[d])
}

/// A registered index (its directory and metadata) can serve a search of
/// `targets` in `mode`.
pub open spec fn eligible(c: (Vec<String>, IndexMeta), targets: Seq<Seq<Seq<char>>>, mode: IndexMode) -> bool {
    c.1.mode == mode && covers(c.1.dir_views(), targets)
}

/// Candidate `a` is preferred to `b`: fewer directories, then the more
/// recent sync, then the smaller index path.
pub open spec fn preferred(a: (Vec<String>, IndexMeta), b: (Vec<String>, IndexMeta)) -> bool {
    let la = a.1.dirs@.len();
    let lb = b.1.dirs@.len();
    la < lb || (la == lb && (opt_time_lt(b.1.last_sync, a.1.last_sync) || (a.1.last_sync == b.1.last_sync
        && path_lt(path_view(a.0@), path_view(b.0@)))))
}

/// The candidate chosen among the first `cs.len()` ones: the first
/// eligible one that no later eligible one is preferred to.
pub open spec fn spec_select(cs: Seq<(Vec<String>, IndexMeta)>, targets: Seq<Seq<Seq<char>>>, mode: IndexMode) -> Option<int>
    decreases cs.len(),
{
    if cs.len() == 0 {
        None
    } else {
        let best = spec_select(cs.drop_last(), targets, mode);
        let last = cs.len() - 1;
        if eligible(cs[last], targets, mode) && match best {
            None => true,
            Some(b) => preferred(cs[last], cs[b]),
        } {
            Some(last)
        } else {
            best
        }
    }
}

fn covered_by_any(index_dirs: &Vec<Vec<String>>, target: &Vec<String>) -> (r: bool)
    ensures
        r == exists|e: int|
            0 <= e < index_dirs@.len() && path_starts_with(
                path_view(target@),
                #[trigger] path_view(index_dirs@[e]@),
            ),
{
    let mut d: usize = 0;
    while d < index_dirs.len()
        invariant
            d <= index_dirs.len(),
            forall|e: int|
                0 <= e < d ==> !path_starts_with(path_view(target@), #[trigger] path_view(index_dirs@[e]@)),
        decreases index_dirs.len() - d,
    {
        if path_has_prefix(target, &index_dirs[d]) {
            return true;
        }
        d = d + 1;
    }
    false
}

fn covers_exec(index_dirs: &Vec<Vec<String>>, targets: &Vec<Vec<String>>) -> (r: bool)
    ensures
        r == covers(index_dirs@.map_values(|d: Vec<String>| path_view(d@)), dirs_view(targets@)),
{
    let ghost iv = index_dirs@.map_values(|d: Vec<String>| path_view(d@));
    let ghost tv = dirs_view(targets@);
    let mut t: usize = 0;
    while t < targets.len()
        invariant
            t <= targets.len(),
            iv == index_dirs@.map_values(|d: Vec<String>| path_view(d@)),
            tv == dirs_view(targets@),
            forall|k: int| 0 <= k < t ==> #[trigger] within_any(iv, tv[k]),
        decreases targets.len() - t,
    {
        let ok = covered_by_any(index_dirs, &targets[t]);
        assert(tv[t as int] == path_view(targets@[t as int]@));
        if ok {
            let ghost e = choose|e: int|
                0 <= e < index_dirs@.len() && path_starts_with(
                    path_view(targets@[t as int]@),
                    #[trigger] path_view(index_dirs@[e]@),
                );
            assert(iv[e] == path_view(index_dirs@[e]@));
            assert(within_any(iv, tv[t as int]));
        } else {
            assert(!within_any(iv, tv[t as int])) by {
                if within_any(iv, tv[t as int]) {
                    let e = choose|e: int|
                        0 <= e < iv.len() && path_starts_with(tv[t as int], #[trigger] iv[e]);
                    assert(iv[e] == path_view(index_dirs@[e]@));
                }
            }
            return false;
        }
        t = t + 1;
    }
    true
}

/// Picks the registered index that serves a directory search: among the
/// candidates of the right mode whose directories cover every target, the
/// one with the fewest directories, then the most recent sync, then the
/// smallest path; the first such when several tie. `None` when no
/// candidate qualifies.
pub fn select_index(
    candidates: &Vec<(Vec<String>, IndexMeta)>,
    targets: &Vec<Vec<String>>,
    mode: IndexMode,
) -> (r: Option<usize>)
    ensures
        match spec_select(candidates@, dirs_view(targets@), mode) {
            Some(i) => r == Some(i as usize),
            None => r is None,
        },
{
    let ghost tv = dirs_view(targets@);
    let mut best: Option<usize> = None;
    for i in 0..candidates.len()
        invariant
            tv == dirs_view(targets@),
            match spec_select(candidates@.take(i as int), tv, mode) {
                Some(b) => best == Some(b as usize) && 0 <= b < i,
                None => best is None,
            },
    {
        let ghost pre = candidates@.take(i as int + 1);
        assert(pre.drop_last() == candidates@.take(i as int));
        assert(pre[i as int] == candidates@[i as int]);
        let c = &candidates[i];
        let ok = c.1.mode == mode && covers_exec(&c.1.dirs, targets);
        assert(ok == eligible(candidates@[i as int], tv, mode));
        if ok {
            let better = match best {
                None => true,
                Some(b) => {
                    assert(pre[b as int] == candidates@[b as int]);
                    let cb = &candidates[b];
                    let la = c.1.dirs.len();
                    let lb = cb.1.dirs.len();
                    la < lb || (la == lb && (opt_time_less(cb.1.last_sync, c.1.last_sync) || (
                    c.1.last_sync == cb.1.last_sync && path_less(&c.0, &cb.0))))
                },
            };
            if better {
                best = Some(i);
            }
        }
    }
    assert(candidates@.take(candidates.len() as int) == candidates@);
    best
}

/// One of `dirs` is a leading part of the path `target`.
pub open spec fn lies_within(dirs: Seq<Vec<String>>, target: Seq<Seq<char>>) -> bool {
    exists|d: int| 0 <= d < dirs.len() && path_view(#[trigger] dirs[d]@).is_prefix_of(target)
}

/// Every target path has one of `dirs` as a leading part.
pub open spec fn dirs_contain_all(dirs: Seq<Vec<String>>, targets: Seq<Seq<Seq<char>>>) -> bool {
    forall|t: int| 0 <= t < targets.len() ==> #[trigger] lies_within(dirs, targets[t])
}

proof fn lemma_covers_contain(dirs: Seq<Vec<String>>, targets: Seq<Seq<Seq<char>>>)
    ensures
        covers(dirs.map_values(|d: Vec<String>| path_view(d@)), targets) <==> dirs_contain_all(dirs, targets),
{
    let dv = dirs.map_values(|d: Vec<String>| path_view(d@));
    if covers(dv, targets) {
        assert forall|t: int| 0 <= t < targets.len() implies #[trigger] lies_within(dirs, targets[t]) by {
            assert(within_any(dv, targets[t]));
            let d = choose|d: int| 0 <= d < dv.len() && path_starts_with(targets[t], #[trigger] dv[d]);
            assert(dv[d] == path_view(dirs[d]@));
            assert(path_view(dirs[d]@).is_prefix_of(targets[t]));
        }
    }
    if dirs_contain_all(dirs, targets) {
        assert forall|t: int| 0 <= t < targets.len() implies #[trigger] within_any(dv, targets[t]) by {
            assert(lies_within(dirs, targets[t]));
            let d = choose|d: int| 0 <= d < dirs.len() && path_view(#[trigger] dirs[d]@).is_prefix_of(targets[t]);
            assert(dv[d] == path_view(dirs[d]@));
            assert(path_starts_with(targets[t], dv[d]));
        }
        assert(covers(dv, targets));
    }
}

/// The index chosen for a directory search serves every searched directory:
/// it has the searched mode, and for each target one of its directories is a
/// leading part of the target's path. When none is chosen, no candidate of
/// the mode has such a directory for every target.
pub proof fn lemma_selected_covers_targets(
    cs: Seq<(Vec<String>, IndexMeta)>,
    targets: Seq<Seq<Seq<char>>>,
    mode: IndexMode,
)
    ensures
        spec_select(cs, targets, mode) matches Some(i) ==> 0 <= i < cs.len() && cs[i].1.mode == mode
            && dirs_contain_all(cs[i].1.dirs@, targets),
        spec_select(cs, targets, mode) is None ==> forall|j: int|
            0 <= j < cs.len() && #[trigger] cs[j].1.mode == mode ==> !dirs_contain_all(cs[j].1.dirs@, targets),
{
    lemma_selected_is_best(cs, targets, mode);
    match spec_select(cs, targets, mode) {
        Some(i) => {
            assert(eligible(cs[i], targets, mode));
            let dv = cs[i].1.dir_views();
            assert(covers(dv, targets));
            lemma_covers_contain(cs[i].1.dirs@, targets);

        },
        None => {
            assert forall|j: int| 0 <= j < cs.len() && #[trigger] cs[j].1.mode == mode implies !dirs_contain_all(
                cs[j].1.dirs@,
                targets,
            ) by {
                assert(!eligible(cs[j], targets, mode));
                lemma_covers_contain(cs[j].1.dirs@, targets);
            }
        },
    }
}

/// A directory as `--list` shows it: a leading home directory written `~`.
pub open spec fn spec_abbreviate_home(d: Seq<char>, home: Seq<char>) -> Seq<char> {
    if home.len() > 0 && home.is_prefix_of(d) {
        seq!['~'] + d.skip(home.len() as int)
    } else {
        d
    }
}

/// Whether `v` begins with `p`.
pub fn vec_has_prefix(v: &Vec<char>, p: &Vec<char>) -> (b: bool)
    ensures
        b == p@.is_prefix_of(v@),
{
    if p.len() > v.len() {
        return false;
    }
    let mut i: usize = 0;
    while i < p.len()
        invariant
            p.len() <= v.len(),
            i <= p.len(),
            forall|k: int| 0 <= k < i ==> v@[k] == p@[k],
        decreases p.len() - i,
    {
        if v[i] != p[i] {
            assert(v@.subrange(0, p@.len() as int)[i as int] != p@[i as int]);
            return false;
        }
        i = i + 1;
    }
    assert(v@.subrange(0, p@.len() as int) =~= p@);
    true
}

fn abbreviate_home(d: &Vec<char>, home: &Vec<char>) -> (r: Vec<char>)
    ensures
        r@ == spec_abbreviate_home(d@, home@),
{
    let prefix = home.len() > 0 && vec_has_prefix(d, home);
    if prefix {
        assert(d@.subrange(0, home@.len() as int) =~= home@);
        let mut r: Vec<char> = Vec::new();
        r.push('~');
        push_range(&mut r, d, home.len(), d.len());
        assert(r@ =~= seq!['~'] + d@.skip(home.len() as int));
        r
    } else {
        assert(d@.subrange(0, d@.len() as int) == d@);
        chars_range(d, 0, d.len())
    }
}

/// The directories of an index as `--list` shows them: a leading home
/// directory written `~`, separated by `, `.
pub fn display_dirs(dirs: &Vec<String>, home: &str) -> (r: String)
    ensures
        r@ == join(
            dirs@.map_values(|d: String| spec_abbreviate_home(d@, home@)),
            seq![',', ' '],
        ),
{
    let h = chars_of(home);
    let ghost parts = dirs@.map_values(|d: String| spec_abbreviate_home(d@, home@));
    let mut out: Vec<char> = Vec::new();
    for i in 0..dirs.len()
        invariant
            h@ == home@,
            parts == dirs@.map_values(|d: String| spec_abbreviate_home(d@, home@)),
            out@ == join(parts.take(i as int), seq![',', ' ']),
    {
        let d = chars_of(dirs[i].as_str());
        let a = abbreviate_home(&d, &h);
        let ghost o = out@;
        if i > 0 {
            out.push(',');
            out.push(' ');
        }
        push_range(&mut out, &a, 0, a.len());
        proof {
            assert(a@.subrange(0, a@.len() as int) == a@);
            let t = parts.take(i as int + 1);
            assert(t.drop_last() == parts.take(i as int));
            assert(t.last() == a@);
            if i == 0 {
                assert(t.len() == 1);
                assert(out@ =~= a@);
            } else {
                assert(out@ =~= o + seq![',', ' '] + a@);
            }
        }
    }
    assert(parts.take(dirs.len() as int) == parts);
    string_from_chars(&out)
}

proof fn lemma_preferred_order(
    a: (Vec<String>, IndexMeta),
    b: (Vec<String>, IndexMeta),
    c: (Vec<String>, IndexMeta),
)
    ensures
        !preferred(a, a),
        preferred(a, b) && preferred(b, c) ==> preferred(a, c),
{
    lemma_path_lt_order(path_view(a.0@), path_view(b.0@), path_view(c.0@));
    lemma_path_lt_order(path_view(a.0@), path_view(a.0@), path_view(a.0@));
    lemma_opt_time_lt_order(c.1.last_sync, b.1.last_sync, a.1.last_sync);
    lemma_opt_time_lt_order(a.1.last_sync, a.1.last_sync, a.1.last_sync);
}

/// The chosen index can serve the search and no candidate that can is
/// preferred to it; when none is chosen, no candidate can serve it.
pub proof fn lemma_selected_is_best(
    cs: Seq<(Vec<String>, IndexMeta)>,
    targets: Seq<Seq<Seq<char>>>,
    mode: IndexMode,
)
    ensures
        match spec_select(cs, targets, mode) {
            Some(i) => 0 <= i < cs.len() && eligible(cs[i], targets, mode) && forall|j: int|
                0 <= j < cs.len() && eligible(#[trigger] cs[j], targets, mode) ==> !preferred(cs[j], cs[i]),
            None => forall|j: int| 0 <= j < cs.len() ==> !eligible(#[trigger] cs[j], targets, mode),
        },
    decreases cs.len(),
{
    if cs.len() > 0 {
        let p = cs.drop_last();
        lemma_selected_is_best(p, targets, mode);
        let last = cs.len() - 1;
        let best = spec_select(p, targets, mode);
        match spec_select(cs, targets, mode) {
            Some(i) => {
                if i == last {
                    assert forall|j: int| 0 <= j < cs.len() && eligible(#[trigger] cs[j], targets, mode)
                        implies !preferred(cs[j], cs[i]) by {
                        lemma_preferred_order(cs[i], cs[i], cs[i]);
                        if j < last {
                            assert(p[j] == cs[j]);
                            match best {
                                Some(b) => {
                                    assert(p[b] == cs[b]);
                                    lemma_preferred_order(cs[j], cs[i], cs[b]);
                                },
                                None => {},
                            }
                        }
                    }
                } else {
                    assert(best == Some(i));
                    assert(p[i] == cs[i]);
                    assert forall|j: int| 0 <= j < cs.len() && eligible(#[trigger] cs[j], targets, mode)
                        implies !preferred(cs[j], cs[i]) by {
                        if j < last {
                            assert(p[j] == cs[j]);
                        }
                    }
                }
            },
            None => {
                assert forall|j: int| 0 <= j < cs.len() implies !eligible(#[trigger] cs[j], targets, mode) by {
                    if j < last {
                        assert(p[j] == cs[j]);
                    }
                }
            },
        }
    }
}

/// A registry entry (name, index directory) viewed.
pub open spec fn entry_views(v: Seq<(String, String)>) -> Seq<(Seq<char>, Seq<char>)> {
    v.map_values(|e: (String, String)| (e.0@, e.1@))
}

/// Inserts `x` after every entry whose name does not come after its own.
pub open spec fn insert_by_name(s: Seq<(Seq<char>, Seq<char>)>, x: (Seq<char>, Seq<char>)) -> Seq<
    (Seq<char>, Seq<char>),
>
    decreases s.len(),
{
    if s.len() == 0 {
        seq![x]
    } else if !chars_lt(x.0, s.last().0) {
        s.push(x)
    } else {
        insert_by_name(s.drop_last(), x).push(s.last())
    }
}

/// Entries in ascending order of name (insertion sort).
pub open spec fn sort_by_name(s: Seq<(Seq<char>, Seq<char>)>) -> Seq<(Seq<char>, Seq<char>)>
    decreases s.len(),
{
    if s.len() == 0 {
        seq![]
    } else {
        insert_by_name(sort_by_name(s.drop_last()), s.last())
    }
}

/// No entry's name comes before that of an entry ahead of it.
pub open spec fn sorted_by_name(s: Seq<(Seq<char>, Seq<char>)>) -> bool {
    forall|i: int, j: int| 0 <= i < j < s.len() ==> !chars_lt(#[trigger] s[j].0, #[trigger] s[i].0)
}

proof fn lemma_not_lt_trans(a: Seq<char>, b: Seq<char>, c: Seq<char>)
    requires
        !chars_lt(a, b),
        !chars_lt(b, c),
    ensures
        !chars_lt(a, c),
{
    lemma_chars_lt_total(a, b);
    lemma_chars_lt_total(b, c);
    lemma_chars_lt_order(b, a, c);
    lemma_chars_lt_order(c, b, a);
    lemma_chars_lt_order(a, c, b);
    if chars_lt(a, c) {
        if a != b {
            lemma_chars_lt_order(b, a, c);
        }
    }
}

proof fn lemma_insert_by_name(s: Seq<(Seq<char>, Seq<char>)>, x: (Seq<char>, Seq<char>))
    requires
        sorted_by_name(s),
    ensures
        insert_by_name(s, x).len() == s.len() + 1,
        sorted_by_name(insert_by_name(s, x)),
        forall|y: (Seq<char>, Seq<char>)|
            #[trigger] insert_by_name(s, x).contains(y) <==> (y == x || s.contains(y)),
    decreases s.len(),
{
    let r = insert_by_name(s, x);
    if s.len() == 0 {
        assert(r =~= seq![x]);
        assert forall|y: (Seq<char>, Seq<char>)| #[trigger] r.contains(y) <==> (y == x || s.contains(y)) by {
            if r.contains(y) {
                let k = choose|k: int| 0 <= k < r.len() && r[k] == y;
                assert(k == 0);
            }
            if y == x {
                assert(r[0] == x);
            }
        }
    } else if !chars_lt(x.0, s.last().0) {
        assert forall|i: int, j: int| 0 <= i < j < r.len() implies !chars_lt(#[trigger] r[j].0, #[trigger] r[i].0) by {
            if j == s.len() {
                assert(r[i] == s[i]);
                if i < s.len() - 1 {
                    assert(!chars_lt(s[s.len() - 1].0, s[i].0));
                    lemma_not_lt_trans(x.0, s.last().0, s[i].0);
                }
            } else {
                assert(r[i] == s[i] && r[j] == s[j]);
            }
        }
        assert forall|y: (Seq<char>, Seq<char>)| #[trigger] r.contains(y) <==> (y == x || s.contains(y)) by {
            if r.contains(y) {
                let k = choose|k: int| 0 <= k < r.len() && r[k] == y;
                if k < s.len() {
                    assert(s[k] == y);
                }
            }
            if s.contains(y) {
                let k = choose|k: int| 0 <= k < s.len() && s[k] == y;
                assert(r[k] == y);
            }
            if y == x {
                assert(r[s.len() as int] == x);
            }
        }
    } else {
        let t = s.drop_last();
        assert(sorted_by_name(t)) by {
            assert forall|i: int, j: int| 0 <= i < j < t.len() implies !chars_lt(#[trigger] t[j].0, #[trigger] t[i].0) by {
                assert(t[i] == s[i] && t[j] == s[j]);
            }
        }
        lemma_insert_by_name(t, x);
        let q = insert_by_name(t, x);
        assert(r == q.push(s.last()));
        assert forall|y: (Seq<char>, Seq<char>)| #[trigger] r.contains(y) <==> (y == x || s.contains(y)) by {
            if r.contains(y) {
                let k = choose|k: int| 0 <= k < r.len() && r[k] == y;
                if k < q.len() {
                    assert(q[k] == y);
                    assert(q.contains(y));
                    if y != x {
                        let m = choose|m: int| 0 <= m < t.len() && t[m] == y;
                        assert(s[m] == y);
                    }
                } else {
                    assert(s[s.len() - 1] == y);
                }
            }
            if s.contains(y) {
                let k = choose|k: int| 0 <= k < s.len() && s[k] == y;
                if k < s.len() - 1 {
                    assert(t[k] == y);
                    assert(t.contains(y));
                    assert(q.contains(y));
                    let m = choose|m: int| 0 <= m < q.len() && q[m] == y;
                    assert(r[m] == y);
                } else {
                    assert(r[q.len() as int] == y);
                }
            }
            if y == x {
                assert(q.contains(x));
                let m = choose|m: int| 0 <= m < q.len() && q[m] == x;
                assert(r[m] == x);
            }
        }
        assert forall|i: int, j: int| 0 <= i < j < r.len() implies !chars_lt(#[trigger] r[j].0, #[trigger] r[i].0) by {
            if j == q.len() {
                assert(r[i] == q[i]);
                assert(q.contains(q[i]));
                if q[i] == x {
                    lemma_chars_lt_order(x.0, s.last().0, x.0);
                } else {
                    let m = choose|m: int| 0 <= m < t.len() && t[m] == q[i];
                    assert(s[m] == q[i]);
                    assert(!chars_lt(s[s.len() - 1].0, s[m].0));
                }
            } else {
                assert(r[i] == q[i] && r[j] == q[j]);
            }
        }
    }
}

/// Insertion sort by name keeps the entries and puts them in ascending
/// order of name: the `--list` rows are the registered indexes, each once,
/// sorted by name.
pub proof fn lemma_sort_by_name(s: Seq<(Seq<char>, Seq<char>)>)
    ensures
        sort_by_name(s).len() == s.len(),
        sorted_by_name(sort_by_name(s)),
        forall|y: (Seq<char>, Seq<char>)| #[trigger] sort_by_name(s).contains(y) <==> s.contains(y),
    decreases s.len(),
{
    if s.len() > 0 {
        let t = s.drop_last();
        lemma_sort_by_name(t);
        lemma_insert_by_name(sort_by_name(t), s.last());
        assert forall|y: (Seq<char>, Seq<char>)| #[trigger] sort_by_name(s).contains(y) <==> s.contains(y) by {
            if s.contains(y) && y != s.last() {
                let k = choose|k: int| 0 <= k < s.len() && s[k] == y;
                assert(t[k] == y);
                assert(t.contains(y));
            }
            if t.contains(y) {
                let k = choose|k: int| 0 <= k < t.len() && t[k] == y;
                assert(s[k] == y);
            }
            if y == s.last() {
                assert(s[s.len() - 1] == y);
            }
        }
    } else {
        assert(sort_by_name(s) =~= Seq::<(Seq<char>, Seq<char>)>::empty());
    }
}

fn insert_entry(v: &mut Vec<(String, String)>, x: (String, String))
    ensures
        entry_views(final(v)@) == insert_by_name(entry_views(old(v)@), (x.0@, x.1@)),
{
    let xv = chars_of(x.0.as_str());
    let ghost s = entry_views(v@);
    let ghost xe = (x.0@, x.1@);
    let mut k = v.len();
    while k > 0
        invariant_except_break
            k <= v.len(),
            v@ == old(v)@,
            s == entry_views(v@),
            xv@ == x.0@,
            xe == (x.0@, x.1@),
            forall|j: int| k <= j < s.len() ==> chars_lt(xe.0, #[trigger] s[j].0),
        ensures
            k <= v.len(),
            v@ == old(v)@,
            forall|j: int| k <= j < s.len() ==> chars_lt(xe.0, #[trigger] s[j].0),
            k > 0 ==> !chars_lt(xe.0, s[k - 1].0),
        decreases k,
    {
        let prev = chars_of(v[k - 1].0.as_str());
        assert(s[k - 1].0 == prev@);
        if !chars_less(&xv, &prev) {
            break;
        }
        k = k - 1;
    }
    proof {
        lemma_insert_entry_at(s, xe, k as int);
    }
    v.insert(k, x);
    assert(entry_views(v@) =~= s.take(k as int).push(xe) + s.skip(k as int));
}

proof fn lemma_insert_entry_at(s: Seq<(Seq<char>, Seq<char>)>, x: (Seq<char>, Seq<char>), k: int)
    requires
        0 <= k <= s.len(),
        forall|j: int| k <= j < s.len() ==> chars_lt(x.0, #[trigger] s[j].0),
        k > 0 ==> !chars_lt(x.0, s[k - 1].0),
    ensures
        insert_by_name(s, x) == s.take(k).push(x) + s.skip(k),
    decreases s.len(),
{
    if k == s.len() {
        assert(s.take(k) == s);
        assert(s.skip(k) =~= Seq::<(Seq<char>, Seq<char>)>::empty());
    } else {
        assert(chars_lt(x.0, s.last().0));
        lemma_insert_entry_at(s.drop_last(), x, k);
        assert(s.drop_last().take(k) == s.take(k));
        assert(s.skip(k) =~= s.drop_last().skip(k).push(s.last()));
        assert(insert_by_name(s, x) =~= s.take(k).push(x) + s.skip(k));
    }
}

/// The rows of `--list`: the registered indexes (name, directory) in
/// ascending order of name (see `lemma_sort_by_name`).
pub fn list_entries(registry: &Registry) -> (rows: Vec<(String, String)>)
    ensures
        entry_views(rows@) == sort_by_name(entry_views(registry.indices@)),
{
    let ghost ev = entry_views(registry.indices@);
    let mut rows: Vec<(String, String)> = Vec::new();
    for i in 0..registry.indices.len()
        invariant
            ev == entry_views(registry.indices@),
            entry_views(rows@) == sort_by_name(ev.take(i as int)),
    {
        assert(ev.take(i as int + 1).drop_last() == ev.take(i as int));
        let e = &registry.indices[i];
        assert(ev.take(i as int + 1).last() == (e.0@, e.1@));
        insert_entry(&mut rows, (e.0.clone(), e.1.clone()));
    }
    assert(ev.take(registry.indices.len() as int) == ev);
    rows
}

/// Whether `--list` shows an index whose mode is `mode` (`None` where its
/// metadata is missing or unreadable): always without a mode filter or a
/// known mode, otherwise when the modes agree.
pub fn list_shows(mode: Option<IndexMode>, filter: Option<IndexMode>) -> (b: bool)
    ensures
        b == (match (mode, filter) {
            (Some(m), Some(f)) => m == f,
            _ => true,
        }),
{
    match (mode, filter) {
        (Some(m), Some(f)) => m == f,
        _ => true,
    }
}

/// The index directories that `--sync <name>` looks at for a mode: the
/// directory the name resolves to, and for a registered name (not a path)
/// also the default directory of that mode where it is another one, so that
/// the line and the file index built under one name are both found.
pub open spec fn spec_sync_dirs(
    resolved: Seq<Seq<char>>,
    name: Seq<char>,
    default_dir: Seq<Seq<char>>,
) -> Seq<Seq<Seq<char>>> {
    if is_path_like(name) || default_dir == resolved {
        seq![resolved]
    } else {
        seq![resolved, default_dir]
    }
}

/// The directories `--sync` visits for `mode` (see `spec_sync_dirs`); the
/// environment values are those of `default_index_path`.
pub fn sync_dirs(
    resolved: &Vec<String>,
    name: &str,
    mode: IndexMode,
    xdg_data_home: Option<Vec<String>>,
    home: Option<Vec<String>>,
) -> (r: Vec<Vec<String>>)
    ensures
        r@.map_values(|d: Vec<String>| path_view(d@)) == spec_sync_dirs(
            path_view(resolved@),
            name@,
            spec_env_dir(opt_path_view(xdg_data_home), opt_path_view(home), seq![".local"@, "share"@])
                + seq!["ftgrep"@, "indices"@, mode_dir_name(mode), name@],
        ),
{
    let by_file = mode == IndexMode::File;
    let d = default_index_path(xdg_data_home, home, name, by_file);
    let v = chars_of(name);
    let path_like = v.len() > 0 && (v[0] == '/' || v[0] == '.');
    let mut r: Vec<Vec<String>> = Vec::new();
    r.push(clone_path(resolved));
    if !path_like && !paths_equal(&d, resolved) {
        r.push(d);
    }
    let ghost expected = spec_sync_dirs(
        path_view(resolved@),
        name@,
        spec_env_dir(opt_path_view(xdg_data_home), opt_path_view(home), seq![".local"@, "share"@])
            + seq!["ftgrep"@, "indices"@, mode_dir_name(mode), name@],
    );
    assert(r@.map_values(|d: Vec<String>| path_view(d@)) =~= expected);
    r
}

/// `line` or `file`, the directory of a mode's indexes.
pub open spec fn mode_dir_name(m: IndexMode) -> Seq<char> {
    match m {
        IndexMode::Line => "line"@,
        IndexMode::File => "file"@,
    }
}

} // verus!
