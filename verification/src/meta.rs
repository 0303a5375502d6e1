//! Index metadata: the mode of an index, the directories it covers, the
//! files it holds with their modification times, and when it was synced.
use vstd::prelude::*;

use crate::text::chars_of;

verus! {

/// One document per line, or one document per file.
#[derive(Debug, Clone, Copy, PartialEq, Eq, Structural)]
pub enum IndexMode {
    Line,
    File,
}

impl IndexMode {
    /// `line` or `file`, as the mode is written in messages and paths.
    pub fn as_str(&self) -> (s: &'static str)
        ensures
            s@ == (match self {
                IndexMode::Line => "line"@,
                IndexMode::File => "file"@,
            }),
    {
        match self {
            IndexMode::Line => "line",
            IndexMode::File => "file",
        }
    }
}

/// Per-file tracking record stored in the index metadata.
#[derive(Debug, Clone, Copy, PartialEq, Eq, Structural)]
pub struct FileRecord {
    /// Modification time, in seconds since the Unix epoch.
    pub mtime: u64,
}

/// An instant in UTC: seconds since the Unix epoch and nanoseconds.
#[derive(Debug, Clone, Copy, PartialEq, Eq, Structural)]
pub struct SyncTime {
    pub secs: i64,
    pub nanos: u32,
}

/// `a` is earlier than `b`.
pub open spec fn time_lt(a: SyncTime, b: SyncTime) -> bool {
    a.secs < b.secs || (a.secs == b.secs && a.nanos < b.nanos)
}

/// The order of optional times: no time before any time.
pub open spec fn opt_time_lt(a: Option<SyncTime>, b: Option<SyncTime>) -> bool {
    match (a, b) {
        (None, Some(_)) => true,
        (Some(x), Some(y)) => time_lt(x, y),
        _ => false,
    }
}

/// Reads the current time with `chrono::Utc::now`, as seconds and
/// nanoseconds since the Unix epoch. The value comes from the system clock,
/// so nothing is stated of it.
#[verifier::external_body]
fn now_utc() -> (t: SyncTime) {
    let now = chrono::Utc::now();
    SyncTime { secs: now.timestamp(), nanos: now.timestamp_subsec_nanos() }
}

/// A path is held as its components: `/` for the root, `.` and `..` for the
/// current and parent directory, the name for any other component.
pub open spec fn path_view(p: Seq<String>) -> Seq<Seq<char>> {
    p.map_values(|c: String| c@)
}

/// `prefix` is made of the first components of `path` (`Path::starts_with`).
pub open spec fn path_starts_with(path: Seq<Seq<char>>, prefix: Seq<Seq<char>>) -> bool {
    prefix.is_prefix_of(path)
}

/// Metadata stored alongside an index.
pub struct IndexMeta {
    pub mode: IndexMode,
    /// Directories registered with this index.
    pub dirs: Vec<Vec<String>>,
    /// Optional glob pattern that files must match.
    pub include_glob: Option<String>,
    /// Optional glob pattern that files must not match.
    pub exclude_glob: Option<String>,
    /// Each indexed file with its tracking record; no path occurs twice.
    pub files: Vec<(String, FileRecord)>,
    /// Time of the last successful sync.
    pub last_sync: Option<SyncTime>,
    /// Every frontmatter key seen across the indexed files (file mode);
    /// no key occurs twice.
    pub frontmatter_keys: Vec<String>,
}

/// The file table as a map from path to modification time.
pub open spec fn files_map(files: Seq<(String, FileRecord)>) -> Map<Seq<char>, u64>
    decreases files.len(),
{
    if files.len() == 0 {
        Map::empty()
    } else {
        files_map(files.drop_last()).insert(files.last().0@, files.last().1.mtime)
    }
}

/// No path occurs twice in the file table.
pub open spec fn distinct_paths(files: Seq<(String, FileRecord)>) -> bool {
    forall|i: int, j: int| 0 <= i < j < files.len() ==> files[i].0@ != files[j].0@
}

/// No string occurs twice.
pub open spec fn distinct_strings(v: Seq<String>) -> bool {
    forall|i: int, j: int| 0 <= i < j < v.len() ==> v[i]@ != v[j]@
}

impl IndexMeta {
    /// The metadata keeps its tables free of repeats.
    pub open spec fn wf(&self) -> bool {
        distinct_paths(self.files@) && distinct_strings(self.frontmatter_keys@)
    }

    pub open spec fn dir_views(&self) -> Seq<Seq<Seq<char>>> {
        self.dirs@.map_values(|d: Vec<String>| path_view(d@))
    }

    /// Metadata of a new, empty index in the given mode.
    pub fn new(mode: IndexMode) -> (m: IndexMeta)
        ensures
            m.wf(),
            m.mode == mode,
            m.dirs@.len() == 0,
            m.include_glob is None,
            m.exclude_glob is None,
            m.files@.len() == 0,
            m.last_sync is None,
            m.frontmatter_keys@.len() == 0,
    {
        IndexMeta {
            mode,
            dirs: Vec::new(),
            include_glob: None,
            exclude_glob: None,
            files: Vec::new(),
            last_sync: None,
            frontmatter_keys: Vec::new(),
        }
    }

    /// Registers a directory; `false`, with nothing changed, when it is
    /// registered already.
    pub fn add_dir(&mut self, dir: Vec<String>) -> (added: bool)
        ensures
            added == !old(self).dir_views().contains(path_view(dir@)),
            final(self).dir_views() == (if added {
                old(self).dir_views().push(path_view(dir@))
            } else {
                old(self).dir_views()
            }),
            final(self).mode == old(self).mode,
            final(self).files == old(self).files,
            final(self).include_glob == old(self).include_glob,
            final(self).exclude_glob == old(self).exclude_glob,
            final(self).last_sync == old(self).last_sync,
            final(self).frontmatter_keys == old(self).frontmatter_keys,
    {
        let ghost dv = self.dir_views();
        let mut i: usize = 0;
        while i < self.dirs.len()
            invariant
                i <= self.dirs.len(),
                dv == self.dir_views(),
                forall|k: int| 0 <= k < i ==> dv[k] != path_view(dir@),
            decreases self.dirs.len() - i,
        {
            if paths_equal(&self.dirs[i], &dir) {
                assert(dv[i as int] == path_view(dir@));
                return false;
            }
            i = i + 1;
        }
        let ghost pv = path_view(dir@);
        self.dirs.push(dir);
        assert(self.dir_views() =~= dv.push(pv));
        true
    }

    /// Marks the metadata as synced now.
    pub fn touch_sync(&mut self)
        ensures
            final(self).last_sync is Some,
            final(self).mode == old(self).mode,
            final(self).dirs == old(self).dirs,
            final(self).files == old(self).files,
            final(self).include_glob == old(self).include_glob,
            final(self).exclude_glob == old(self).exclude_glob,
            final(self).frontmatter_keys == old(self).frontmatter_keys,
    {
        self.last_sync = Some(now_utc());
    }

    /// Number of indexed files.
    pub fn doc_count(&self) -> (n: usize)
        ensures
            n == self.files@.len(),
    {
        self.files.len()
    }

    /// The recorded modification time of a file.
    pub fn recorded_mtime(&self, path: &String) -> (r: Option<u64>)
        requires
            self.wf(),
        ensures
            r == (if files_map(self.files@).contains_key(path@) {
                Some(files_map(self.files@)[path@])
            } else {
                None
            }),
    {
        proof {
            lemma_files_map(self.files@);
        }
        let mut i: usize = 0;
        while i < self.files.len()
            invariant
                i <= self.files.len(),
                distinct_paths(self.files@),
                forall|k: int| 0 <= k < i ==> #[trigger] self.files@[k].0@ != path@,
            decreases self.files.len() - i,
        {
            if self.files[i].0 == *path {
                proof {
                    lemma_files_map(self.files@);
                }
                assert(files_map(self.files@)[self.files@[i as int].0@] == self.files@[i as int].1.mtime);
                return Some(self.files[i].1.mtime);
            }
            i = i + 1;
        }
        None
    }

    /// Records a file's modification time, replacing an earlier record.
    pub fn record_file(&mut self, path: String, mtime: u64)
        requires
            old(self).wf(),
        ensures
            final(self).wf(),
            files_map(final(self).files@) == files_map(old(self).files@).insert(path@, mtime),
            final(self).mode == old(self).mode,
            final(self).dirs == old(self).dirs,
            final(self).include_glob == old(self).include_glob,
            final(self).exclude_glob == old(self).exclude_glob,
            final(self).last_sync == old(self).last_sync,
            final(self).frontmatter_keys == old(self).frontmatter_keys,
    {
        let ghost f0 = self.files@;
        proof {
            lemma_files_map(f0);
        }
        let mut i: usize = 0;
        while i < self.files.len()
            invariant
                i <= self.files.len(),
                *self == *old(self),
                old(self).wf(),
                self.files@ == f0,
                distinct_paths(f0),
                forall|k: int| 0 <= k < i ==> #[trigger] f0[k].0@ != path@,
            decreases self.files.len() - i,
        {
            if self.files[i].0 == path {
                self.files.set(i, (path, FileRecord { mtime }));
                proof {
                    lemma_files_map_update(f0, i as int, self.files@[i as int]);
                }
                return;
            }
            i = i + 1;
        }
        let ghost pv = path@;
        self.files.push((path, FileRecord { mtime }));
        proof {
            assert(self.files@.drop_last() == f0);
            assert forall|a: int, b: int| 0 <= a < b < self.files@.len() implies self.files@[a].0@
                != self.files@[b].0@ by {
                if b == f0.len() {
                    assert(f0[a].0@ != pv);
                }
            }
        }
    }

    /// Forgets a file.
    pub fn remove_file(&mut self, path: &String)
        requires
            old(self).wf(),
        ensures
            final(self).wf(),
            files_map(final(self).files@) == files_map(old(self).files@).remove(path@),
            final(self).mode == old(self).mode,
            final(self).dirs == old(self).dirs,
            final(self).include_glob == old(self).include_glob,
            final(self).exclude_glob == old(self).exclude_glob,
            final(self).last_sync == old(self).last_sync,
            final(self).frontmatter_keys == old(self).frontmatter_keys,
    {
        let ghost f0 = self.files@;
        proof {
            lemma_files_map(f0);
        }
        let mut i: usize = 0;
        while i < self.files.len()
            invariant
                i <= self.files.len(),
                *self == *old(self),
                old(self).wf(),
                self.files@ == f0,
                distinct_paths(f0),
                forall|k: int| 0 <= k < i ==> #[trigger] f0[k].0@ != path@,
            decreases self.files.len() - i,
        {
            if self.files[i].0 == *path {
                self.files.remove(i);
                proof {
                    lemma_files_map_remove(f0, i as int);
                }
                return;
            }
            i = i + 1;
        }
        proof {
            assert(!files_map(f0).contains_key(path@));
            assert(files_map(f0).remove(path@) =~= files_map(f0));
        }
    }

    /// Adds a frontmatter key unless it is known already.
    pub fn add_frontmatter_key(&mut self, key: String)
        requires
            old(self).wf(),
        ensures
            final(self).wf(),
            final(self).frontmatter_keys@.map_values(|k: String| k@).to_set() == old(
                self,
            ).frontmatter_keys@.map_values(|k: String| k@).to_set().insert(key@),
            final(self).mode == old(self).mode,
            final(self).dirs == old(self).dirs,
            final(self).files == old(self).files,
            final(self).include_glob == old(self).include_glob,
            final(self).exclude_glob == old(self).exclude_glob,
            final(self).last_sync == old(self).last_sync,
    {
        let ghost k0 = self.frontmatter_keys@.map_values(|k: String| k@);
        let mut i: usize = 0;
        while i < self.frontmatter_keys.len()
            invariant
                i <= self.frontmatter_keys.len(),
                *self == *old(self),
                old(self).wf(),
                distinct_strings(self.frontmatter_keys@),
                k0 == self.frontmatter_keys@.map_values(|k: String| k@),
                forall|k: int| 0 <= k < i ==> #[trigger] k0[k] != key@,
            decreases self.frontmatter_keys.len() - i,
        {
            if self.frontmatter_keys[i] == key {
                assert(k0.to_set().insert(key@) =~= k0.to_set()) by {
                    assert(k0[i as int] == key@);
                }
                return;
            }
            i = i + 1;
        }
        let ghost kv = key@;
        let ghost before = self.frontmatter_keys@;
        self.frontmatter_keys.push(key);
        assert(self.frontmatter_keys@.map_values(|k: String| k@) =~= k0.push(kv));
        assert(k0.push(kv).to_set() =~= k0.to_set().insert(kv)) by {
            assert forall|x: Seq<char>| k0.push(kv).to_set().contains(x) <==> k0.to_set().insert(kv).contains(x) by {
                if k0.push(kv).to_set().contains(x) {
                    let j = choose|j: int| 0 <= j < k0.push(kv).len() && k0.push(kv)[j] == x;
                    if j < k0.len() {
                        assert(k0[j] == x);
                    }
                }
                if k0.to_set().contains(x) {
                    let j = choose|j: int| 0 <= j < k0.len() && k0[j] == x;
                    assert(k0.push(kv)[j] == x);
                }
                if x == kv {
                    assert(k0.push(kv)[k0.len() as int] == x);
                }
            }
        }
        proof {
            assert forall|a: int, b: int| 0 <= a < b < self.frontmatter_keys@.len() implies self.frontmatter_keys@[a]@
                != self.frontmatter_keys@[b]@ by {
                if b == before.len() {
                    assert(k0[a] == before[a]@);
                }
            }
        }
    }
}

/// Whether two paths have the same components.
pub fn paths_equal(a: &Vec<String>, b: &Vec<String>) -> (r: bool)
    ensures
        r == (path_view(a@) == path_view(b@)),
{
    if a.len() != b.len() {
        assert(path_view(a@).len() != path_view(b@).len());
        return false;
    }
    let mut i: usize = 0;
    while i < a.len()
        invariant
            a.len() == b.len(),
            i <= a.len(),
            forall|k: int| 0 <= k < i ==> a@[k]@ == b@[k]@,
        decreases a.len() - i,
    {
        if a[i] != b[i] {
            assert(path_view(a@)[i as int] != path_view(b@)[i as int]);
            return false;
        }
        i = i + 1;
    }
    assert(path_view(a@) =~= path_view(b@));
    true
}

/// Whether `path` starts with the components of `prefix`.
pub fn path_has_prefix(path: &Vec<String>, prefix: &Vec<String>) -> (r: bool)
    ensures
        r == path_starts_with(path_view(path@), path_view(prefix@)),
{
    if prefix.len() > path.len() {
        return false;
    }
    let mut i: usize = 0;
    while i < prefix.len()
        invariant
            prefix.len() <= path.len(),
            i <= prefix.len(),
            forall|k: int| 0 <= k < i ==> path@[k]@ == prefix@[k]@,
        decreases prefix.len() - i,
    {
        if path[i] != prefix[i] {
            assert(path_view(path@)[i as int] != path_view(prefix@)[i as int]);
            return false;
        }
        i = i + 1;
    }
    assert(path_view(path@).subrange(0, prefix.len() as int) =~= path_view(prefix@));
    true
}

pub proof fn lemma_files_map(f: Seq<(String, FileRecord)>)
    ensures
        forall|k: Seq<char>|
            #[trigger] files_map(f).contains_key(k) <==> exists|i: int| 0 <= i < f.len() && f[i].0@ == k,
        distinct_paths(f) ==> forall|i: int|
            0 <= i < f.len() ==> #[trigger] files_map(f)[f[i].0@] == f[i].1.mtime,
    decreases f.len(),
{
    if f.len() > 0 {
        let g = f.drop_last();
        lemma_files_map(g);
        assert forall|k: Seq<char>| #[trigger] files_map(f).contains_key(k) <==> exists|i: int|
            0 <= i < f.len() && f[i].0@ == k by {
            if files_map(f).contains_key(k) && k != f.last().0@ {
                assert(files_map(g).contains_key(k));
                let i = choose|i: int| 0 <= i < g.len() && g[i].0@ == k;
                assert(f[i] == g[i]);
            }
            if exists|i: int| 0 <= i < f.len() && f[i].0@ == k {
                let i = choose|i: int| 0 <= i < f.len() && f[i].0@ == k;
                if i < g.len() {
                    assert(g[i] == f[i]);
                    assert(files_map(g).contains_key(k));
                }
            }
        }
        if distinct_paths(f) {
            assert(distinct_paths(g)) by {
                assert forall|a: int, b: int| 0 <= a < b < g.len() implies g[a].0@ != g[b].0@ by {
                    assert(g[a] == f[a] && g[b] == f[b]);
                }
            }
            assert forall|i: int| 0 <= i < f.len() implies #[trigger] files_map(f)[f[i].0@]
                == f[i].1.mtime by {
                if i < g.len() {
                    assert(g[i] == f[i]);
                    assert(f[i].0@ != f.last().0@);
                    assert(files_map(g)[g[i].0@] == g[i].1.mtime);
                }
            }
        }
    }
}

proof fn lemma_files_map_update(f: Seq<(String, FileRecord)>, i: int, x: (String, FileRecord))
    requires
        distinct_paths(f),
        0 <= i < f.len(),
        x.0@ == f[i].0@,
    ensures
        distinct_paths(f.update(i, x)),
        files_map(f.update(i, x)) == files_map(f).insert(x.0@, x.1.mtime),
{
    let g = f.update(i, x);
    assert(distinct_paths(g)) by {
        assert forall|a: int, b: int| 0 <= a < b < g.len() implies g[a].0@ != g[b].0@ by {
            assert(f[a].0@ != f[b].0@);
        }
    }
    lemma_files_map(f);
    lemma_files_map(g);
    assert forall|k: Seq<char>| files_map(g).contains_key(k) <==> files_map(f).insert(
        x.0@,
        x.1.mtime,
    ).contains_key(k) by {
        if files_map(g).contains_key(k) {
            let j = choose|j: int| 0 <= j < g.len() && g[j].0@ == k;
            if j != i {
                assert(f[j] == g[j]);
            }
        }
        if files_map(f).contains_key(k) {
            let j = choose|j: int| 0 <= j < f.len() && f[j].0@ == k;
            if j != i {
                assert(f[j] == g[j]);
            } else {
                assert(g[i].0@ == k);
            }
        }
        if k == x.0@ {
            assert(g[i].0@ == k);
        }
    }
    assert forall|k: Seq<char>| files_map(g).contains_key(k) implies files_map(g)[k] == files_map(f).insert(
        x.0@,
        x.1.mtime,
    )[k] by {
        let j = choose|j: int| 0 <= j < g.len() && g[j].0@ == k;
        assert(files_map(g)[g[j].0@] == g[j].1.mtime);
        if j != i {
            assert(f[j] == g[j]);
            assert(files_map(f)[f[j].0@] == f[j].1.mtime);
        }
    }
    assert(files_map(g) =~= files_map(f).insert(x.0@, x.1.mtime));
}

proof fn lemma_files_map_remove(f: Seq<(String, FileRecord)>, i: int)
    requires
        distinct_paths(f),
        0 <= i < f.len(),
    ensures
        distinct_paths(f.remove(i)),
        files_map(f.remove(i)) == files_map(f).remove(f[i].0@),
{
    let g = f.remove(i);
    let key = f[i].0@;
    assert(distinct_paths(g)) by {
        assert forall|a: int, b: int| 0 <= a < b < g.len() implies g[a].0@ != g[b].0@ by {
            let fa = if a < i { a } else { a + 1 };
            let fb = if b < i { b } else { b + 1 };
            assert(g[a] == f[fa] && g[b] == f[fb]);
        }
    }
    lemma_files_map(f);
    lemma_files_map(g);
    assert forall|k: Seq<char>| files_map(g).contains_key(k) <==> files_map(f).remove(key).contains_key(
        k,
    ) by {
        if files_map(g).contains_key(k) {
            let j = choose|j: int| 0 <= j < g.len() && g[j].0@ == k;
            let fj = if j < i { j } else { j + 1 };
            assert(g[j] == f[fj]);
        }
        if files_map(f).contains_key(k) && k != key {
            let j = choose|j: int| 0 <= j < f.len() && f[j].0@ == k;
            assert(j != i);
            let gj = if j < i { j } else { j - 1 };
            assert(g[gj] == f[j]);
        }
    }
    assert forall|k: Seq<char>| files_map(g).contains_key(k) implies files_map(g)[k] == files_map(f)[k] by {
        let j = choose|j: int| 0 <= j < g.len() && g[j].0@ == k;
        let fj = if j < i { j } else { j + 1 };
        assert(g[j] == f[fj]);
        assert(files_map(g)[g[j].0@] == g[j].1.mtime);
        assert(files_map(f)[f[fj].0@] == f[fj].1.mtime);
    }
    assert(files_map(g) =~= files_map(f).remove(key));
}

/// Rank of a path component in `std::path::Component` order: the root, the
/// current directory, the parent directory, then names.
pub open spec fn component_rank(c: Seq<char>) -> int {
    if c == seq!['/'] {
        0
    } else if c == seq!['.'] {
        1
    } else if c == seq!['.', '.'] {
        2
    } else {
        3
    }
}

/// Lexicographic order of character sequences by code point, which is the
/// byte order of their UTF-8 encodings.
pub open spec fn chars_lt(a: Seq<char>, b: Seq<char>) -> bool
    decreases a.len(),
{
    if a.len() == 0 {
        b.len() > 0
    } else if b.len() == 0 {
        false
    } else if a[0] != b[0] {
        (a[0] as u32) < (b[0] as u32)
    } else {
        chars_lt(a.drop_first(), b.drop_first())
    }
}

pub open spec fn component_lt(a: Seq<char>, b: Seq<char>) -> bool {
    component_rank(a) < component_rank(b) || (component_rank(a) == component_rank(b) && chars_lt(a, b))
}

/// The order of paths (`Path::cmp`): component by component.
pub open spec fn path_lt(a: Seq<Seq<char>>, b: Seq<Seq<char>>) -> bool
    decreases a.len(),
{
    if a.len() == 0 {
        b.len() > 0
    } else if b.len() == 0 {
        false
    } else if a[0] != b[0] {
        component_lt(a[0], b[0])
    } else {
        path_lt(a.drop_first(), b.drop_first())
    }
}

/// Whether `a` comes before `b` (see `chars_lt`).
pub fn chars_less(a: &Vec<char>, b: &Vec<char>) -> (r: bool)
    ensures
        r == chars_lt(a@, b@),
{
    let mut i: usize = 0;
    assert(a@.skip(0) == a@ && b@.skip(0) == b@);
    while i < a.len() && i < b.len() && a[i] == b[i]
        invariant
            i <= a.len(),
            i <= b.len(),
            chars_lt(a@, b@) == chars_lt(a@.skip(i as int), b@.skip(i as int)),
        decreases a.len() - i,
    {
        assert(a@.skip(i as int).drop_first() == a@.skip(i as int + 1));
        assert(b@.skip(i as int).drop_first() == b@.skip(i as int + 1));
        i = i + 1;
    }
    if i == a.len() {
        i < b.len()
    } else if i == b.len() {
        false
    } else {
        assert(a@.skip(i as int)[0] == a@[i as int]);
        assert(b@.skip(i as int)[0] == b@[i as int]);
        (a[i] as u32) < (b[i] as u32)
    }
}

fn rank_of(c: &Vec<char>) -> (r: u8)
    ensures
        r as int == component_rank(c@),
{
    if c.len() == 1 && c[0] == '/' {
        assert(c@ =~= seq!['/']);
        0
    } else if c.len() == 1 && c[0] == '.' {
        assert(c@ =~= seq!['.']);
        1
    } else if c.len() == 2 && c[0] == '.' && c[1] == '.' {
        assert(c@ =~= seq!['.', '.']);
        2
    } else {
        assert(c@ != seq!['/']) by {
            if c@ == seq!['/'] {
                assert(c@[0] == '/');
            }
        }
        assert(c@ != seq!['.']) by {
            if c@ == seq!['.'] {
                assert(c@[0] == '.');
            }
        }
        assert(c@ != seq!['.', '.']) by {
            if c@ == seq!['.', '.'] {
                assert(c@[0] == '.' && c@[1] == '.');
            }
        }
        3
    }
}

/// Whether path `a` comes before path `b`.
pub fn path_less(a: &Vec<String>, b: &Vec<String>) -> (r: bool)
    ensures
        r == path_lt(path_view(a@), path_view(b@)),
{
    let ghost av = path_view(a@);
    let ghost bv = path_view(b@);
    let mut i: usize = 0;
    assert(av.skip(0) == av && bv.skip(0) == bv);
    while i < a.len() && i < b.len() && a[i] == b[i]
        invariant
            i <= a.len(),
            i <= b.len(),
            av == path_view(a@),
            bv == path_view(b@),
            path_lt(av, bv) == path_lt(av.skip(i as int), bv.skip(i as int)),
        decreases a.len() - i,
    {
        assert(av.skip(i as int).drop_first() =~= av.skip(i as int + 1));
        assert(bv.skip(i as int).drop_first() =~= bv.skip(i as int + 1));
        i = i + 1;
    }
    if i == a.len() {
        i < b.len()
    } else if i == b.len() {
        false
    } else {
        assert(av.skip(i as int)[0] == a@[i as int]@);
        assert(bv.skip(i as int)[0] == b@[i as int]@);
        let ca = chars_of(a[i].as_str());
        let cb = chars_of(b[i].as_str());
        let ra = rank_of(&ca);
        let rb = rank_of(&cb);
        ra < rb || (ra == rb && chars_less(&ca, &cb))
    }
}

/// Whether time `a` is earlier than `b`, no time being the earliest.
pub fn opt_time_less(a: Option<SyncTime>, b: Option<SyncTime>) -> (r: bool)
    ensures
        r == opt_time_lt(a, b),
{
    match (a, b) {
        (None, Some(_)) => true,
        (Some(x), Some(y)) => x.secs < y.secs || (x.secs == y.secs && x.nanos < y.nanos),
        _ => false,
    }
}

pub proof fn lemma_chars_lt_order(a: Seq<char>, b: Seq<char>, c: Seq<char>)
    ensures
        !chars_lt(a, a),
        chars_lt(a, b) && chars_lt(b, c) ==> chars_lt(a, c),
    decreases a.len(),
{
    if a.len() > 0 {
        lemma_chars_lt_order(a.drop_first(), a.drop_first(), a.drop_first());
        if b.len() > 0 && c.len() > 0 {
            lemma_chars_lt_order(a.drop_first(), b.drop_first(), c.drop_first());
        }
    }
}

/// Two different character sequences are ordered one way or the other.
pub proof fn lemma_chars_lt_total(a: Seq<char>, b: Seq<char>)
    ensures
        a != b ==> chars_lt(a, b) || chars_lt(b, a),
    decreases a.len(),
{
    if a.len() == 0 && b.len() == 0 {
        assert(a =~= b);
    } else if a.len() > 0 && b.len() > 0 {
        if a[0] == b[0] {
            lemma_chars_lt_total(a.drop_first(), b.drop_first());
            if a.drop_first() == b.drop_first() {
                assert(a =~= seq![a[0]] + a.drop_first());
                assert(b =~= seq![b[0]] + b.drop_first());
            }
        } else {
            let x = a[0];
            let y = b[0];
            if (x as u32) == (y as u32) {
                vstd::utf8::char_u32_cast(x, x as u32);
                vstd::utf8::char_u32_cast(y, y as u32);
            }
        }
    }
}

proof fn lemma_component_lt_order(a: Seq<char>, b: Seq<char>, c: Seq<char>)
    ensures
        !component_lt(a, a),
        component_lt(a, b) && component_lt(b, c) ==> component_lt(a, c),
{
    lemma_chars_lt_order(a, b, c);
}

pub proof fn lemma_path_lt_order(a: Seq<Seq<char>>, b: Seq<Seq<char>>, c: Seq<Seq<char>>)
    ensures
        !path_lt(a, a),
        path_lt(a, b) && path_lt(b, c) ==> path_lt(a, c),
    decreases a.len(),
{
    if a.len() > 0 {
        lemma_path_lt_order(a.drop_first(), a.drop_first(), a.drop_first());
        if b.len() > 0 && c.len() > 0 {
            lemma_path_lt_order(a.drop_first(), b.drop_first(), c.drop_first());
            lemma_component_lt_order(a[0], b[0], c[0]);
            lemma_component_lt_order(a[0], a[0], a[0]);
            lemma_component_lt_order(b[0], b[0], b[0]);
        }
    }
}

pub proof fn lemma_opt_time_lt_order(a: Option<SyncTime>, b: Option<SyncTime>, c: Option<SyncTime>)
    ensures
        !opt_time_lt(a, a),
        opt_time_lt(a, b) && opt_time_lt(b, c) ==> opt_time_lt(a, c),
{
}

} // verus!
