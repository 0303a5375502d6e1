//! The registry of named indexes: index name to index directory.
use vstd::prelude::*;

use crate::meta::path_view;
use crate::text::chars_of;

verus! {

/// Named indexes, as (name, index directory); no name occurs twice.
pub struct Registry {
    pub indices: Vec<(String, String)>,
}

/// Why a name could not be resolved.
#[derive(Debug)]
pub enum RegistryError {
    /// No index of this name is registered.
    NotFound(String),
}

/// The registry as a map from name to index directory.
pub open spec fn registry_map(v: Seq<(String, String)>) -> Map<Seq<char>, Seq<char>>
    decreases v.len(),
{
    if v.len() == 0 {
        Map::empty()
    } else {
        registry_map(v.drop_last()).insert(v.last().0@, v.last().1@)
    }
}

pub open spec fn distinct_names(v: Seq<(String, String)>) -> bool {
    forall|i: int, j: int| 0 <= i < j < v.len() ==> v[i].0@ != v[j].0@
}

/// Names that start with `/` or `.` are paths and bypass the registry.
pub open spec fn is_path_like(s: Seq<char>) -> bool {
    s.len() > 0 && (s[0] == '/' || s[0] == '.')
}

/// What resolving a name or path gives in a registry.
pub open spec fn spec_resolve(m: Map<Seq<char>, Seq<char>>, name_or_path: Seq<char>) -> Result<
    Seq<char>,
    Seq<char>,
> {
    if is_path_like(name_or_path) {
        Ok(name_or_path)
    } else if m.contains_key(name_or_path) {
        Ok(m[name_or_path])
    } else {
        Err(name_or_path)
    }
}

pub proof fn lemma_registry_map(f: Seq<(String, String)>)
    ensures
        forall|k: Seq<char>|
            #[trigger] registry_map(f).contains_key(k) <==> exists|i: int| 0 <= i < f.len() && f[i].0@ == k,
        distinct_names(f) ==> forall|i: int|
            0 <= i < f.len() ==> #[trigger] registry_map(f)[f[i].0@] == f[i].1@,
    decreases f.len(),
{
    if f.len() > 0 {
        let g = f.drop_last();
        lemma_registry_map(g);
        assert forall|k: Seq<char>| #[trigger] registry_map(f).contains_key(k) <==> exists|i: int|
            0 <= i < f.len() && f[i].0@ == k by {
            if registry_map(f).contains_key(k) && k != f.last().0@ {
                assert(registry_map(g).contains_key(k));
                let i = choose|i: int| 0 <= i < g.len() && g[i].0@ == k;
                assert(f[i] == g[i]);
            }
            if exists|i: int| 0 <= i < f.len() && f[i].0@ == k {
                let i = choose|i: int| 0 <= i < f.len() && f[i].0@ == k;
                if i < g.len() {
                    assert(g[i] == f[i]);
                    assert(registry_map(g).contains_key(k));
                }
            }
        }
        if distinct_names(f) {
            assert(distinct_names(g)) by {
                assert forall|a: int, b: int| 0 <= a < b < g.len() implies g[a].0@ != g[b].0@ by {
                    assert(g[a] == f[a] && g[b] == f[b]);
                }
            }
            assert forall|i: int| 0 <= i < f.len() implies #[trigger] registry_map(f)[f[i].0@]
                == f[i].1@ by {
                if i < g.len() {
                    assert(g[i] == f[i]);
                    assert(f[i].0@ != f.last().0@);
                    assert(registry_map(g)[g[i].0@] == g[i].1@);
                }
            }
        }
    }
}

impl Registry {
    /// No name occurs twice.
    pub open spec fn wf(&self) -> bool {
        distinct_names(self.indices@)
    }

    pub open spec fn view_map(&self) -> Map<Seq<char>, Seq<char>> {
        registry_map(self.indices@)
    }

    /// Records `name` as the name of the index at `index_path`, replacing
    /// an earlier entry of that name.
    pub fn register(&mut self, name: &str, index_path: &str)
        requires
            old(self).wf(),
        ensures
            final(self).wf(),
            final(self).view_map() == old(self).view_map().insert(name@, index_path@),
    {
        let ghost f0 = self.indices@;
        let n = String::from_str(name);
        let p = String::from_str(index_path);
        let mut i: usize = 0;
        while i < self.indices.len()
            invariant
                i <= self.indices.len(),
                self.indices@ == f0,
                f0 == old(self).indices@,
                distinct_names(f0),
                n@ == name@,
                p@ == index_path@,
                forall|k: int| 0 <= k < i ==> #[trigger] f0[k].0@ != name@,
            decreases self.indices.len() - i,
        {
            if self.indices[i].0 == n {
                self.indices.set(i, (n, p));
                proof {
                    let g = self.indices@;
                    assert(distinct_names(g)) by {
                        assert forall|a: int, b: int| 0 <= a < b < g.len() implies g[a].0@ != g[b].0@ by {
                            assert(f0[a].0@ != f0[b].0@);
                        }
                    }
                    lemma_registry_map(f0);
                    lemma_registry_map(g);
                    let m = registry_map(f0).insert(name@, index_path@);
                    assert forall|k: Seq<char>| registry_map(g).contains_key(k) <==> m.contains_key(k) by {
                        if registry_map(g).contains_key(k) {
                            let j = choose|j: int| 0 <= j < g.len() && g[j].0@ == k;
                            if j != i {
                                assert(f0[j] == g[j]);
                            }
                        }
                        if registry_map(f0).contains_key(k) {
                            let j = choose|j: int| 0 <= j < f0.len() && f0[j].0@ == k;
                            if j != i {
                                assert(f0[j] == g[j]);
                            } else {
                                assert(g[i as int].0@ == k);
                            }
                        }
                        if k == name@ {
                            assert(g[i as int].0@ == k);
                        }
                    }
                    assert forall|k: Seq<char>| registry_map(g).contains_key(k) implies registry_map(g)[k] == m[k] by {
                        let j = choose|j: int| 0 <= j < g.len() && g[j].0@ == k;
                        assert(registry_map(g)[g[j].0@] == g[j].1@);
                        if j != i {
                            assert(f0[j] == g[j]);
                            assert(registry_map(f0)[f0[j].0@] == f0[j].1@);
                        }
                    }
                    assert(registry_map(g) =~= m);
                }
                return;
            }
            i = i + 1;
        }
        self.indices.push((n, p));
        proof {
            assert(self.indices@.drop_last() == f0);
            assert forall|a: int, b: int| 0 <= a < b < self.indices@.len() implies self.indices@[a].0@
                != self.indices@[b].0@ by {
                if b == f0.len() {
                    assert(f0[a].0@ != name@);
                }
            }
        }
    }

    /// The index directory of a name; a name starting with `/` or `.` is a
    /// path and is given back as it is.
    pub fn resolve(&self, name_or_path: &str) -> (r: Result<String, RegistryError>)
        requires
            self.wf(),
        ensures
            match spec_resolve(self.view_map(), name_or_path@) {
                Ok(p) => r matches Ok(s) && s@ == p,
                Err(n) => r matches Err(RegistryError::NotFound(s)) && s@ == n,
            },
    {
        let v = chars_of(name_or_path);
        if v.len() > 0 && (v[0] == '/' || v[0] == '.') {
            return Ok(String::from_str(name_or_path));
        }
        proof {
            lemma_registry_map(self.indices@);
        }
        let n = String::from_str(name_or_path);
        let mut i: usize = 0;
        while i < self.indices.len()
            invariant
                i <= self.indices.len(),
                n@ == name_or_path@,
                !is_path_like(name_or_path@),
                distinct_names(self.indices@),
                forall|k: int| 0 <= k < i ==> #[trigger] self.indices@[k].0@ != name_or_path@,
            decreases self.indices.len() - i,
        {
            if self.indices[i].0 == n {
                proof {
                    lemma_registry_map(self.indices@);
                }
                assert(registry_map(self.indices@)[self.indices@[i as int].0@] == self.indices@[i as int].1@);
                assert(registry_map(self.indices@).contains_key(name_or_path@));
                return Ok(self.indices[i].1.clone());
            }
            i = i + 1;
        }
        proof {
            lemma_registry_map(self.indices@);
        }
        Err(RegistryError::NotFound(n))
    }
}

impl Default for Registry {
    fn default() -> (r: Registry)
        ensures
            r.wf(),
            r.indices@.len() == 0,
    {
        Registry { indices: Vec::new() }
    }
}

/// Resolving a name just registered gives the registered directory, and
/// registering leaves every other name resolving as before.
pub proof fn lemma_resolve_after_register(
    before: Registry,
    after: Registry,
    name: Seq<char>,
    path: Seq<char>,
    other: Seq<char>,
)
    requires
        after.view_map() == before.view_map().insert(name, path),
        !is_path_like(name),
    ensures
        spec_resolve(after.view_map(), name) == Ok::<Seq<char>, Seq<char>>(path),
        other != name ==> spec_resolve(after.view_map(), other) == spec_resolve(before.view_map(), other),
{
}

/// A directory given by an environment variable or, where it is unset, the
/// home directory (`/tmp` without one) followed by `fallback`.
pub open spec fn spec_env_dir(
    var: Option<Seq<Seq<char>>>,
    home: Option<Seq<Seq<char>>>,
    fallback: Seq<Seq<char>>,
) -> Seq<Seq<char>> {
    match var {
        Some(d) => d,
        None => match home {
            Some(h) => h + fallback,
            None => seq!["/"@, "tmp"@] + fallback,
        },
    }
}

pub open spec fn opt_path_view(p: Option<Vec<String>>) -> Option<Seq<Seq<char>>> {
    match p {
        Some(v) => Some(path_view(v@)),
        None => None,
    }
}

fn push_component(v: &mut Vec<String>, c: &str)
    ensures
        path_view(final(v)@) == path_view(old(v)@).push(c@),
{
    let ghost before = path_view(v@);
    v.push(String::from_str(c));
    assert(path_view(v@) =~= before.push(c@));
}

fn env_dir(var: Option<Vec<String>>, home: Option<Vec<String>>, fallback: &Vec<String>) -> (r: Vec<String>)
    ensures
        path_view(r@) == spec_env_dir(opt_path_view(var), opt_path_view(home), path_view(fallback@)),
{
    match var {
        Some(d) => d,
        None => {
            let mut r = match home {
                Some(h) => h,
                None => {
                    let mut t: Vec<String> = Vec::new();
                    push_component(&mut t, "/");
                    push_component(&mut t, "tmp");
                    assert(path_view(t@) =~= seq!["/"@, "tmp"@]);
                    t
                },
            };
            let ghost base = path_view(r@);
            for i in 0..fallback.len()
                invariant
                    path_view(r@) == base + path_view(fallback@).take(i as int),
            {
                push_component(&mut r, fallback[i].as_str());
                assert(path_view(fallback@).take(i as int + 1) =~= path_view(fallback@).take(i as int).push(
                    fallback@[i as int]@,
                ));
            }
            assert(path_view(fallback@).take(fallback.len() as int) == path_view(fallback@));
            r
        },
    }
}

/// The registry file: `$XDG_CONFIG_HOME` (else `~/.config`), then
/// `ftgrep/registry.json`; the arguments are the components of the
/// environment's values.
pub fn registry_path(xdg_config_home: Option<Vec<String>>, home: Option<Vec<String>>) -> (r: Vec<String>)
    ensures
        path_view(r@) == spec_env_dir(opt_path_view(xdg_config_home), opt_path_view(home), seq![".config"@])
            + seq!["ftgrep"@, "registry.json"@],
{
    let mut fallback: Vec<String> = Vec::new();
    push_component(&mut fallback, ".config");
    assert(path_view(fallback@) =~= seq![".config"@]);
    let mut r = env_dir(xdg_config_home, home, &fallback);
    let ghost base = path_view(r@);
    push_component(&mut r, "ftgrep");
    push_component(&mut r, "registry.json");
    assert(path_view(r@) =~= base + seq!["ftgrep"@, "registry.json"@]);
    r
}

/// The directory that holds the indexes of a mode: `$XDG_DATA_HOME` (else
/// `~/.local/share`), then `ftgrep/indices/line` or `ftgrep/indices/file`.
pub fn indices_dir(xdg_data_home: Option<Vec<String>>, home: Option<Vec<String>>, by_file: bool) -> (r: Vec<String>)
    ensures
        path_view(r@) == spec_env_dir(opt_path_view(xdg_data_home), opt_path_view(home), seq![".local"@, "share"@])
            + seq!["ftgrep"@, "indices"@, if by_file { "file"@ } else { "line"@ }],
{
    let mut fallback: Vec<String> = Vec::new();
    push_component(&mut fallback, ".local");
    push_component(&mut fallback, "share");
    assert(path_view(fallback@) =~= seq![".local"@, "share"@]);
    let mut r = env_dir(xdg_data_home, home, &fallback);
    let ghost base = path_view(r@);
    push_component(&mut r, "ftgrep");
    push_component(&mut r, "indices");
    push_component(&mut r, if by_file { "file" } else { "line" });
    assert(path_view(r@) =~= base + seq!["ftgrep"@, "indices"@, if by_file { "file"@ } else { "line"@ }]);
    r
}

/// Where a named index lives unless a path is given: the indices directory of
/// its mode (see `indices_dir`), then the name.
pub fn default_index_path(
    xdg_data_home: Option<Vec<String>>,
    home: Option<Vec<String>>,
    name: &str,
    by_file: bool,
) -> (r: Vec<String>)
    ensures
        path_view(r@) == spec_env_dir(opt_path_view(xdg_data_home), opt_path_view(home), seq![".local"@, "share"@])
            + seq!["ftgrep"@, "indices"@, if by_file { "file"@ } else { "line"@ }, name@],
{
    let mut r = indices_dir(xdg_data_home, home, by_file);
    let ghost base = path_view(r@);
    push_component(&mut r, name);
    assert(path_view(r@) =~= base.push(name@));
    r
}

} // verus!
