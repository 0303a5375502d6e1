//! What gets indexed: which files a pattern selects, how frontmatter is
//! separated from the body, which documents a file yields, and what a sync
//! has to delete and re-index.
use vstd::prelude::*;
use vstd::string::StringSliceAdditionalSpecFns;

use crate::meta::{distinct_paths, files_map, lemma_files_map, FileRecord, IndexMeta};
use crate::matching::{first_occurrence, first_occurrence_from, lemma_first_occurrence};
use crate::text::{
    chars_of, chars_range, find_char, first_index_of, lemma_first_index_of, push_range,
    skip_class_backward, skip_class_forward, string_from_chars, trim, CharClass,
};

verus! {

/// Glob matching over bytes: `**` matches any bytes, `*` any bytes but `/`,
/// every other byte itself.
pub open spec fn glob(p: Seq<u8>, t: Seq<u8>) -> bool
    decreases p.len(), 0int, 0int,
{
    if p.len() == 0 {
        t.len() == 0
    } else if p.len() >= 2 && p[0] == 42u8 && p[1] == 42u8 {
        glob_from(p.skip(2), t, 0, true)
    } else if p[0] == 42u8 {
        glob_from(p.skip(1), t, 0, false)
    } else {
        t.len() > 0 && p[0] == t[0] && glob(p.skip(1), t.skip(1))
    }
}

/// Whether `rest` matches `t` after skipping `k` bytes for some `k >= i`;
/// unless `cross`, the skipped bytes hold no `/`.
pub open spec fn glob_from(rest: Seq<u8>, t: Seq<u8>, i: int, cross: bool) -> bool
    decreases rest.len(), 1int, t.len() + 1 - i,
{
    if i < 0 || i > t.len() {
        false
    } else if !cross && i > 0 && t[i - 1] == 47u8 {
        false
    } else {
        glob(rest, t.skip(i)) || glob_from(rest, t, i + 1, cross)
    }
}

fn glob_at(p: &[u8], pi: usize, t: &[u8], ti: usize) -> (b: bool)
    requires
        pi <= p@.len(),
        ti <= t@.len(),
    ensures
        b == glob(p@.skip(pi as int), t@.skip(ti as int)),
    decreases p@.len() - pi,
{
    let ghost ps = p@.skip(pi as int);
    let ghost ts = t@.skip(ti as int);
    if pi == p.len() {
        return ti == t.len();
    }
    if p.len() - pi >= 2 && p[pi] == 42u8 && p[pi + 1] == 42u8 {
        assert(ps.skip(2) == p@.skip(pi + 2));
        assert(ps[0] == p@[pi as int] && ps[1] == p@[pi + 1]);
        assert(glob(ps, ts) == glob_from(p@.skip(pi + 2), ts, 0, true));
        let m = t.len() - ti;
        let mut i: usize = 0;
        loop
            invariant
                ti <= t@.len(),
                m == t.len() - ti,
                pi + 2 <= p.len(),
                p.len() == p@.len(),
                t.len() == t@.len(),
                ts == t@.skip(ti as int),
                ps == p@.skip(pi as int),
                glob(ps, ts) == glob_from(p@.skip(pi + 2), ts, 0, true),
                i <= m,
                glob_from(p@.skip(pi + 2), ts, 0, true) == glob_from(p@.skip(pi + 2), ts, i as int, true),
            decreases m - i,
        {
            assert(ts.skip(i as int) == t@.skip(ti + i));
            if glob_at(p, pi + 2, t, ti + i) {
                return true;
            }
            if i == m {
                assert(!glob_from(p@.skip(pi + 2), ts, i + 1, true));
                return false;
            }
            i = i + 1;
        }
    }
    if p[pi] == 42u8 {
        assert(ps.skip(1) == p@.skip(pi + 1));
        assert(ps[0] == p@[pi as int]);
        assert(!(ps.len() >= 2 && ps[1] == 42u8));
        assert(glob(ps, ts) == glob_from(p@.skip(pi + 1), ts, 0, false));
        let m = t.len() - ti;
        let mut i: usize = 0;
        loop
            invariant
                ti <= t@.len(),
                m == t.len() - ti,
                pi + 1 <= p.len(),
                p.len() == p@.len(),
                t.len() == t@.len(),
                ts == t@.skip(ti as int),
                ps == p@.skip(pi as int),
                glob(ps, ts) == glob_from(p@.skip(pi + 1), ts, 0, false),
                i <= m,
                glob_from(p@.skip(pi + 1), ts, 0, false) == glob_from(p@.skip(pi + 1), ts, i as int, false),
            decreases m - i,
        {
            if i > 0 && t[ti + i - 1] == 47u8 {
                assert(ts[i - 1] == t@[ti + i - 1]);
                return false;
            }
            assert(ts.skip(i as int) == t@.skip(ti + i));
            if glob_at(p, pi + 1, t, ti + i) {
                return true;
            }
            if i == m {
                assert(!glob_from(p@.skip(pi + 1), ts, i + 1, false));
                return false;
            }
            i = i + 1;
        }
    }
    if ti == t.len() {
        return false;
    }
    assert(ps.skip(1) == p@.skip(pi + 1));
    assert(ts.skip(1) == t@.skip(ti + 1));
    p[pi] == t[ti] && glob_at(p, pi + 1, t, ti + 1)
}

/// A pattern without `*` matches exactly itself.
pub proof fn lemma_glob_literal(p: Seq<u8>, t: Seq<u8>)
    requires
        forall|i: int| 0 <= i < p.len() ==> p[i] != 42u8,
    ensures
        glob(p, t) <==> p == t,
    decreases p.len(),
{
    if p.len() > 0 {
        assert(p[0] != 42u8);
        assert forall|i: int| 0 <= i < p.skip(1).len() implies p.skip(1)[i] != 42u8 by {
            assert(p.skip(1)[i] == p[i + 1]);
        }
        if t.len() > 0 {
            lemma_glob_literal(p.skip(1), t.skip(1));
            if p == t {
                assert(p.skip(1) == t.skip(1));
            }
            if p[0] == t[0] && p.skip(1) == t.skip(1) {
                assert(p.len() == t.len());
                assert forall|i: int| 0 <= i < p.len() implies p[i] == t[i] by {
                    if i > 0 {
                        assert(p[i] == p.skip(1)[i - 1]);
                        assert(t[i] == t.skip(1)[i - 1]);
                    }
                }
                assert(p =~= t);
            }
        } else {
            assert(p != t);
        }
    } else {
        if t.len() == 0 {
            assert(p =~= t);
        }
    }
}

/// A single `*` never matches across a `/`, and `**` matches any text.
pub proof fn lemma_glob_stars(t: Seq<u8>)
    ensures
        glob(seq![42u8], t) <==> !t.contains(47u8),
        glob(seq![42u8, 42u8], t),
{
    let star = seq![42u8];
    assert(star.skip(1) =~= Seq::<u8>::empty());
    let stars = seq![42u8, 42u8];
    assert(stars.skip(2) =~= Seq::<u8>::empty());
    lemma_glob_from_empty_rest(t, 0, false);
    lemma_glob_from_empty_rest(t, 0, true);
}

proof fn lemma_glob_from_empty_rest(t: Seq<u8>, i: int, cross: bool)
    requires
        0 <= i <= t.len(),
        !cross ==> forall|k: int| 0 <= k < i - 1 ==> t[k] != 47u8,
    ensures
        glob_from(Seq::<u8>::empty(), t, i, cross) <==> (cross || forall|k: int| 0 <= k < t.len() ==> t[k] != 47u8),
    decreases t.len() - i,
{
    if !cross && i > 0 && t[i - 1] == 47u8 {
        assert(t.contains(47u8)) by {
            assert(t[i - 1] == 47u8);
        }
    } else if i == t.len() {
        assert(glob(Seq::<u8>::empty(), t.skip(i)));
    } else {
        assert(!glob(Seq::<u8>::empty(), t.skip(i)));
        lemma_glob_from_empty_rest(t, i + 1, cross);
    }
}

/// Minimal glob matching: `*` matches any run of characters without a path
/// separator, `**` any run at all.
pub fn glob_match(pattern: &str, text: &str) -> (b: bool)
    ensures
        b == glob(pattern.spec_bytes(), text.spec_bytes()),
{
    let p = pattern.as_bytes();
    let t = text.as_bytes();
    assert(p@.skip(0) == p@);
    assert(t@.skip(0) == t@);
    glob_at(p, 0, t, 0)
}

/// Whether a path passes the include_glob pattern (if any) and misses the
/// exclude_glob pattern (if any).
pub open spec fn spec_matches_patterns(name: &str, include_glob: Option<&str>, exclude_glob: Option<&str>) -> bool {
    (match include_glob {
        Some(p) => glob(p.spec_bytes(), name.spec_bytes()),
        None => true,
    }) && (match exclude_glob {
        Some(p) => !glob(p.spec_bytes(), name.spec_bytes()),
        None => true,
    })
}

/// Whether the path `name` is selected by the include_glob and exclude_glob patterns.
pub fn matches_patterns(name: &str, include_glob: Option<&str>, exclude_glob: Option<&str>) -> (b: bool)
    ensures
        b == spec_matches_patterns(name, include_glob, exclude_glob),
{
    if let Some(pat) = include_glob {
        if !glob_match(pat, name) {
            return false;
        }
    }
    if let Some(pat) = exclude_glob {
        if glob_match(pat, name) {
            return false;
        }
    }
    true
}

/// The lines of `s`: the pieces between `\n` characters, in order.
pub open spec fn split_lines(s: Seq<char>) -> Seq<Seq<char>>
    decreases s.len(),
{
    if s.len() == 0 {
        seq![seq![]]
    } else {
        let ls = split_lines(s.drop_last());
        if s.last() == '\n' {
            ls.push(seq![])
        } else {
            ls.update(ls.len() - 1, ls.last().push(s.last()))
        }
    }
}

pub proof fn lemma_split_lines_len(s: Seq<char>)
    ensures
        split_lines(s).len() >= 1,
    decreases s.len(),
{
    if s.len() > 0 {
        lemma_split_lines_len(s.drop_last());
    }
}

/// Where the frontmatter of `c` ends: `c` opens with `---` and the index
/// (counted after those three characters) of the first `\n---` after them.
pub open spec fn frontmatter_close(c: Seq<char>) -> Option<int> {
    if seq!['-', '-', '-'].is_prefix_of(c) {
        first_occurrence_from(c.skip(3), seq!['\n', '-', '-', '-'], 0)
    } else {
        None
    }
}

/// The text after the closing `---` of a frontmatter block, or the whole
/// text when it opens with none.
pub open spec fn spec_strip_frontmatter(c: Seq<char>) -> Seq<char> {
    match frontmatter_close(c) {
        Some(e) => c.skip(3 + e + 4),
        None => c,
    }
}

/// Finds the end of the frontmatter block, see `frontmatter_close`.
fn frontmatter_close_exec(v: &Vec<char>) -> (r: Option<usize>)
    ensures
        match frontmatter_close(v@) {
            Some(e) => r == Some(e as usize),
            None => r is None,
        },
        r matches Some(x) ==> 3 + x + 4 <= v.len(),
        frontmatter_close(v@) matches Some(e) ==> 0 <= e && 3 + e + 4 <= v.len(),
{
    if v.len() < 3 || v[0] != '-' || v[1] != '-' || v[2] != '-' {
        assert(!seq!['-', '-', '-'].is_prefix_of(v@)) by {
            if seq!['-', '-', '-'].is_prefix_of(v@) {
                assert(v@.subrange(0, 3) =~= seq!['-', '-', '-']);
                assert(v@[0] == v@.subrange(0, 3)[0]);
                assert(v@[1] == v@.subrange(0, 3)[1]);
                assert(v@[2] == v@.subrange(0, 3)[2]);
            }
        }
        return None;
    }
    assert(seq!['-', '-', '-'].is_prefix_of(v@)) by {
        assert(v@.subrange(0, 3) =~= seq!['-', '-', '-']);
    }
    let rest = chars_range(v, 3, v.len());
    assert(rest@ == v@.skip(3));
    let mut pat: Vec<char> = Vec::new();
    pat.push('\n');
    pat.push('-');
    pat.push('-');
    pat.push('-');
    assert(pat@ =~= seq!['\n', '-', '-', '-']);
    let r = first_occurrence(&rest, &pat);
    proof {
        lemma_first_occurrence(rest@, pat@, 0);
    }
    r
}

/// Removes a leading frontmatter block (`---` ... `\n---`), keeping what
/// follows the closing `---`.
pub fn strip_frontmatter(content: &str) -> (res: &str)
    ensures
        res@ == spec_strip_frontmatter(content@),
{
    let v = chars_of(content);
    match frontmatter_close_exec(&v) {
        Some(e) => {
            assert(frontmatter_close(content@) == Some(e as int));
            assert(content@.subrange(3 + e + 4, v.len() as int) =~= content@.skip(3 + e + 4));
            let r = content.substring_char(3 + e + 4, v.len());
            assert(r@ == spec_strip_frontmatter(content@));
            r
        },
        None => {
            assert(frontmatter_close(content@) is None);
            content
        },
    }
}

/// A frontmatter line `key: value` as (trimmed key, trimmed value), split at
/// its first `:`; `None` without a `:` or with an empty key.
pub open spec fn line_pair(line: Seq<char>) -> Option<(Seq<char>, Seq<char>)> {
    match first_index_of(line, ':') {
        Some(i) => {
            let k = trim(line.take(i));
            if k.len() > 0 {
                Some((k, trim(line.skip(i + 1))))
            } else {
                None
            }
        },
        None => None,
    }
}

/// A frontmatter line `key: value` splits at its first colon: the key before
/// it and the whole rest of the line after it, colons included, each
/// trimmed.
pub proof fn lemma_line_pair_first_colon(k: Seq<char>, v: Seq<char>)
    requires
        !k.contains(':'),
        trim(k).len() > 0,
    ensures
        line_pair(k + seq![':'] + v) == Some((trim(k), trim(v))),
{
    let line = k + seq![':'] + v;
    lemma_first_index_of(line, ':');
    assert(line[k.len() as int] == ':');
    match first_index_of(line, ':') {
        Some(i) => {
            if i < k.len() {
                assert(line[i] == k[i]);
                assert(k.contains(':'));
            }
            assert(i == k.len());
            assert(line.take(i) =~= k);
            assert(line.skip(i + 1) =~= v);
        },
        None => {
            assert(false);
        },
    }
}

/// The pairs of a frontmatter block of one line `key: value` (no line
/// break): that key and the whole rest of the line, each trimmed.
pub proof fn lemma_one_line_frontmatter(k: Seq<char>, v: Seq<char>)
    requires
        !k.contains(':'),
        !k.contains('\n'),
        !v.contains('\n'),
        trim(k).len() > 0,
    ensures
        spec_frontmatter_pairs(k + seq![':'] + v) == seq![(trim(k), trim(v))],
{
    let line = k + seq![':'] + v;
    assert(!line.contains('\n')) by {
        if line.contains('\n') {
            let j = choose|j: int| 0 <= j < line.len() && line[j] == '\n';
            if j < k.len() {
                assert(k[j] == '\n');
            } else if j > k.len() {
                assert(v[j - k.len() - 1] == '\n');
            }
        }
    }
    lemma_split_lines_single(line);
    lemma_line_pair_first_colon(k, v);
    let ls = split_lines(line);
    assert(ls.drop_last() =~= Seq::<Seq<char>>::empty());
    assert(lines_pairs(ls.drop_last()) == Seq::<(Seq<char>, Seq<char>)>::empty());
}

/// A text without line breaks is a single line.
proof fn lemma_split_lines_single(s: Seq<char>)
    requires
        !s.contains('\n'),
    ensures
        split_lines(s) == seq![s],
    decreases s.len(),
{
    if s.len() == 0 {
        assert(s =~= Seq::<char>::empty());
        assert(split_lines(s) =~= seq![s]);
    } else {
        let t = s.drop_last();
        assert(!t.contains('\n')) by {
            if t.contains('\n') {
                let j = choose|j: int| 0 <= j < t.len() && t[j] == '\n';
                assert(s[j] == '\n');
            }
        }
        lemma_split_lines_single(t);
        assert(s.last() != '\n') by {
            assert(s[s.len() - 1] == s.last());
        }
        assert(t.push(s.last()) =~= s);
        let ls = split_lines(t);
        assert(ls.update(ls.len() - 1, ls.last().push(s.last())) =~= seq![s]);
        assert(split_lines(s) =~= seq![s]);
    }
}

/// Sets `key` to `val`: in place when the key is present, appended otherwise.
pub open spec fn insert_pair(pairs: Seq<(Seq<char>, Seq<char>)>, key: Seq<char>, val: Seq<char>) -> Seq<
    (Seq<char>, Seq<char>),
>
    decreases pairs.len(),
{
    if pairs.len() == 0 {
        seq![(key, val)]
    } else if pairs[0].0 == key {
        pairs.update(0, (key, val))
    } else {
        seq![pairs[0]] + insert_pair(pairs.drop_first(), key, val)
    }
}

/// The key/value pairs of the lines, a later value of a key replacing an
/// earlier one; keys in order of first appearance.
pub open spec fn lines_pairs(ls: Seq<Seq<char>>) -> Seq<(Seq<char>, Seq<char>)>
    decreases ls.len(),
{
    if ls.len() == 0 {
        seq![]
    } else {
        let r = lines_pairs(ls.drop_last());
        match line_pair(ls.last()) {
            Some((k, v)) => insert_pair(r, k, v),
            None => r,
        }
    }
}

/// Frontmatter as flat `key: value` pairs.
pub open spec fn spec_frontmatter_pairs(yaml: Seq<char>) -> Seq<(Seq<char>, Seq<char>)> {
    lines_pairs(split_lines(yaml))
}

pub open spec fn string_pairs_view(v: Seq<(String, String)>) -> Seq<(Seq<char>, Seq<char>)> {
    v.map_values(|p: (String, String)| (p.0@, p.1@))
}

fn line_pair_exec(line: &Vec<char>) -> (r: Option<(Vec<char>, Vec<char>)>)
    ensures
        match line_pair(line@) {
            Some((k, v)) => r matches Some((a, b)) && a@ == k && b@ == v,
            None => r is None,
        },
{
    let n = line.len();
    proof {
        lemma_first_index_of(line@, ':');
    }
    assert(line@.subrange(0, n as int) == line@);
    match find_char(line, 0, n, ':') {
        Some(i) => {
            let ka = skip_class_forward(line, 0, i, CharClass::Space);
            let kb = skip_class_backward(line, ka, i, CharClass::Space);
            assert(line@.take(i as int) == line@.subrange(0, i as int));
            if kb == ka {
                return None;
            }
            let va = skip_class_forward(line, i + 1, n, CharClass::Space);
            let vb = skip_class_backward(line, va, n, CharClass::Space);
            assert(line@.skip(i + 1) == line@.subrange(i + 1, n as int));
            Some((chars_range(line, ka, kb), chars_range(line, va, vb)))
        },
        None => None,
    }
}

fn insert_pair_exec(pairs: &mut Vec<(String, String)>, key: &Vec<char>, val: &Vec<char>)
    ensures
        string_pairs_view(final(pairs)@) == insert_pair(string_pairs_view(old(pairs)@), key@, val@),
{
    let ghost old_v = string_pairs_view(pairs@);
    let k = string_from_chars(key);
    let mut i: usize = 0;
    assert(old_v.skip(0) == old_v);
    while i < pairs.len()
        invariant
            pairs@ == old(pairs)@,
            old_v == string_pairs_view(pairs@),
            k@ == key@,
            i <= pairs.len(),
            forall|j: int| 0 <= j < i ==> #[trigger] old_v[j].0 != key@,
            insert_pair(old_v, key@, val@) == old_v.take(i as int) + insert_pair(
                old_v.skip(i as int),
                key@,
                val@,
            ),
        decreases pairs.len() - i,
    {
        let ghost rest = old_v.skip(i as int);
        assert(rest[0] == old_v[i as int]);
        if pairs[i].0 == k {
            let v = string_from_chars(val);
            pairs.set(i, (k, v));
            assert(string_pairs_view(pairs@) =~= old_v.take(i as int) + rest.update(0, (key@, val@)));
            return;
        }
        assert(rest.drop_first() == old_v.skip(i as int + 1));
        assert(old_v.take(i as int + 1) == old_v.take(i as int) + seq![rest[0]]);
        i = i + 1;
    }
    assert(old_v.skip(i as int) == Seq::<(Seq<char>, Seq<char>)>::empty());
    let v = string_from_chars(val);
    pairs.push((k, v));
    assert(old_v.take(i as int) == old_v);
    assert(string_pairs_view(pairs@) =~= old_v.push((key@, val@)));
}

/// Parses frontmatter lines `key: value` into pairs (see
/// `spec_frontmatter_pairs`); lines without a `:` or with an empty key are
/// skipped.
pub fn frontmatter_pairs(yaml: &str) -> (res: Vec<(String, String)>)
    ensures
        string_pairs_view(res@) == spec_frontmatter_pairs(yaml@),
{
    let v = chars_of(yaml);
    let mut res: Vec<(String, String)> = Vec::new();
    let mut cur: Vec<char> = Vec::new();
    let ghost mut done: Seq<Seq<char>> = seq![];
    for i in 0..v.len()
        invariant
            v@ == yaml@,
            split_lines(v@.take(i as int)) == done.push(cur@),
            string_pairs_view(res@) == lines_pairs(done),
    {
        let c = v[i];
        assert(v@.take(i as int + 1).drop_last() == v@.take(i as int));
        if c == '\n' {
            proof {
                lemma_split_lines_len(v@.take(i as int));
            }
            let ghost d0 = done;
            proof {
                done = done.push(cur@);
            }
            assert(done.drop_last() == d0);
            match line_pair_exec(&cur) {
                Some((k, val)) => insert_pair_exec(&mut res, &k, &val),
                None => {},
            }
            cur = Vec::new();
            assert(cur@ =~= Seq::<char>::empty());
        } else {
            let ghost c0 = cur@;
            cur.push(c);
            assert(done.push(c0).update(done.len() as int, c0.push(c)) =~= done.push(cur@));
        }
    }
    assert(v@.take(v.len() as int) == v@);
    let ghost d0 = done;
    proof {
        done = done.push(cur@);
    }
    assert(done.drop_last() == d0);
    match line_pair_exec(&cur) {
        Some((k, val)) => insert_pair_exec(&mut res, &k, &val),
        None => {},
    }
    assert(lines_pairs(done) == spec_frontmatter_pairs(yaml@));
    res
}

/// Frontmatter pairs and body of a document: a leading `---` ... `\n---`
/// block gives the pairs of its inner lines and the text after the closing
/// `---`; without such a block there are no pairs and the body is the
/// whole text.
pub open spec fn spec_parse_frontmatter(c: Seq<char>) -> (Seq<(Seq<char>, Seq<char>)>, Seq<char>) {
    match frontmatter_close(c) {
        Some(e) => (spec_frontmatter_pairs(c.subrange(3, 3 + e)), c.skip(3 + e + 4)),
        None => (seq![], c),
    }
}

/// Splits a document into its frontmatter pairs and its body.
pub fn parse_frontmatter(content: &str) -> (res: (Vec<(String, String)>, &str))
    ensures
        (string_pairs_view(res.0@), res.1@) == spec_parse_frontmatter(content@),
{
    let v = chars_of(content);
    match frontmatter_close_exec(&v) {
        Some(e) => {
            let yaml_chars = chars_range(&v, 3, 3 + e);
            let yaml = string_from_chars(&yaml_chars);
            let pairs = frontmatter_pairs(yaml.as_str());
            assert(content@.subrange(3 + e + 4, v.len() as int) =~= content@.skip(3 + e + 4));
            (pairs, content.substring_char(3 + e + 4, v.len()))
        },
        None => {
            let empty: Vec<(String, String)> = Vec::new();
            assert(string_pairs_view(empty@) =~= Seq::<(Seq<char>, Seq<char>)>::empty());
            (empty, content)
        },
    }
}

/// (line number, trimmed text) of every line that is not blank once
/// trimmed; the lines are numbered from `off + 1` on.
pub open spec fn line_docs(ls: Seq<Seq<char>>, off: int) -> Seq<(int, Seq<char>)>
    decreases ls.len(),
{
    if ls.len() == 0 {
        seq![]
    } else {
        let r = line_docs(ls.drop_last(), off);
        let t = trim(ls.last());
        if t.len() > 0 {
            r.push((off + ls.len(), t))
        } else {
            r
        }
    }
}

/// The number of line breaks in `s`.
pub open spec fn count_line_breaks(s: Seq<char>) -> int
    decreases s.len(),
{
    if s.len() == 0 {
        0
    } else {
        count_line_breaks(s.drop_last()) + if s.last() == '\n' {
            1int
        } else {
            0int
        }
    }
}

/// The line breaks before the body: those of the frontmatter block up to its
/// closing `---`, none without such a block.
pub open spec fn frontmatter_line_breaks(c: Seq<char>) -> int {
    match frontmatter_close(c) {
        Some(e) => count_line_breaks(c.take(3 + e + 4)),
        None => 0,
    }
}

/// The documents that line mode makes of a file: every non-blank line of the
/// text after the frontmatter, trimmed, with its line number in the whole
/// file (the lines of the frontmatter block counted too).
pub open spec fn spec_line_documents(content: Seq<char>) -> Seq<(int, Seq<char>)> {
    line_docs(split_lines(spec_strip_frontmatter(content)), frontmatter_line_breaks(content))
}

proof fn lemma_count_line_breaks_bound(s: Seq<char>)
    ensures
        0 <= count_line_breaks(s) <= s.len(),
    decreases s.len(),
{
    if s.len() > 0 {
        lemma_count_line_breaks_bound(s.drop_last());
    }
}

/// The line breaks of `v` before position `n`.
fn count_line_breaks_exec(v: &Vec<char>, n: usize) -> (r: usize)
    requires
        n <= v.len(),
    ensures
        r == count_line_breaks(v@.take(n as int)),
        r <= n,
{
    let mut r: usize = 0;
    for i in 0..n
        invariant
            n <= v.len(),
            r == count_line_breaks(v@.take(i as int)),
            r <= i,
    {
        assert(v@.take(i as int + 1).drop_last() == v@.take(i as int));
        if v[i] == '\n' {
            r = r + 1;
        }
    }
    r
}

pub open spec fn docs_view(v: Seq<(u64, String)>) -> Seq<(int, Seq<char>)> {
    v.map_values(|d: (u64, String)| (d.0 as int, d.1@))
}

fn push_line_doc(docs: &mut Vec<(u64, String)>, number: usize, line: &Vec<char>)
    ensures
        docs_view(final(docs)@) == (if trim(line@).len() > 0 {
            docs_view(old(docs)@).push((number as int, trim(line@)))
        } else {
            docs_view(old(docs)@)
        }),
{
    let n = line.len();
    assert(line@.subrange(0, n as int) == line@);
    let a = skip_class_forward(line, 0, n, CharClass::Space);
    let b = skip_class_backward(line, a, n, CharClass::Space);
    if a < b {
        let t = chars_range(line, a, b);
        let ghost before = docs_view(docs@);
        docs.push((number as u64, string_from_chars(&t)));
        assert(docs_view(docs@) =~= before.push((number as int, trim(line@))));
    }
}

/// The line-mode documents of a file's text (see `spec_line_documents`).
pub fn line_documents(content: &str) -> (docs: Vec<(u64, String)>)
    ensures
        docs_view(docs@) == spec_line_documents(content@),
{
    let all = chars_of(content);
    let off: usize = match frontmatter_close_exec(&all) {
        Some(e) => count_line_breaks_exec(&all, 3 + e + 4),
        None => 0,
    };
    assert(off as int == frontmatter_line_breaks(content@));
    let body = strip_frontmatter(content);
    let v = chars_of(body);
    assert(off + v.len() <= all.len());
    let mut docs: Vec<(u64, String)> = Vec::new();
    let mut cur: Vec<char> = Vec::new();
    let ghost mut done: Seq<Seq<char>> = seq![];
    let mut count: usize = 0;
    for i in 0..v.len()
        invariant
            off + v.len() <= all.len(),
            split_lines(v@.take(i as int)) == done.push(cur@),
            docs_view(docs@) == line_docs(done, off as int),
            count == done.len(),
            count + cur.len() <= i,
    {
        let c = v[i];
        assert(v@.take(i as int + 1).drop_last() == v@.take(i as int));
        if c == '\n' {
            let ghost d0 = done;
            push_line_doc(&mut docs, off + count + 1, &cur);
            proof {
                done = done.push(cur@);
            }
            count = count + 1;
            assert(done.drop_last() == d0);
            cur = Vec::new();
            assert(cur@ =~= Seq::<char>::empty());
        } else {
            let ghost c0 = cur@;
            cur.push(c);
            assert(done.push(c0).update(done.len() as int, c0.push(c)) =~= done.push(cur@));
        }
    }
    assert(v@.take(v.len() as int) == v@);
    let ghost d0 = done;
    if cur.len() > 0 {
        push_line_doc(&mut docs, off + count + 1, &cur);
    } else {
        assert(trim(cur@) =~= Seq::<char>::empty());
    }
    proof {
        done = done.push(cur@);
    }
    assert(done.drop_last() == d0);
    docs
}

/// File mode indexes as the body of a document exactly the text that line
/// mode splits into lines: both drop the same frontmatter block.
pub proof fn lemma_file_body_is_line_body(c: Seq<char>)
    ensures
        spec_parse_frontmatter(c).1 == spec_strip_frontmatter(c),
{
}

/// No line document is blank, and the line numbers of a file's documents
/// run strictly upwards, after the lines of the frontmatter block and never
/// past the last line.
pub proof fn lemma_line_documents_numbered(c: Seq<char>)
    ensures
        forall|i: int|
            0 <= i < spec_line_documents(c).len() ==> {
                let d = #[trigger] spec_line_documents(c)[i];
                &&& d.1.len() > 0
                &&& frontmatter_line_breaks(c) + 1 <= d.0
                &&& d.0 <= frontmatter_line_breaks(c) + split_lines(spec_strip_frontmatter(c)).len()
            },
        forall|i: int, j: int|
            0 <= i < j < spec_line_documents(c).len() ==> spec_line_documents(c)[i].0
                < spec_line_documents(c)[j].0,
{
    lemma_line_docs_numbered(split_lines(spec_strip_frontmatter(c)), frontmatter_line_breaks(c));
}

proof fn lemma_line_docs_numbered(ls: Seq<Seq<char>>, off: int)
    ensures
        forall|i: int|
            0 <= i < line_docs(ls, off).len() ==> {
                let d = #[trigger] line_docs(ls, off)[i];
                &&& d.1.len() > 0
                &&& off + 1 <= d.0 <= off + ls.len()
            },
        forall|i: int, j: int|
            0 <= i < j < line_docs(ls, off).len() ==> line_docs(ls, off)[i].0 < line_docs(ls, off)[j].0,
    decreases ls.len(),
{
    if ls.len() > 0 {
        let r = line_docs(ls.drop_last(), off);
        lemma_line_docs_numbered(ls.drop_last(), off);
        let t = trim(ls.last());
        if t.len() > 0 {
            let d = line_docs(ls, off);
            assert(d == r.push((off + ls.len(), t)));
            assert forall|i: int| 0 <= i < d.len() implies {
                let e = #[trigger] d[i];
                &&& e.1.len() > 0
                &&& off + 1 <= e.0 <= off + ls.len()
            } by {
                if i < r.len() {
                    assert(d[i] == r[i]);
                }
            }
            assert forall|i: int, j: int| 0 <= i < j < d.len() implies d[i].0 < d[j].0 by {
                assert(d[i] == r[i]);
                if j < r.len() {
                    assert(d[j] == r[j]);
                } else {
                    assert(r[i].0 <= off + ls.len() - 1);
                }
            }
        }
    }
}

/// Whether the first bytes of a file hold a NUL byte, the sign of a binary file.
pub fn looks_binary(head: &[u8]) -> (b: bool)
    ensures
        b == head@.contains(0u8),
{
    let mut i: usize = 0;
    while i < head.len()
        invariant
            i <= head.len(),
            head.len() == head@.len(),
            forall|k: int| 0 <= k < i ==> head@[k] != 0u8,
        decreases head.len() - i,
    {
        if head[i] == 0u8 {
            return true;
        }
        i = i + 1;
    }
    false
}

/// The files found on disk, as (path, modification time), as a map.
pub open spec fn listing_map(cur: Seq<(String, u64)>) -> Map<Seq<char>, u64>
    decreases cur.len(),
{
    if cur.len() == 0 {
        Map::empty()
    } else {
        listing_map(cur.drop_last()).insert(cur.last().0@, cur.last().1)
    }
}

/// No path occurs twice in a listing.
pub open spec fn distinct_listing(cur: Seq<(String, u64)>) -> bool {
    forall|i: int, j: int| 0 <= i < j < cur.len() ==> cur[i].0@ != cur[j].0@
}

/// Recorded paths that are no longer on disk, in table order.
pub open spec fn spec_deleted(files: Seq<(String, FileRecord)>, disk: Map<Seq<char>, u64>) -> Seq<Seq<char>>
    decreases files.len(),
{
    if files.len() == 0 {
        seq![]
    } else {
        let r = spec_deleted(files.drop_last(), disk);
        if disk.contains_key(files.last().0@) {
            r
        } else {
            r.push(files.last().0@)
        }
    }
}

/// Paths on disk that are new or whose modification time changed, in
/// listing order.
pub open spec fn spec_to_update(cur: Seq<(String, u64)>, recorded: Map<Seq<char>, u64>) -> Seq<Seq<char>>
    decreases cur.len(),
{
    if cur.len() == 0 {
        seq![]
    } else {
        let r = spec_to_update(cur.drop_last(), recorded);
        let (p, t) = cur.last();
        if recorded.contains_key(p@) && recorded[p@] == t {
            r
        } else {
            r.push(p@)
        }
    }
}

/// What a differential sync does: the documents of `deleted` are dropped,
/// those of `to_update` are (re)indexed.
pub struct SyncPlan {
    pub deleted: Vec<String>,
    pub to_update: Vec<String>,
}

pub open spec fn strings_view(v: Seq<String>) -> Seq<Seq<char>> {
    v.map_values(|s: String| s@)
}

fn listing_contains(cur: &Vec<(String, u64)>, p: &String) -> (r: bool)
    ensures
        r == listing_map(cur@).contains_key(p@),
{
    proof {
        lemma_listing_map(cur@);
    }
    let mut i: usize = 0;
    while i < cur.len()
        invariant
            i <= cur.len(),
            forall|k: int| 0 <= k < i ==> #[trigger] cur@[k].0@ != p@,
            forall|k: Seq<char>|
                #[trigger] listing_map(cur@).contains_key(k) <==> exists|j: int|
                    0 <= j < cur@.len() && cur@[j].0@ == k,
        decreases cur.len() - i,
    {
        if cur[i].0 == *p {
            return true;
        }
        i = i + 1;
    }
    false
}

pub proof fn lemma_listing_map(f: Seq<(String, u64)>)
    ensures
        forall|k: Seq<char>|
            #[trigger] listing_map(f).contains_key(k) <==> exists|i: int| 0 <= i < f.len() && f[i].0@ == k,
        distinct_listing(f) ==> forall|i: int|
            0 <= i < f.len() ==> #[trigger] listing_map(f)[f[i].0@] == f[i].1,
    decreases f.len(),
{
    if f.len() > 0 {
        let g = f.drop_last();
        lemma_listing_map(g);
        assert forall|k: Seq<char>| #[trigger] listing_map(f).contains_key(k) <==> exists|i: int|
            0 <= i < f.len() && f[i].0@ == k by {
            if listing_map(f).contains_key(k) && k != f.last().0@ {
                assert(listing_map(g).contains_key(k));
                let i = choose|i: int| 0 <= i < g.len() && g[i].0@ == k;
                assert(f[i] == g[i]);
            }
            if exists|i: int| 0 <= i < f.len() && f[i].0@ == k {
                let i = choose|i: int| 0 <= i < f.len() && f[i].0@ == k;
                if i < g.len() {
                    assert(g[i] == f[i]);
                    assert(listing_map(g).contains_key(k));
                }
            }
        }
        if distinct_listing(f) {
            assert(distinct_listing(g)) by {
                assert forall|a: int, b: int| 0 <= a < b < g.len() implies g[a].0@ != g[b].0@ by {
                    assert(g[a] == f[a] && g[b] == f[b]);
                }
            }
            assert forall|i: int| 0 <= i < f.len() implies #[trigger] listing_map(f)[f[i].0@]
                == f[i].1 by {
                if i < g.len() {
                    assert(g[i] == f[i]);
                    assert(f[i].0@ != f.last().0@);
                    assert(listing_map(g)[g[i].0@] == g[i].1);
                }
            }
        }
    }
}

/// Compares the recorded files of an index with the files now on disk
/// (path, modification time): recorded paths missing from disk are to be
/// deleted, paths on disk that are unrecorded or whose modification time
/// differs are to be indexed again.
pub fn plan_sync(meta: &IndexMeta, current: &Vec<(String, u64)>) -> (plan: SyncPlan)
    requires
        meta.wf(),
    ensures
        strings_view(plan.deleted@) == spec_deleted(meta.files@, listing_map(current@)),
        strings_view(plan.to_update@) == spec_to_update(current@, files_map(meta.files@)),
{
    let mut deleted: Vec<String> = Vec::new();
    for i in 0..meta.files.len()
        invariant
            strings_view(deleted@) == spec_deleted(meta.files@.take(i as int), listing_map(current@)),
    {
        assert(meta.files@.take(i as int + 1).drop_last() == meta.files@.take(i as int));
        let p = &meta.files[i].0;
        if !listing_contains(current, p) {
            let ghost before = deleted@;
            deleted.push(p.clone());
            assert(strings_view(deleted@) =~= strings_view(before).push(p@));
        }
    }
    assert(meta.files@.take(meta.files.len() as int) == meta.files@);
    let mut to_update: Vec<String> = Vec::new();
    for i in 0..current.len()
        invariant
            meta.wf(),
            strings_view(to_update@) == spec_to_update(current@.take(i as int), files_map(meta.files@)),
    {
        assert(current@.take(i as int + 1).drop_last() == current@.take(i as int));
        let (p, t) = (&current[i].0, current[i].1);
        let unchanged = match meta.recorded_mtime(p) {
            Some(m) => m == t,
            None => false,
        };
        if !unchanged {
            let ghost before = to_update@;
            to_update.push(p.clone());
            assert(strings_view(to_update@) =~= strings_view(before).push(p@));
        }
    }
    assert(current@.take(current.len() as int) == current@);
    SyncPlan { deleted, to_update }
}

/// `m` without the keys `ks`.
pub open spec fn remove_all(m: Map<Seq<char>, u64>, ks: Seq<Seq<char>>) -> Map<Seq<char>, u64>
    decreases ks.len(),
{
    if ks.len() == 0 {
        m
    } else {
        remove_all(m, ks.drop_last()).remove(ks.last())
    }
}

/// `m` with each key of `ks` set to its value in `disk`.
pub open spec fn update_all(m: Map<Seq<char>, u64>, ks: Seq<Seq<char>>, disk: Map<Seq<char>, u64>) -> Map<
    Seq<char>,
    u64,
>
    decreases ks.len(),
{
    if ks.len() == 0 {
        m
    } else {
        update_all(m, ks.drop_last(), disk).insert(ks.last(), disk[ks.last()])
    }
}

proof fn lemma_contains_drop_last(ks: Seq<Seq<char>>, k: Seq<char>)
    requires
        ks.len() > 0,
    ensures
        ks.contains(k) <==> (ks.drop_last().contains(k) || k == ks.last()),
{
    if ks.contains(k) && k != ks.last() {
        let j = choose|j: int| 0 <= j < ks.len() && ks[j] == k;
        assert(ks.drop_last()[j] == k);
    }
    if ks.drop_last().contains(k) {
        let j = choose|j: int| 0 <= j < ks.drop_last().len() && ks.drop_last()[j] == k;
        assert(ks[j] == k);
    }
    if k == ks.last() {
        assert(ks[ks.len() - 1] == k);
    }
}

proof fn lemma_remove_all(m: Map<Seq<char>, u64>, ks: Seq<Seq<char>>)
    ensures
        forall|k: Seq<char>|
            #[trigger] remove_all(m, ks).contains_key(k) <==> m.contains_key(k) && !ks.contains(k),
        forall|k: Seq<char>| #[trigger] remove_all(m, ks).contains_key(k) ==> remove_all(m, ks)[k] == m[k],
    decreases ks.len(),
{
    if ks.len() > 0 {
        let prev = remove_all(m, ks.drop_last());
        lemma_remove_all(m, ks.drop_last());
        assert forall|k: Seq<char>| #[trigger] remove_all(m, ks).contains_key(k) <==> m.contains_key(k)
            && !ks.contains(k) by {
            lemma_contains_drop_last(ks, k);
            assert(prev.contains_key(k) <==> m.contains_key(k) && !ks.drop_last().contains(k));
        }
        assert forall|k: Seq<char>| #[trigger] remove_all(m, ks).contains_key(k) implies remove_all(m, ks)[k] == m[k] by {
            assert(prev.contains_key(k));
        }
    }
}

proof fn lemma_update_all(m: Map<Seq<char>, u64>, ks: Seq<Seq<char>>, disk: Map<Seq<char>, u64>)
    ensures
        forall|k: Seq<char>|
            #[trigger] update_all(m, ks, disk).contains_key(k) <==> m.contains_key(k) || ks.contains(k),
        forall|k: Seq<char>|
            #[trigger] update_all(m, ks, disk).contains_key(k) ==> update_all(m, ks, disk)[k] == if ks.contains(k) {
                disk[k]
            } else {
                m[k]
            },
    decreases ks.len(),
{
    if ks.len() > 0 {
        let prev = update_all(m, ks.drop_last(), disk);
        lemma_update_all(m, ks.drop_last(), disk);
        assert forall|k: Seq<char>| #[trigger] update_all(m, ks, disk).contains_key(k) <==> m.contains_key(k)
            || ks.contains(k) by {
            lemma_contains_drop_last(ks, k);
            assert(prev.contains_key(k) <==> m.contains_key(k) || ks.drop_last().contains(k));
        }
        assert forall|k: Seq<char>| #[trigger] update_all(m, ks, disk).contains_key(k) implies update_all(m, ks, disk)[k] == if ks.contains(k) {
            disk[k]
        } else {
            m[k]
        } by {
            lemma_contains_drop_last(ks, k);
            if k != ks.last() {
                assert(prev.contains_key(k));
                assert(prev[k] == if ks.drop_last().contains(k) {
                    disk[k]
                } else {
                    m[k]
                });
            }
        }
    }
}

proof fn lemma_deleted_members(files: Seq<(String, FileRecord)>, disk: Map<Seq<char>, u64>)
    ensures
        forall|k: Seq<char>|
            #[trigger] spec_deleted(files, disk).contains(k) <==> files_map(files).contains_key(k)
                && !disk.contains_key(k),
    decreases files.len(),
{
    lemma_files_map(files);
    if files.len() > 0 {
        let g = files.drop_last();
        lemma_deleted_members(g, disk);
        lemma_files_map(g);
        let r = spec_deleted(g, disk);
        assert forall|k: Seq<char>| #[trigger] spec_deleted(files, disk).contains(k) <==> files_map(
            files,
        ).contains_key(k) && !disk.contains_key(k) by {
            if !disk.contains_key(files.last().0@) {
                assert(spec_deleted(files, disk) == r.push(files.last().0@));
                if r.push(files.last().0@).contains(k) && k != files.last().0@ {
                    let j = choose|j: int| 0 <= j < r.push(files.last().0@).len() && r.push(files.last().0@)[j] == k;
                    assert(r[j] == k);
                }
                if r.contains(k) {
                    let j = choose|j: int| 0 <= j < r.len() && r[j] == k;
                    assert(r.push(files.last().0@)[j] == k);
                }
                if k == files.last().0@ {
                    assert(r.push(files.last().0@)[r.len() as int] == k);
                }
            }
        }
    }
}

proof fn lemma_to_update_members(cur: Seq<(String, u64)>, recorded: Map<Seq<char>, u64>)
    requires
        distinct_listing(cur),
    ensures
        forall|k: Seq<char>|
            #[trigger] spec_to_update(cur, recorded).contains(k) <==> listing_map(cur).contains_key(k)
                && !(recorded.contains_key(k) && recorded[k] == listing_map(cur)[k]),
    decreases cur.len(),
{
    lemma_listing_map(cur);
    if cur.len() > 0 {
        let g = cur.drop_last();
        assert(distinct_listing(g)) by {
            assert forall|a: int, b: int| 0 <= a < b < g.len() implies g[a].0@ != g[b].0@ by {
                assert(g[a] == cur[a] && g[b] == cur[b]);
            }
        }
        lemma_to_update_members(g, recorded);
        lemma_listing_map(g);
        let r = spec_to_update(g, recorded);
        let (p, t) = cur.last();
        assert(listing_map(cur)[p@] == t);
        assert forall|k: Seq<char>| #[trigger] spec_to_update(cur, recorded).contains(k) <==> listing_map(
            cur,
        ).contains_key(k) && !(recorded.contains_key(k) && recorded[k] == listing_map(cur)[k]) by {
            if k != p@ {
                assert(listing_map(cur).contains_key(k) == listing_map(g).contains_key(k));
                if listing_map(g).contains_key(k) {
                    assert(listing_map(cur)[k] == listing_map(g)[k]);
                }
            } else {
                assert(!listing_map(g).contains_key(k)) by {
                    if listing_map(g).contains_key(k) {
                        let j = choose|j: int| 0 <= j < g.len() && g[j].0@ == k;
                        assert(cur[j].0@ == cur[cur.len() - 1].0@);
                    }
                }
                assert(!r.contains(k));
            }
            if !(recorded.contains_key(p@) && recorded[p@] == t) {
                let s = r.push(p@);
                if s.contains(k) && k != p@ {
                    let j = choose|j: int| 0 <= j < s.len() && s[j] == k;
                    assert(r[j] == k);
                }
                if r.contains(k) {
                    let j = choose|j: int| 0 <= j < r.len() && r[j] == k;
                    assert(s[j] == k);
                }
                if k == p@ {
                    assert(s[r.len() as int] == k);
                }
            }
        }
    }
}

/// A differential sync brings the file table in line with the disk: the
/// recorded files with the planned deletions removed and the planned
/// updates set to their modification times on disk are exactly the files
/// on disk with their modification times.
pub proof fn lemma_sync_matches_disk(meta: IndexMeta, current: Seq<(String, u64)>)
    requires
        meta.wf(),
        distinct_listing(current),
    ensures
        ({
            let disk = listing_map(current);
            let recorded = files_map(meta.files@);
            update_all(
                remove_all(recorded, spec_deleted(meta.files@, disk)),
                spec_to_update(current, recorded),
                disk,
            ) == disk
        }),
{
    let disk = listing_map(current);
    let recorded = files_map(meta.files@);
    let d = spec_deleted(meta.files@, disk);
    let t = spec_to_update(current, recorded);
    let r = remove_all(recorded, d);
    let u = update_all(r, t, disk);
    lemma_deleted_members(meta.files@, disk);
    lemma_to_update_members(current, recorded);
    lemma_remove_all(recorded, d);
    lemma_update_all(r, t, disk);
    assert forall|k: Seq<char>| u.contains_key(k) <==> disk.contains_key(k) by {}
    assert forall|k: Seq<char>| u.contains_key(k) implies u[k] == disk[k] by {
        if !t.contains(k) {
            assert(r.contains_key(k));
        }
    }
    assert(u =~= disk);
}

/// The modification time that a listing gives a path.
fn listing_mtime(current: &Vec<(String, u64)>, p: &String) -> (t: u64)
    requires
        distinct_listing(current@),
        listing_map(current@).contains_key(p@),
    ensures
        t == listing_map(current@)[p@],
{
    proof {
        lemma_listing_map(current@);
    }
    let mut i: usize = 0;
    while i < current.len()
        invariant
            i <= current.len(),
            distinct_listing(current@),
            listing_map(current@).contains_key(p@),
            forall|k: int| 0 <= k < i ==> #[trigger] current@[k].0@ != p@,
            forall|k: Seq<char>|
                #[trigger] listing_map(current@).contains_key(k) <==> exists|j: int|
                    0 <= j < current@.len() && current@[j].0@ == k,
            forall|j: int|
                0 <= j < current@.len() ==> #[trigger] listing_map(current@)[current@[j].0@] == current@[j].1,
        decreases current.len() - i,
    {
        if current[i].0 == *p {
            return current[i].1;
        }
        i = i + 1;
    }
    proof {
        let j = choose|j: int| 0 <= j < current@.len() && current@[j].0@ == p@;
        assert(current@[j].0@ != p@);
    }
    0
}

/// Brings the metadata of a differential sync up to date with the files on
/// disk (path, modification time): the plan of `plan_sync` is applied to the
/// file table and the sync time is set. The plan is returned for the index
/// documents to follow it.
pub fn sync_metadata(meta: &mut IndexMeta, current: &Vec<(String, u64)>) -> (plan: SyncPlan)
    requires
        old(meta).wf(),
        distinct_listing(current@),
    ensures
        strings_view(plan.deleted@) == spec_deleted(old(meta).files@, listing_map(current@)),
        strings_view(plan.to_update@) == spec_to_update(current@, files_map(old(meta).files@)),
        final(meta).wf(),
        files_map(final(meta).files@) == listing_map(current@),
        final(meta).last_sync is Some,
        final(meta).mode == old(meta).mode,
        final(meta).dirs == old(meta).dirs,
        final(meta).include_glob == old(meta).include_glob,
        final(meta).exclude_glob == old(meta).exclude_glob,
        final(meta).frontmatter_keys == old(meta).frontmatter_keys,
{
    let plan = plan_sync(meta, current);
    let ghost disk = listing_map(current@);
    let ghost recorded = files_map(meta.files@);
    let ghost dv = strings_view(plan.deleted@);
    let ghost tv = strings_view(plan.to_update@);
    proof {
        lemma_sync_matches_disk(*meta, current@);
        lemma_to_update_members(current@, recorded);
    }
    for i in 0..plan.deleted.len()
        invariant
            meta.wf(),
            dv == strings_view(plan.deleted@),
            files_map(meta.files@) == remove_all(recorded, dv.take(i as int)),
            meta.mode == old(meta).mode,
            meta.dirs == old(meta).dirs,
            meta.include_glob == old(meta).include_glob,
            meta.exclude_glob == old(meta).exclude_glob,
            meta.frontmatter_keys == old(meta).frontmatter_keys,
    {
        assert(dv.take(i as int + 1).drop_last() == dv.take(i as int));
        assert(dv.take(i as int + 1).last() == plan.deleted@[i as int]@);
        meta.remove_file(&plan.deleted[i]);
    }
    assert(dv.take(plan.deleted.len() as int) == dv);
    let ghost removed = remove_all(recorded, dv);
    for i in 0..plan.to_update.len()
        invariant
            meta.wf(),
            distinct_listing(current@),
            disk == listing_map(current@),
            tv == strings_view(plan.to_update@),
            tv == spec_to_update(current@, recorded),
            forall|k: Seq<char>|
                #[trigger] tv.contains(k) ==> disk.contains_key(k),
            files_map(meta.files@) == update_all(removed, tv.take(i as int), disk),
            meta.mode == old(meta).mode,
            meta.dirs == old(meta).dirs,
            meta.include_glob == old(meta).include_glob,
            meta.exclude_glob == old(meta).exclude_glob,
            meta.frontmatter_keys == old(meta).frontmatter_keys,
    {
        let p = &plan.to_update[i];
        assert(tv[i as int] == p@);
        assert(tv.contains(p@));
        assert(tv.take(i as int + 1).drop_last() == tv.take(i as int));
        assert(tv.take(i as int + 1).last() == p@);
        let t = listing_mtime(current, p);
        meta.record_file(p.clone(), t);
    }
    assert(tv.take(plan.to_update.len() as int) == tv);
    meta.touch_sync();
    plan
}

} // verus!
