//! Query-side logic of the search: sort orders, result records, field
//! qualifiers in query strings, query rewriting to the physical fields,
//! the search plan, and snippets.
use vstd::prelude::*;

use crate::analyzer::{normalize_chars, spec_normalize};
use crate::highlight::{spec_strip_query_syntax, strip_query_syntax};
use crate::meta::IndexMode;
use crate::matching::{
    concat_all, first_occurrence, first_occurrence_from, int_view, lemma_first_occurrence, lemma_origin, norm_fragments, normalized_with_origin, occurs_at,
    occurs_at_exec, origin,
};
use crate::text::{
    find_char, lemma_first_index_of,
    chars_range, push_range, push_str, string_from_chars,
    alphanumeric, chars_equal_str, chars_of, chars_start_with_str, is_alphanumeric, is_whitespace,
    is_ws,
};

verus! {

/// Order of the results.
#[derive(Debug, Clone, Copy, PartialEq, Eq)]
pub enum SortOrder {
    Score,
    Path,
    Mtime,
}

/// The sort order named `s`: `score`, `path` or `mtime`.
pub open spec fn spec_sort_order(s: Seq<char>) -> Option<SortOrder> {
    if s == "score"@ {
        Some(SortOrder::Score)
    } else if s == "path"@ {
        Some(SortOrder::Path)
    } else if s == "mtime"@ {
        Some(SortOrder::Mtime)
    } else {
        None
    }
}

impl SortOrder {
    /// `score`, `path` or `mtime`; `None` for anything else.
    pub fn parse(s: &str) -> (r: Option<SortOrder>)
        ensures
            r == spec_sort_order(s@),
    {
        let v = chars_of(s);
        if chars_equal_str(&v, "score") {
            Some(SortOrder::Score)
        } else if chars_equal_str(&v, "path") {
            Some(SortOrder::Path)
        } else if chars_equal_str(&v, "mtime") {
            Some(SortOrder::Mtime)
        } else {
            None
        }
    }
}

/// A matching line: its file, its 1-based line number and the line text.
#[derive(Debug)]
pub struct LineResult {
    pub path: String,
    pub line_number: u64,
    pub lines: Vec<String>,
}

/// A matching file with the snippets shown for it.
#[derive(Debug)]
pub struct FileResult {
    pub path: String,
    pub snippets: Vec<String>,
}

/// ASCII characters that may form a field name: letters, digits, `_` and `.`.
pub open spec fn is_ascii_field_char(c: char) -> bool {
    ('a' <= c && c <= 'z') || ('A' <= c && c <= 'Z') || ('0' <= c && c <= '9') || c == '_' || c == '.'
}

/// Characters that may form a field name: alphanumeric, `_` and `.` (among
/// ASCII characters, the letters and digits are the alphanumeric ones).
pub open spec fn is_field_char(c: char) -> bool {
    if c <= '\u{7F}' {
        is_ascii_field_char(c)
    } else {
        alphanumeric(c)
    }
}

pub fn field_char(c: char) -> (b: bool)
    ensures
        b == is_field_char(c),
{
    is_alphanumeric(c) || c == '_' || c == '.'
}

/// The white-space separated tokens of `s` so far, and whether the last one
/// is still open (the last character is not white space).
pub open spec fn tokens_state(s: Seq<char>) -> (Seq<Seq<char>>, bool)
    decreases s.len(),
{
    if s.len() == 0 {
        (seq![], false)
    } else {
        let (ts, open) = tokens_state(s.drop_last());
        let c = s.last();
        if is_ws(c) {
            (ts, false)
        } else if open && ts.len() > 0 {
            (ts.update(ts.len() - 1, ts.last().push(c)), true)
        } else {
            (ts.push(seq![c]), true)
        }
    }
}

/// The maximal runs of non-white-space characters of `s`, in order.
pub open spec fn ws_tokens(s: Seq<char>) -> Seq<Seq<char>> {
    tokens_state(s).0
}

/// Number of leading field characters of `t`.
pub open spec fn field_run(t: Seq<char>) -> int
    decreases t.len(),
{
    if t.len() > 0 && is_field_char(t[0]) {
        1 + field_run(t.drop_first())
    } else {
        0
    }
}

/// The field named by a token of the form `[+|-]field:...`, if it has that form.
pub open spec fn qualifier_of_token(t: Seq<char>) -> Option<Seq<char>> {
    let t1 = if t.len() > 0 && (t[0] == '+' || t[0] == '-') {
        t.drop_first()
    } else {
        t
    };
    let k = field_run(t1);
    if 0 < k < t1.len() && t1[k] == ':' {
        Some(t1.take(k))
    } else {
        None
    }
}

/// The fields named by the qualifiers of `ts`, in order.
pub open spec fn token_fields(ts: Seq<Seq<char>>) -> Seq<Seq<char>>
    decreases ts.len(),
{
    if ts.len() == 0 {
        seq![]
    } else {
        let r = token_fields(ts.drop_last());
        match qualifier_of_token(ts.last()) {
            Some(f) => r.push(f),
            None => r,
        }
    }
}

/// The fields named by the field qualifiers (`field:value`) of a query.
pub open spec fn query_fields(q: Seq<char>) -> Seq<Seq<char>> {
    token_fields(ws_tokens(q))
}

/// Field names of frontmatter keys start with `frontmatter.`.
pub open spec fn is_frontmatter_field(f: Seq<char>) -> bool {
    "frontmatter."@.is_prefix_of(f)
}

pub open spec fn spec_targets_frontmatter(q: Seq<char>) -> bool {
    exists|i: int| 0 <= i < query_fields(q).len() && is_frontmatter_field(#[trigger] query_fields(q)[i])
}

pub open spec fn spec_targets_filename(q: Seq<char>) -> bool {
    exists|i: int| 0 <= i < query_fields(q).len() && #[trigger] query_fields(q)[i] == "filename"@
}

proof fn lemma_tokens_state_open(s: Seq<char>)
    ensures
        tokens_state(s).1 ==> tokens_state(s).0.len() > 0,
    decreases s.len(),
{
    if s.len() > 0 {
        lemma_tokens_state_open(s.drop_last());
    }
}

/// The field named by a qualifier token.
fn token_qualifier(t: &Vec<char>) -> (r: Option<Vec<char>>)
    ensures
        match qualifier_of_token(t@) {
            Some(f) => r matches Some(v) && v@ == f,
            None => r is None,
        },
{
    let s: usize = if t.len() > 0 && (t[0] == '+' || t[0] == '-') {
        1
    } else {
        0
    };
    let ghost t1 = t@.skip(s as int);
    assert(t1 == (if t@.len() > 0 && (t@[0] == '+' || t@[0] == '-') {
        t@.drop_first()
    } else {
        t@
    }));
    let mut j = s;
    while j < t.len() && field_char(t[j])
        invariant
            s <= j <= t.len(),
            t1 == t@.skip(s as int),
            field_run(t1) == (j - s) + field_run(t@.skip(j as int)),
        decreases t.len() - j,
    {
        assert(t@.skip(j as int).drop_first() == t@.skip(j as int + 1));
        j = j + 1;
    }
    assert(field_run(t@.skip(j as int)) == 0);
    if j > s && j < t.len() && t[j] == ':' {
        let mut f: Vec<char> = Vec::new();
        let mut k = s;
        while k < j
            invariant
                s <= k <= j < t.len(),
                f@ == t@.subrange(s as int, k as int),
            decreases j - k,
        {
            f.push(t[k]);
            assert(t@.subrange(s as int, k + 1) == t@.subrange(s as int, k as int).push(t@[k as int]));
            k = k + 1;
        }
        assert(t1.take(j - s) =~= f@);
        Some(f)
    } else {
        None
    }
}

/// The fields named by the field qualifiers of `q`, in order of appearance.
pub fn field_qualifiers(q: &str) -> (res: Vec<Vec<char>>)
    ensures
        res@.map_values(|v: Vec<char>| v@) == query_fields(q@),
{
    let v = chars_of(q);
    let mut res: Vec<Vec<char>> = Vec::new();
    let mut cur: Vec<char> = Vec::new();
    let ghost mut done: Seq<Seq<char>> = seq![];
    for i in 0..v.len()
        invariant
            v@ == q@,
            tokens_state(v@.take(i as int)) == (if cur.len() > 0 {
                (done.push(cur@), true)
            } else {
                (done, false)
            }),
            res@.map_values(|v: Vec<char>| v@) == token_fields(done),
    {
        let c = v[i];
        assert(v@.take(i as int + 1).drop_last() == v@.take(i as int));
        assert(v@.take(i as int + 1).last() == c);
        if is_whitespace(c) {
            if cur.len() > 0 {
                let ghost done0 = done;
                proof {
                    done = done.push(cur@);
                }
                assert(done.drop_last() == done0);
                let ghost r0 = res@;
                match token_qualifier(&cur) {
                    Some(f) => {
                        res.push(f);
                        assert(res@.map_values(|v: Vec<char>| v@) =~= r0.map_values(
                            |v: Vec<char>| v@,
                        ).push(f@));
                    },
                    None => {},
                }
                cur = Vec::new();
            }
        } else {
            let ghost cur0 = cur@;
            cur.push(c);
            assert(cur0.len() > 0 ==> done.push(cur0).update(done.len() as int, cur0.push(c))
                =~= done.push(cur@));
            assert(cur0.len() == 0 ==> cur@ =~= seq![c]);
        }
    }
    assert(v@.take(v.len() as int) == v@);
    if cur.len() > 0 {
        let ghost done0 = done;
        proof {
            done = done.push(cur@);
        }
        assert(done.drop_last() == done0);
        let ghost r0 = res@;
        match token_qualifier(&cur) {
            Some(f) => {
                res.push(f);
                assert(res@.map_values(|v: Vec<char>| v@) =~= r0.map_values(|v: Vec<char>| v@).push(
                    f@,
                ));
            },
            None => {},
        }
    }
    res
}

/// Whether a query names a field that only the file mode has: `filename`
/// or a `frontmatter.` key.
pub open spec fn spec_implies_file_mode(q: Seq<char>) -> bool {
    exists|i: int|
        0 <= i < query_fields(q).len() && (#[trigger] query_fields(q)[i] == "filename"@
            || is_frontmatter_field(query_fields(q)[i]))
}

/// Which targets the field qualifiers of a query name: (a `frontmatter.`
/// key, `filename`).
pub fn scan_field_qualifiers(query_str: &str) -> (r: (bool, bool))
    ensures
        r == (spec_targets_frontmatter(query_str@), spec_targets_filename(query_str@)),
{
    let fields = field_qualifiers(query_str);
    let ghost fv = fields@.map_values(|v: Vec<char>| v@);
    let mut has_fm = false;
    let mut has_filename = false;
    for i in 0..fields.len()
        invariant
            fv == fields@.map_values(|v: Vec<char>| v@),
            fv == query_fields(query_str@),
            has_fm == exists|k: int| 0 <= k < i && is_frontmatter_field(#[trigger] fv[k]),
            has_filename == exists|k: int| 0 <= k < i && #[trigger] fv[k] == "filename"@,
    {
        assert(fv[i as int] == fields@[i as int]@);
        if chars_start_with_str(&fields[i], "frontmatter.") {
            has_fm = true;
        }
        if chars_equal_str(&fields[i], "filename") {
            has_filename = true;
        }
    }
    (has_fm, has_filename)
}

/// Whether a query has a `frontmatter.<key>:` qualifier.
pub fn query_targets_frontmatter(query_str: &str) -> (b: bool)
    ensures
        b == spec_targets_frontmatter(query_str@),
{
    scan_field_qualifiers(query_str).0
}

/// Whether a query has a `filename:` qualifier.
pub fn query_targets_filename(query_str: &str) -> (b: bool)
    ensures
        b == spec_targets_filename(query_str@),
{
    scan_field_qualifiers(query_str).1
}

/// Whether a query uses a qualifier that only makes sense in file mode
/// (`filename:` or `frontmatter.<key>:`); the search then switches to file
/// mode when no mode is given.
pub fn query_implies_file_mode(query: &str) -> (b: bool)
    ensures
        b == spec_implies_file_mode(query@),
{
    let (fm, fname) = scan_field_qualifiers(query);
    fm || fname
}

/// The key of the first `frontmatter.<key>:` qualifier of a query.
pub open spec fn spec_target_key(q: Seq<char>) -> Option<Seq<char>> {
    first_frontmatter_key(query_fields(q))
}

pub open spec fn first_frontmatter_key(fs: Seq<Seq<char>>) -> Option<Seq<char>>
    decreases fs.len(),
{
    if fs.len() == 0 {
        None
    } else if is_frontmatter_field(fs[0]) {
        Some(fs[0].skip(12))
    } else {
        first_frontmatter_key(fs.drop_first())
    }
}

/// The key named by the first `frontmatter.<key>:` qualifier of a query.
pub fn frontmatter_target_key(query_str: &str) -> (r: Option<Vec<char>>)
    ensures
        match spec_target_key(query_str@) {
            Some(k) => r matches Some(v) && v@ == k,
            None => r is None,
        },
{
    let fields = field_qualifiers(query_str);
    let ghost fv = fields@.map_values(|v: Vec<char>| v@);
    proof {
        reveal_strlit("frontmatter.");
    }
    assert("frontmatter."@.len() == 12);
    assert(fv.skip(0) == fv);
    let mut i: usize = 0;
    while i < fields.len()
        invariant
            fv == fields@.map_values(|v: Vec<char>| v@),
            fv == query_fields(query_str@),
            i <= fields.len(),
            "frontmatter."@.len() == 12,
            first_frontmatter_key(fv) == first_frontmatter_key(fv.skip(i as int)),
        decreases fields.len() - i,
    {
        let f = &fields[i];
        assert(fv.skip(i as int)[0] == f@);
        if chars_start_with_str(f, "frontmatter.") {
            assert(f@.len() >= 12);
            let mut key: Vec<char> = Vec::new();
            let mut k: usize = 12;
            while k < f.len()
                invariant
                    12 <= k <= f.len(),
                    key@ == f@.subrange(12, k as int),
                decreases f.len() - k,
            {
                key.push(f[k]);
                assert(f@.subrange(12, k + 1) == f@.subrange(12, k as int).push(f@[k as int]));
                k = k + 1;
            }
            assert(key@ =~= f@.skip(12));
            return Some(key);
        }
        assert(fv.skip(i as int).drop_first() == fv.skip(i as int + 1));
        i = i + 1;
    }
    None
}

/// The (Japanese field, bigram field) pair behind a user-facing field name.
pub open spec fn spec_logical_to_physical(logical: Seq<char>) -> Option<(Seq<char>, Seq<char>)> {
    if logical == "body"@ {
        Some(("body_japanese"@, "body_bigram"@))
    } else if logical == "filename"@ {
        Some(("filename"@, "filename_bigram"@))
    } else {
        None
    }
}

/// Maps the logical field names `body` and `filename` to the (Japanese
/// field, bigram field) pair used internally; `None` for every other name.
pub fn logical_to_physical(logical: &str) -> (r: Option<(&'static str, &'static str)>)
    ensures
        match spec_logical_to_physical(logical@) {
            Some((a, b)) => r matches Some((x, y)) && x@ == a && y@ == b,
            None => r is None,
        },
{
    let v = chars_of(logical);
    if chars_equal_str(&v, "body") {
        Some(("body_japanese", "body_bigram"))
    } else if chars_equal_str(&v, "filename") {
        Some(("filename", "filename_bigram"))
    } else {
        None
    }
}

/// The physical field names that a field qualifier is rewritten to: the
/// logical names through `spec_logical_to_physical`, `frontmatter.<key>` to
/// itself and `frontmatter_bigram.<key>`, any other name to itself twice.
pub open spec fn physical_fields(f: Seq<char>) -> (Seq<char>, Seq<char>) {
    match spec_logical_to_physical(f) {
        Some(p) => p,
        None => if is_frontmatter_field(f) {
            (f, "frontmatter_bigram."@ + f.skip(12))
        } else {
            (f, f)
        },
    }
}

/// End of the run of field characters starting at `i`.
pub open spec fn field_end(q: Seq<char>, i: int) -> int
    decreases q.len() - i,
{
    if 0 <= i < q.len() && is_field_char(q[i]) {
        field_end(q, i + 1)
    } else {
        i
    }
}

pub proof fn lemma_field_end(q: Seq<char>, i: int)
    requires
        0 <= i <= q.len(),
    ensures
        i <= field_end(q, i) <= q.len(),
        forall|k: int| i <= k < field_end(q, i) ==> is_field_char(#[trigger] q[k]),
        field_end(q, i) < q.len() ==> !is_field_char(q[field_end(q, i)]),
    decreases q.len() - i,
{
    if i < q.len() && is_field_char(q[i]) {
        lemma_field_end(q, i + 1);
    }
}

pub open spec fn prepend_pair(a: Seq<char>, b: Seq<char>, r: (Seq<char>, Seq<char>)) -> (Seq<char>, Seq<char>) {
    (a + r.0, b + r.1)
}

/// The rewriting of `q` from position `i` on: white space is copied, a field
/// qualifier `[+|-]field:` becomes its physical field names, anything else
/// made of field characters is copied, and any other character (a quote, a
/// bracket, `*`, a `:` that follows no field name) is copied as it is.
#[verifier::opaque]
pub open spec fn rewrite_from(q: Seq<char>, i: int) -> (Seq<char>, Seq<char>)
    decreases q.len() - i,
{
    if i < 0 || i >= q.len() {
        (seq![], seq![])
    } else if is_ws(q[i]) {
        prepend_pair(seq![q[i]], seq![q[i]], rewrite_from(q, i + 1))
    } else {
        let sign = q[i] == '+' || q[i] == '-';
        let s = if sign {
            i + 1
        } else {
            i
        };
        let prefix = if sign {
            seq![q[i]]
        } else {
            Seq::<char>::empty()
        };
        proof {
            lemma_field_end(q, s);
        }
        let j = field_end(q, s);
        let cand = q.subrange(s, j);
        if j < q.len() && q[j] == ':' && cand.len() > 0 {
            let (pj, pb) = physical_fields(cand);
            prepend_pair(prefix + pj + seq![':'], prefix + pb + seq![':'], rewrite_from(q, j + 1))
        } else if j == i {
            prepend_pair(seq![q[i]], seq![q[i]], rewrite_from(q, i + 1))
        } else {
            prepend_pair(prefix + cand, prefix + cand, rewrite_from(q, j))
        }
    }
}

pub proof fn lemma_prepend_pair(a: Seq<char>, b: Seq<char>, c: Seq<char>, d: Seq<char>, r: (Seq<char>, Seq<char>))
    ensures
        prepend_pair(a, b, prepend_pair(c, d, r)) == prepend_pair(a + c, b + d, r),
{
    assert(a + (c + r.0) == a + c + r.0);
    assert(b + (d + r.1) == b + d + r.1);
}

proof fn lemma_rewrite_ws(q: Seq<char>, i: int)
    requires
        0 <= i < q.len(),
        is_ws(q[i]),
    ensures
        rewrite_from(q, i) == prepend_pair(seq![q[i]], seq![q[i]], rewrite_from(q, i + 1)),
{
    reveal(rewrite_from);
}

proof fn lemma_rewrite_token(q: Seq<char>, i: int, s: int, j: int, prefix: Seq<char>)
    requires
        0 <= i < q.len(),
        !is_ws(q[i]),
        s == (if q[i] == '+' || q[i] == '-' {
            i + 1
        } else {
            i
        }),
        prefix == (if q[i] == '+' || q[i] == '-' {
            seq![q[i]]
        } else {
            Seq::<char>::empty()
        }),
        j == field_end(q, s),
    ensures
        ({
            let cand = q.subrange(s, j);
            rewrite_from(q, i) == if j < q.len() && q[j] == ':' && cand.len() > 0 {
                prepend_pair(
                    prefix + physical_fields(cand).0 + seq![':'],
                    prefix + physical_fields(cand).1 + seq![':'],
                    rewrite_from(q, j + 1),
                )
            } else if j == i {
                prepend_pair(seq![q[i]], seq![q[i]], rewrite_from(q, i + 1))
            } else {
                prepend_pair(prefix + cand, prefix + cand, rewrite_from(q, j))
            }
        }),
{
    reveal(rewrite_from);
}

proof fn lemma_rewrite_end(q: Seq<char>, i: int)
    requires
        i >= q.len(),
    ensures
        rewrite_from(q, i) == (Seq::<char>::empty(), Seq::<char>::empty()),
{
    reveal(rewrite_from);
}

/// The rewriting copies a stretch of the query that holds no `:` as it is.
proof fn lemma_rewrite_copies(q: Seq<char>, i: int)
    requires
        0 <= i <= q.len(),
        forall|k: int| i <= k < q.len() ==> q[k] != ':',
    ensures
        rewrite_from(q, i) == (q.skip(i), q.skip(i)),
    decreases q.len() - i,
{
    if i == q.len() {
        lemma_rewrite_end(q, i);
        assert(q.skip(i) =~= Seq::<char>::empty());
    } else if is_ws(q[i]) {
        lemma_rewrite_ws(q, i);
        lemma_rewrite_copies(q, i + 1);
        assert(seq![q[i]] + q.skip(i + 1) =~= q.skip(i));
    } else {
        let sign = q[i] == '+' || q[i] == '-';
        let s = if sign {
            i + 1
        } else {
            i
        };
        let prefix = if sign {
            seq![q[i]]
        } else {
            Seq::<char>::empty()
        };
        lemma_field_end(q, s);
        let j = field_end(q, s);
        lemma_rewrite_token(q, i, s, j, prefix);
        if j == i {
            lemma_rewrite_copies(q, i + 1);
            assert(seq![q[i]] + q.skip(i + 1) =~= q.skip(i));
        } else {
            lemma_rewrite_copies(q, j);
            assert(prefix + q.subrange(s, j) + q.skip(j) =~= q.skip(i));
        }
    }
}

proof fn lemma_field_end_of_name(q: Seq<char>, n: int, k: int)
    requires
        0 <= k <= n < q.len(),
        forall|m: int| 0 <= m < n ==> is_ascii_field_char(#[trigger] q[m]),
        q[n] == ':',
    ensures
        field_end(q, k) == n,
    decreases n - k,
{
    if k < n {
        assert(is_ascii_field_char(q[k]));
        assert(is_field_char(q[k]));
        lemma_field_end_of_name(q, n, k + 1);
    }
}

/// A field qualifier `name:value` is rewritten to the physical fields of the
/// name, whatever the name's letters, digits, `_` and `.`, and the value is
/// kept as it is: `frontmatter.<key>:v` becomes `frontmatter_bigram.<key>:v`
/// on the bigram side, `body:v` becomes `body_japanese:v` and `body_bigram:v`.
pub proof fn lemma_rewrite_qualifier(f: Seq<char>, v: Seq<char>)
    requires
        f.len() > 0,
        forall|k: int|
            0 <= k < f.len() ==> ({
                let c = #[trigger] f[k];
                ('a' <= c && c <= 'z') || ('A' <= c && c <= 'Z') || ('0' <= c && c <= '9') || c == '_'
                    || c == '.'
            }),
        !v.contains(':'),
    ensures
        rewrite_from(f + seq![':'] + v, 0) == (
            physical_fields(f).0 + seq![':'] + v,
            physical_fields(f).1 + seq![':'] + v,
        ),
        "frontmatter."@.is_prefix_of(f) ==> rewrite_from(f + seq![':'] + v, 0) == (
            f + seq![':'] + v,
            "frontmatter_bigram."@ + f.skip(12) + seq![':'] + v,
        ),
        f == "body"@ ==> rewrite_from(f + seq![':'] + v, 0) == (
            "body_japanese"@ + seq![':'] + v,
            "body_bigram"@ + seq![':'] + v,
        ),
        f == "filename"@ ==> rewrite_from(f + seq![':'] + v, 0) == (
            f + seq![':'] + v,
            "filename_bigram"@ + seq![':'] + v,
        ),
{
    reveal_strlit("frontmatter.");
    reveal_strlit("body");
    reveal_strlit("filename");
    let q = f + seq![':'] + v;
    let n = f.len() as int;
    assert forall|m: int| 0 <= m < n implies is_ascii_field_char(#[trigger] q[m]) by {
        assert(q[m] == f[m]);
    }
    assert(q[n] == ':');
    assert(is_ascii_field_char(q[0]));
    assert(!is_ws(q[0]));
    lemma_field_end_of_name(q, n, 0);
    lemma_rewrite_token(q, 0, 0, n, Seq::<char>::empty());
    assert(q.subrange(0, n) =~= f);
    assert forall|k: int| n + 1 <= k < q.len() implies q[k] != ':' by {
        assert(q[k] == v[k - n - 1]);
        if q[k] == ':' {
            assert(v.contains(':'));
        }
    }
    lemma_rewrite_copies(q, n + 1);
    assert(q.skip(n + 1) =~= v);
    let (pj, pb) = physical_fields(f);
    assert(Seq::<char>::empty() + pj + seq![':'] + v =~= pj + seq![':'] + v);
    assert(Seq::<char>::empty() + pb + seq![':'] + v =~= pb + seq![':'] + v);
}

proof fn lemma_tokens_single(s: Seq<char>)
    requires
        s.len() > 0,
        forall|k: int| 0 <= k < s.len() ==> !is_ws(#[trigger] s[k]),
    ensures
        tokens_state(s) == (seq![s], true),
    decreases s.len(),
{
    let t = s.drop_last();
    assert(!is_ws(s[s.len() - 1]));
    if t.len() == 0 {
        assert(tokens_state(t) == (Seq::<Seq<char>>::empty(), false));
        assert(seq![s.last()] =~= s);
    } else {
        assert forall|k: int| 0 <= k < t.len() implies !is_ws(#[trigger] t[k]) by {
            assert(t[k] == s[k]);
        }
        lemma_tokens_single(t);
        assert(t.push(s.last()) =~= s);
        assert(seq![t].update(0, t.push(s.last())) =~= seq![s]);
    }
}

proof fn lemma_field_run_of_name(x: Seq<char>, n: int)
    requires
        0 <= n < x.len(),
        forall|m: int| 0 <= m < n ==> is_ascii_field_char(#[trigger] x[m]),
        x[n] == ':',
    ensures
        field_run(x) == n,
    decreases n,
{
    if n > 0 {
        assert(is_ascii_field_char(x[0]));
        let y = x.drop_first();
        assert forall|m: int| 0 <= m < n - 1 implies is_ascii_field_char(#[trigger] y[m]) by {
            assert(y[m] == x[m + 1]);
        }
        lemma_field_run_of_name(y, n - 1);
    }
}

/// A query made of one qualifier `name:value` (no white space) names that
/// field, whatever the name's letters, digits, `_` and `.`: so a
/// `frontmatter.<key>:` qualifier targets the frontmatter and implies file
/// mode.
pub proof fn lemma_query_field_of_qualifier(f: Seq<char>, v: Seq<char>)
    requires
        f.len() > 0,
        forall|k: int|
            0 <= k < f.len() ==> ({
                let c = #[trigger] f[k];
                ('a' <= c && c <= 'z') || ('A' <= c && c <= 'Z') || ('0' <= c && c <= '9') || c == '_'
                    || c == '.'
            }),
        forall|k: int| 0 <= k < v.len() ==> !is_ws(#[trigger] v[k]),
    ensures
        query_fields(f + seq![':'] + v) == seq![f],
        "frontmatter."@.is_prefix_of(f) ==> spec_targets_frontmatter(f + seq![':'] + v)
            && spec_implies_file_mode(f + seq![':'] + v),
{
    let q = f + seq![':'] + v;
    let n = f.len() as int;
    assert forall|k: int| 0 <= k < q.len() implies !is_ws(#[trigger] q[k]) by {
        if k < n {
            assert(q[k] == f[k]);
            assert(is_ascii_field_char(f[k]));
        } else if k > n {
            assert(q[k] == v[k - n - 1]);
        }
    }
    lemma_tokens_single(q);
    assert(ws_tokens(q) == seq![q]);
    assert forall|m: int| 0 <= m < n implies is_ascii_field_char(#[trigger] q[m]) by {
        assert(q[m] == f[m]);
    }
    assert(is_ascii_field_char(q[0]));
    lemma_field_run_of_name(q, n);
    assert(q.take(n) =~= f);
    assert(qualifier_of_token(q) == Some(f));
    let ts = seq![q];
    assert(ts.drop_last() =~= Seq::<Seq<char>>::empty());
    assert(token_fields(ts.drop_last()) =~= Seq::<Seq<char>>::empty());
    assert(ts.last() == q);
    assert(token_fields(ts) =~= seq![f]);
    assert(query_fields(q) =~= seq![f]);
    if "frontmatter."@.is_prefix_of(f) {
        assert(query_fields(q)[0] == f);
        assert(is_frontmatter_field(query_fields(q)[0]));
    }
}

fn physical_fields_exec(f: &Vec<char>) -> (r: (Vec<char>, Vec<char>))
    ensures
        (r.0@, r.1@) == physical_fields(f@),
{
    let name = string_from_chars(f);
    match logical_to_physical(name.as_str()) {
        Some((a, b)) => (chars_of(a), chars_of(b)),
        None => {
            if chars_start_with_str(f, "frontmatter.") {
                proof {
                    reveal_strlit("frontmatter.");
                }
                assert(f@.len() >= 12);
                let mut b = chars_of("frontmatter_bigram.");
                push_range(&mut b, f, 12, f.len());
                assert(f@.subrange(12, f@.len() as int) == f@.skip(12));
                (chars_range(f, 0, f.len()), b)
            } else {
                assert(f@.subrange(0, f@.len() as int) == f@);
                (chars_range(f, 0, f.len()), chars_range(f, 0, f.len()))
            }
        },
    }
}

/// Rewrites a query into a pair of query strings, one for the Japanese
/// fields and one for the bigram fields, so that the qualifiers `body:`,
/// `filename:` and `frontmatter.<key>:` name the physical fields; other field
/// names pass through unchanged, and so does every other character.
pub fn rewrite_query(query_str: &str) -> (r: (String, String))
    ensures
        (r.0@, r.1@) == rewrite_from(query_str@, 0),
{
    let q = chars_of(query_str);
    let len = q.len();
    proof {
        let r0 = rewrite_from(q@, 0);
        assert(Seq::<char>::empty() + r0.0 == r0.0);
        assert(Seq::<char>::empty() + r0.1 == r0.1);
    }
    let mut jout: Vec<char> = Vec::new();
    let mut bout: Vec<char> = Vec::new();
    let mut i: usize = 0;
    while i < len
        invariant
            q@ == query_str@,
            len == q.len(),
            i <= len,
            rewrite_from(q@, 0) == prepend_pair(jout@, bout@, rewrite_from(q@, i as int)),
        decreases len - i,
    {
        let c = q[i];
        let ghost (j0, b0) = (jout@, bout@);
        if is_whitespace(c) {
            jout.push(c);
            bout.push(c);
            proof {
                lemma_rewrite_ws(q@, i as int);
                lemma_prepend_pair(j0, b0, seq![c], seq![c], rewrite_from(q@, i + 1));
                assert(jout@ == j0 + seq![c]);
                assert(bout@ == b0 + seq![c]);
            }
            i = i + 1;
            continue;
        }
        let sign = c == '+' || c == '-';
        let s: usize = if sign {
            i + 1
        } else {
            i
        };
        proof {
            lemma_field_end(q@, s as int);
        }
        let mut j = s;
        while j < len && field_char(q[j])
            invariant
                s <= j <= len,
                len == q.len(),
                field_end(q@, s as int) == field_end(q@, j as int),
            decreases len - j,
        {
            j = j + 1;
        }
        let ghost prefix = if sign {
            seq![c]
        } else {
            Seq::<char>::empty()
        };
        proof {
            lemma_rewrite_token(q@, i as int, s as int, j as int, prefix);
        }
        let cand = chars_range(&q, s, j);
        if j < len && q[j] == ':' && j > s {
            let (pj, pb) = physical_fields_exec(&cand);
            if sign {
                jout.push(c);
                bout.push(c);
            }
            push_range(&mut jout, &pj, 0, pj.len());
            push_range(&mut bout, &pb, 0, pb.len());
            jout.push(':');
            bout.push(':');
            proof {
                assert(jout@ =~= j0 + (prefix + pj@ + seq![':']));
                assert(bout@ =~= b0 + (prefix + pb@ + seq![':']));
                lemma_prepend_pair(
                    j0,
                    b0,
                    prefix + pj@ + seq![':'],
                    prefix + pb@ + seq![':'],
                    rewrite_from(q@, j + 1),
                );
            }
            i = j + 1;
        } else if j == i {
            jout.push(c);
            bout.push(c);
            proof {
                lemma_prepend_pair(j0, b0, seq![c], seq![c], rewrite_from(q@, i + 1));
                assert(jout@ == j0 + seq![c]);
                assert(bout@ == b0 + seq![c]);
            }
            i = i + 1;
        } else {
            if sign {
                jout.push(c);
                bout.push(c);
            }
            push_range(&mut jout, &cand, 0, cand.len());
            push_range(&mut bout, &cand, 0, cand.len());
            proof {
                assert(jout@ =~= j0 + (prefix + cand@));
                assert(bout@ =~= b0 + (prefix + cand@));
                lemma_prepend_pair(j0, b0, prefix + cand@, prefix + cand@, rewrite_from(q@, j as int));
            }
            i = j;
        }
    }
    proof {
        lemma_rewrite_end(q@, i as int);
        assert(jout@ + Seq::<char>::empty() == jout@);
        assert(bout@ + Seq::<char>::empty() == bout@);
    }
    (string_from_chars(&jout), string_from_chars(&bout))
}

/// `key:value`.
pub open spec fn key_value(k: Seq<char>, v: Seq<char>) -> Seq<char> {
    k + seq![':'] + v
}

/// The value of the first pair whose key is `key`.
pub open spec fn first_value_of(pairs: Seq<(String, String)>, key: Seq<char>) -> Option<Seq<char>>
    decreases pairs.len(),
{
    if pairs.len() == 0 {
        None
    } else if pairs[0].0@ == key {
        Some(pairs[0].1@)
    } else {
        first_value_of(pairs.drop_first(), key)
    }
}

/// `key:value` of every pair whose key is not `skip`, in order.
pub open spec fn other_parts(pairs: Seq<(String, String)>, skip: Option<Seq<char>>) -> Seq<Seq<char>>
    decreases pairs.len(),
{
    if pairs.len() == 0 {
        seq![]
    } else {
        let r = other_parts(pairs.drop_last(), skip);
        let (k, v) = pairs.last();
        if skip == Some(k@) {
            r
        } else {
            r.push(key_value(k@, v@))
        }
    }
}

/// The parts of a frontmatter snippet: the key that the query targets
/// first, then the other keys in order.
pub open spec fn frontmatter_parts(pairs: Seq<(String, String)>, target: Option<Seq<char>>) -> Seq<
    Seq<char>,
> {
    let first = match target {
        Some(key) => match first_value_of(pairs, key) {
            Some(v) => seq![key_value(key, v)],
            None => seq![],
        },
        None => seq![],
    };
    first + other_parts(pairs, target)
}

/// The parts joined with `sep` between them.
pub open spec fn join(parts: Seq<Seq<char>>, sep: Seq<char>) -> Seq<char>
    decreases parts.len(),
{
    if parts.len() == 0 {
        seq![]
    } else if parts.len() == 1 {
        parts[0]
    } else {
        join(parts.drop_last(), sep) + sep + parts.last()
    }
}

pub open spec fn spec_frontmatter_snippet(pairs: Seq<(String, String)>, q: Seq<char>) -> Seq<char> {
    join(frontmatter_parts(pairs, spec_target_key(q)), seq![' ', ' '])
}

fn first_value_exec(pairs: &Vec<(String, String)>, key: &Vec<char>) -> (r: Option<Vec<char>>)
    ensures
        match first_value_of(pairs@, key@) {
            Some(v) => r matches Some(x) && x@ == v,
            None => r is None,
        },
{
    let mut i: usize = 0;
    assert(pairs@.skip(0) == pairs@);
    while i < pairs.len()
        invariant
            i <= pairs.len(),
            first_value_of(pairs@, key@) == first_value_of(pairs@.skip(i as int), key@),
        decreases pairs.len() - i,
    {
        assert(pairs@.skip(i as int)[0] == pairs@[i as int]);
        let k = chars_of(pairs[i].0.as_str());
        if k.len() == key.len() {
            let mut j: usize = 0;
            while j < k.len() && k[j] == key[j]
                invariant
                    k.len() == key.len(),
                    j <= k.len(),
                    forall|m: int| 0 <= m < j ==> k@[m] == key@[m],
                decreases k.len() - j,
            {
                j = j + 1;
            }
            if j == k.len() {
                assert(k@ =~= key@);
                return Some(chars_of(pairs[i].1.as_str()));
            }
            assert(k@[j as int] != key@[j as int]);
        }
        assert(pairs@.skip(i as int).drop_first() == pairs@.skip(i as int + 1));
        i = i + 1;
    }
    None
}

fn push_part(out: &mut Vec<char>, count: bool, k: &Vec<char>, v: &Vec<char>)
    ensures
        final(out)@ == old(out)@ + (if count {
            seq![' ', ' ']
        } else {
            Seq::<char>::empty()
        }) + key_value(k@, v@),
{
    let ghost o = out@;
    if count {
        out.push(' ');
        out.push(' ');
    }
    push_range(out, k, 0, k.len());
    out.push(':');
    push_range(out, v, 0, v.len());
    assert(k@.subrange(0, k@.len() as int) == k@);
    assert(v@.subrange(0, v@.len() as int) == v@);
    assert(out@ =~= o + (if count {
        seq![' ', ' ']
    } else {
        Seq::<char>::empty()
    }) + key_value(k@, v@));
}

proof fn lemma_join_push(parts: Seq<Seq<char>>, x: Seq<char>, sep: Seq<char>)
    ensures
        join(parts.push(x), sep) == join(parts, sep) + (if parts.len() > 0 {
            sep
        } else {
            Seq::<char>::empty()
        }) + x,
{
    assert(parts.push(x).drop_last() == parts);
    if parts.len() == 0 {
        assert(parts.push(x)[0] == x);
        assert(Seq::<char>::empty() + Seq::<char>::empty() + x == x);
    }
}

/// The frontmatter pairs of a document as a `key:value` snippet, pairs
/// separated by two spaces; the key named by the query's first
/// `frontmatter.<key>:` qualifier comes first.
pub fn frontmatter_snippet(pairs: &Vec<(String, String)>, query_str: &str) -> (res: String)
    ensures
        res@ == spec_frontmatter_snippet(pairs@, query_str@),
{
    let target = frontmatter_target_key(query_str);
    let ghost tk = spec_target_key(query_str@);
    let mut out: Vec<char> = Vec::new();
    let mut count: bool = false;
    let ghost mut parts: Seq<Seq<char>> = seq![];
    match &target {
        Some(key) => {
            match first_value_exec(pairs, key) {
                Some(v) => {
                    push_part(&mut out, count, key, &v);
                    proof {
                        lemma_join_push(parts, key_value(key@, v@), seq![' ', ' ']);
                        parts = parts.push(key_value(key@, v@));
                    }
                    count = true;
                },
                None => {},
            }
        },
        None => {},
    }
    let ghost first = parts;
    assert(first == frontmatter_parts(pairs@, tk).take(first.len() as int)) by {
        assert(frontmatter_parts(pairs@, tk) == first + other_parts(pairs@, tk));
    }
    for i in 0..pairs.len()
        invariant
            parts == first + other_parts(pairs@.take(i as int), tk),
            out@ == join(parts, seq![' ', ' ']),
            count == (parts.len() > 0),
            match (target, tk) {
                (Some(a), Some(b)) => a@ == b,
                (None, None) => true,
                _ => false,
            },
    {
        assert(pairs@.take(i as int + 1).drop_last() == pairs@.take(i as int));
        let k = chars_of(pairs[i].0.as_str());
        let skip = match &target {
            Some(key) => chars_equal_str(key, pairs[i].0.as_str()),
            None => false,
        };
        assert(skip == (tk == Some(pairs@[i as int].0@)));
        if !skip {
            let v = chars_of(pairs[i].1.as_str());
            push_part(&mut out, count, &k, &v);
            proof {
                lemma_join_push(parts, key_value(k@, v@), seq![' ', ' ']);
                assert(parts.push(key_value(k@, v@)) == first + other_parts(
                    pairs@.take(i as int + 1),
                    tk,
                ));
                parts = parts.push(key_value(k@, v@));
            }
            count = true;
        }
    }
    assert(pairs@.take(pairs.len() as int) == pairs@);
    string_from_chars(&out)
}

/// Number of characters shown in a snippet window.
pub const WINDOW_CHARS: usize = 120;

/// Number of characters shown before the match.
pub const CONTEXT_CHARS: usize = 40;

/// Index of the body character where the normalized search term of the
/// query first occurs in the normalized body.
pub open spec fn snippet_match(body: Seq<char>, q: Seq<char>) -> Option<int> {
    let pat = spec_normalize(spec_strip_query_syntax(q));
    let fr = norm_fragments(body);
    if pat.len() == 0 {
        None
    } else {
        match first_occurrence_from(concat_all(fr), pat, 0) {
            Some(p) => Some(origin(fr)[p]),
            None => None,
        }
    }
}

/// Where the snippet window starts.
pub open spec fn snippet_start(body: Seq<char>, q: Seq<char>) -> int {
    match snippet_match(body, q) {
        Some(c) => if c >= CONTEXT_CHARS {
            c - CONTEXT_CHARS
        } else {
            0
        },
        None => 0,
    }
}

/// A window of `WINDOW_CHARS` characters of the body starting
/// `CONTEXT_CHARS` before the first match (or at the start when there is
/// none), with `…` marking cut text on either side.
pub open spec fn spec_extract_snippet(body: Seq<char>, q: Seq<char>) -> Seq<char> {
    let start = snippet_start(body, q);
    let n = body.len() as int;
    if start >= n {
        body
    } else {
        let truncated = n - start > WINDOW_CHARS;
        let end = if truncated {
            start + WINDOW_CHARS
        } else {
            n
        };
        (if start > 0 {
            seq!['…']
        } else {
            Seq::<char>::empty()
        }) + body.subrange(start, end) + (if truncated {
            seq!['…']
        } else {
            Seq::<char>::empty()
        })
    }
}

proof fn lemma_first_occurrence_at(hay: Seq<char>, pat: Seq<char>, k: int, p: int)
    requires
        0 <= k <= p,
        pat.len() > 0,
        occurs_at(hay, pat, p),
        forall|m: int| k <= m < p ==> !occurs_at(hay, pat, m),
    ensures
        first_occurrence_from(hay, pat, k) == Some(p),
    decreases p - k,
{
    if k < p {
        lemma_first_occurrence_at(hay, pat, k + 1, p);
    }
}

proof fn lemma_no_occurrence(hay: Seq<char>, pat: Seq<char>, k: int)
    requires
        0 <= k,
        forall|m: int| k <= m ==> !occurs_at(hay, pat, m),
    ensures
        first_occurrence_from(hay, pat, k) is None,
    decreases hay.len() - k,
{
    if k < hay.len() {
        lemma_no_occurrence(hay, pat, k + 1);
    }
}

/// The snippet of a matching file is the window of at most 120 characters
/// that starts 40 characters before (or at the start of the body, when
/// closer) the character where the plain search term of the query (its
/// sign, field qualifier and quotes stripped), normalized, first occurs in
/// the normalized body; `…` marks text cut off before or after the window.
pub proof fn lemma_snippet_window(b: Seq<char>, q: Seq<char>, p: int)
    requires
        spec_normalize(spec_strip_query_syntax(q)).len() > 0,
        occurs_at(concat_all(norm_fragments(b)), spec_normalize(spec_strip_query_syntax(q)), p),
        forall|k: int|
            0 <= k < p ==> !occurs_at(concat_all(norm_fragments(b)), spec_normalize(spec_strip_query_syntax(q)), k),
    ensures
        ({
            let c = origin(norm_fragments(b))[p];
            let s = if c >= 40 {
                c - 40
            } else {
                0
            };
            let cut = b.len() - s > 120;
            let e = if cut {
                s + 120
            } else {
                b.len() as int
            };
            &&& 0 <= c < b.len()
            &&& spec_extract_snippet(b, q) == (if s > 0 {
                seq!['…']
            } else {
                Seq::<char>::empty()
            }) + b.subrange(s, e) + (if cut {
                seq!['…']
            } else {
                Seq::<char>::empty()
            })
        }),
{
    let pat = spec_normalize(spec_strip_query_syntax(q));
    let fr = norm_fragments(b);
    lemma_first_occurrence_at(concat_all(fr), pat, 0, p);
    lemma_origin(fr);
    assert(p < concat_all(fr).len());
    assert(0 <= origin(fr)[p] < fr.len());
}

/// Where the plain search term of the query never occurs in the normalized
/// body (or is empty), the snippet is the first 120 characters of the body,
/// `…` marking text cut off after them.
pub proof fn lemma_snippet_without_match(b: Seq<char>, q: Seq<char>)
    requires
        spec_normalize(spec_strip_query_syntax(q)).len() == 0 || forall|k: int|
            0 <= k ==> !occurs_at(concat_all(norm_fragments(b)), spec_normalize(spec_strip_query_syntax(q)), k),
    ensures
        b.len() == 0 ==> spec_extract_snippet(b, q) == b,
        b.len() > 0 ==> spec_extract_snippet(b, q) == (if b.len() > 120 {
            b.subrange(0, 120) + seq!['…']
        } else {
            b
        }),
{
    let pat = spec_normalize(spec_strip_query_syntax(q));
    if pat.len() > 0 {
        lemma_no_occurrence(concat_all(norm_fragments(b)), pat, 0);
    }
    assert(b.subrange(0, b.len() as int) =~= b);
    assert(Seq::<char>::empty() + b.subrange(0, 120) + seq!['…'] =~= b.subrange(0, 120) + seq!['…']);
    assert(Seq::<char>::empty() + b + Seq::<char>::empty() =~= b);
}

/// The snippet depends on the query only through its plain search term:
/// two queries whose sign, field qualifier and quotes strip to the same
/// term give the same snippet (`"needle"` as `needle`).
pub proof fn lemma_snippet_depends_on_term(b: Seq<char>, q1: Seq<char>, q2: Seq<char>)
    requires
        spec_strip_query_syntax(q1) == spec_strip_query_syntax(q2),
    ensures
        spec_extract_snippet(b, q1) == spec_extract_snippet(b, q2),
{
}

/// Extracts the text around the first match of the query in `body`, using
/// the same normalization as the index, so that e.g. `もでる` locates `モデル`.
pub fn extract_snippet(body: &str, query_str: &str) -> (res: String)
    ensures
        res@ == spec_extract_snippet(body@, query_str@),
{
    let chars = chars_of(body);
    let n = chars.len();
    let raw = strip_query_syntax(query_str);
    let raw_chars = chars_of(raw);
    let pat = normalize_chars(&raw_chars);
    let (norm, orig) = normalized_with_origin(&chars);
    let ghost fr = norm_fragments(body@);
    proof {
        lemma_origin(fr);
    }
    let mut match_orig: Option<usize> = None;
    if pat.len() > 0 {
        match first_occurrence(&norm, &pat) {
            Some(p) => {
                assert(int_view(orig@)[p as int] == orig@[p as int]);
                match_orig = Some(orig[p]);
            },
            None => {},
        }
    }
    proof {
        lemma_first_occurrence(norm@, pat@, 0);
        assert(fr.len() == n);
        assert(pat@ == spec_normalize(spec_strip_query_syntax(query_str@)));
        match snippet_match(body@, query_str@) {
            Some(c) => {
                let p = first_occurrence_from(norm@, pat@, 0)->0;
                assert(origin(fr)[p] == c);
                assert(0 <= c < n);
            },
            None => {},
        }
    }
    assert(match_orig == (match snippet_match(body@, query_str@) {
        Some(c) => Some(c as usize),
        None => None::<usize>,
    }));
    let start: usize = match match_orig {
        Some(c) => if c >= CONTEXT_CHARS {
            c - CONTEXT_CHARS
        } else {
            0
        },
        None => 0,
    };
    assert(start == snippet_start(body@, query_str@));
    if start >= n {
        return String::from_str(body);
    }
    let truncated = n - start > WINDOW_CHARS;
    let end = if truncated {
        start + WINDOW_CHARS
    } else {
        n
    };
    let mut out: Vec<char> = Vec::new();
    if start > 0 {
        out.push('…');
    }
    push_range(&mut out, &chars, start, end);
    if truncated {
        out.push('…');
    }
    assert(out@ =~= spec_extract_snippet(body@, query_str@));
    string_from_chars(&out)
}

/// The snippet shown for a matching file: the frontmatter pairs when the
/// query targets a frontmatter key (the body snippet when that is empty), the
/// file name when it targets `filename`, the body snippet otherwise. A
/// missing body or file name counts as empty text.
pub open spec fn spec_file_snippet(
    q: Seq<char>,
    pairs: Seq<(String, String)>,
    body: Option<Seq<char>>,
    filename: Option<Seq<char>>,
) -> Seq<char> {
    let qualified = q.contains(':');
    let body_snippet = match body {
        Some(b) => spec_extract_snippet(b, q),
        None => seq![],
    };
    if qualified && spec_targets_frontmatter(q) {
        let fm = spec_frontmatter_snippet(pairs, q);
        if fm.len() == 0 {
            body_snippet
        } else {
            fm
        }
    } else if qualified && spec_targets_filename(q) {
        match filename {
            Some(f) => f,
            None => seq![],
        }
    } else {
        body_snippet
    }
}

pub open spec fn opt_str_view(o: Option<&str>) -> Option<Seq<char>> {
    match o {
        Some(s) => Some(s@),
        None => None,
    }
}

/// Whether `s` holds `c`.
pub fn contains_char(s: &str, c: char) -> (b: bool)
    ensures
        b == s@.contains(c),
{
    let v = chars_of(s);
    let r = find_char(&v, 0, v.len(), c);
    proof {
        assert(v@.subrange(0, v@.len() as int) == v@);
        lemma_first_index_of(v@, c);
        if r is None {
            assert forall|i: int| 0 <= i < v@.len() implies v@[i] != c by {}
        }
    }
    r.is_some()
}

/// Chooses the snippet of a matching file (see `spec_file_snippet`).
pub fn file_snippet(
    query_str: &str,
    frontmatter_pairs: &Vec<(String, String)>,
    body: Option<&str>,
    filename: Option<&str>,
) -> (res: String)
    ensures
        res@ == spec_file_snippet(query_str@, frontmatter_pairs@, opt_str_view(body), opt_str_view(filename)),
{
    let qualified = contains_char(query_str, ':');
    let targets_fm = qualified && query_targets_frontmatter(query_str);
    let targets_filename = qualified && query_targets_filename(query_str);
    if targets_fm {
        let fm = frontmatter_snippet(frontmatter_pairs, query_str);
        let fm_chars = chars_of(fm.as_str());
        if fm_chars.len() > 0 {
            return fm;
        }
    } else if targets_filename {
        return match filename {
            Some(f) => String::from_str(f),
            None => String::new(),
        };
    }
    match body {
        Some(b) => extract_snippet(b, query_str),
        None => String::new(),
    }
}

/// How the search query is put to the index.
pub enum QueryPlan {
    /// Line mode: the query, parsed leniently over `body_japanese` and over
    /// `body_bigram`; a document matching either is a hit.
    Line { query: String },
    /// File mode, a query with a `frontmatter.<key>:` qualifier: only the
    /// rewritten bigram query, over the bigram fields.
    FileBigram { bigram_query: String },
    /// File mode, a qualified query: the rewritten Japanese query over
    /// `body_japanese` and `filename`, or the rewritten bigram query over the
    /// bigram fields.
    FileQualified { japanese_query: String, bigram_query: String },
    /// File mode, a plain query: over body and file name with both analyzers,
    /// or over each frontmatter key (Japanese query, bigram query).
    FilePlain { query: String, frontmatter_queries: Vec<(String, String)> },
}

/// `frontmatter.<key>:(<query>)` and `frontmatter_bigram.<key>:(<query>)`.
pub open spec fn frontmatter_query_pair(key: Seq<char>, q: Seq<char>) -> (Seq<char>, Seq<char>) {
    (
        "frontmatter."@ + key + ":("@ + q + ")"@,
        "frontmatter_bigram."@ + key + ":("@ + q + ")"@,
    )
}

pub open spec fn pair_views(v: Seq<(String, String)>) -> Seq<(Seq<char>, Seq<char>)> {
    v.map_values(|p: (String, String)| (p.0@, p.1@))
}

/// The plan of a query in the given mode over an index whose documents
/// hold the frontmatter keys `keys`.
pub open spec fn plan_matches(
    plan: QueryPlan,
    q: Seq<char>,
    mode: IndexMode,
    keys: Seq<String>,
) -> bool {
    match mode {
        IndexMode::Line => plan matches QueryPlan::Line { query } && query@ == q,
        IndexMode::File => if q.contains(':') {
            let (j, b) = rewrite_from(q, 0);
            if spec_targets_frontmatter(q) {
                plan matches QueryPlan::FileBigram { bigram_query } && bigram_query@ == b
            } else {
                plan matches QueryPlan::FileQualified { japanese_query, bigram_query }
                    && japanese_query@ == j && bigram_query@ == b
            }
        } else {
            plan matches QueryPlan::FilePlain { query, frontmatter_queries } && query@ == q
                && pair_views(frontmatter_queries@) == keys.map_values(
                |k: String| frontmatter_query_pair(k@, q),
            )
        },
    }
}

fn frontmatter_query(head: &str, key: &String, query_str: &str) -> (r: String)
    ensures
        r@ == head@ + key@ + ":("@ + query_str@ + ")"@,
{
    let mut out: Vec<char> = Vec::new();
    push_str(&mut out, head);
    push_str(&mut out, key.as_str());
    push_str(&mut out, ":(");
    push_str(&mut out, query_str);
    push_str(&mut out, ")");
    assert(out@ =~= head@ + key@ + ":("@ + query_str@ + ")"@);
    string_from_chars(&out)
}

/// Decides how a query is searched: in line mode over both body fields; in
/// file mode, a query with a field qualifier is rewritten to the physical
/// fields (bigram fields only when it targets the frontmatter), and a plain
/// query searches the body, the file name and every known frontmatter key.
pub fn plan_query(query_str: &str, mode: IndexMode, frontmatter_keys: &Vec<String>) -> (plan: QueryPlan)
    ensures
        plan_matches(plan, query_str@, mode, frontmatter_keys@),
{
    match mode {
        IndexMode::Line => QueryPlan::Line { query: String::from_str(query_str) },
        IndexMode::File => {
            if contains_char(query_str, ':') {
                let targets_fm = query_targets_frontmatter(query_str);
                let (j, b) = rewrite_query(query_str);
                if targets_fm {
                    QueryPlan::FileBigram { bigram_query: b }
                } else {
                    QueryPlan::FileQualified { japanese_query: j, bigram_query: b }
                }
            } else {
                let mut qs: Vec<(String, String)> = Vec::new();
                for i in 0..frontmatter_keys.len()
                    invariant
                        pair_views(qs@) == frontmatter_keys@.take(i as int).map_values(
                            |k: String| frontmatter_query_pair(k@, query_str@),
                        ),
                {
                    let a = frontmatter_query("frontmatter.", &frontmatter_keys[i], query_str);
                    let b = frontmatter_query("frontmatter_bigram.", &frontmatter_keys[i], query_str);
                    let ghost before = qs@;
                    qs.push((a, b));
                    assert(pair_views(qs@) =~= pair_views(before).push((a@, b@)));
                    assert(frontmatter_keys@.take(i as int + 1) == frontmatter_keys@.take(i as int).push(
                        frontmatter_keys@[i as int],
                    ));
                    assert(frontmatter_keys@.take(i as int + 1).map_values(
                        |k: String| frontmatter_query_pair(k@, query_str@),
                    ) =~= frontmatter_keys@.take(i as int).map_values(
                        |k: String| frontmatter_query_pair(k@, query_str@),
                    ).push(frontmatter_query_pair(frontmatter_keys@[i as int]@, query_str@)));
                }
                assert(frontmatter_keys@.take(frontmatter_keys.len() as int) == frontmatter_keys@);
                QueryPlan::FilePlain { query: String::from_str(query_str), frontmatter_queries: qs }
            }
        },
    }
}

} // verus!
