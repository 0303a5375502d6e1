//! Highlighting of matched regions in result lines, and the plain search
//! term that a query string boils down to.
use vstd::prelude::*;

use crate::analyzer::{normalize_chars, spec_normalize};
use crate::japanese::{japanese_analysis, token_views, JapaneseAnalyzer};
use crate::matching::{
    concat_all, int_view, lemma_origin, norm_fragments, normalized_with_origin, occurs_at,
    occurs_at_exec, origin,
};
use crate::text::{
    push_range,
    string_from_chars,
    boundary_index, boundary_lookup, byte_offsets, byte_pos, lemma_boundary_index_from,
    lemma_byte_pos_mono,
    chars_of, first_index_of, lemma_first_index_of, find_char, skip_class_backward, skip_class_forward, trim, trim_class,
    trim_start_class, trim_end_class, in_class, is_ws, CharClass,
};

verus! {

/// `s` after its first `:`, or `s` itself when it holds none.
pub open spec fn after_first_colon(s: Seq<char>) -> Seq<char> {
    match first_index_of(s, ':') {
        Some(i) => s.skip(i + 1),
        None => s,
    }
}

/// Leading `+`/`-` dropped, a field qualifier (`field:`) dropped, surrounding
/// `"` dropped, surrounding white space dropped.
pub open spec fn spec_strip_query_syntax(q: Seq<char>) -> Seq<char> {
    trim(trim_class(after_first_colon(trim_start_class(q, CharClass::Sign)), CharClass::Quote))
}

proof fn lemma_trim_start_suffix(s: Seq<char>, k: CharClass) -> (j: int)
    ensures
        0 <= j <= s.len(),
        trim_start_class(s, k) == s.skip(j),
        forall|i: int| 0 <= i < j ==> in_class(k, #[trigger] s[i]),
    decreases s.len(),
{
    if s.len() > 0 && in_class(k, s[0]) {
        let j0 = lemma_trim_start_suffix(s.drop_first(), k);
        assert(s.drop_first().skip(j0) =~= s.skip(j0 + 1));
        assert forall|i: int| 0 <= i < j0 + 1 implies in_class(k, #[trigger] s[i]) by {
            if i > 0 {
                assert(s[i] == s.drop_first()[i - 1]);
            }
        }
        j0 + 1
    } else {
        assert(s.skip(0) =~= s);
        0
    }
}

/// A term whose ends are neither white space nor `"` is kept whole by
/// trimming quotes and white space.
proof fn lemma_trim_plain_ends(w: Seq<char>, k: CharClass)
    requires
        w.len() > 0,
        !in_class(k, w[0]),
        !in_class(k, w.last()),
    ensures
        trim_class(w, k) == w,
{
}

/// The plain search term of a quoted phrase, with or without a field
/// qualifier and a leading `+` or `-`, is the phrase: the query syntax
/// around a term never reaches the term itself.
pub proof fn lemma_strip_quoted_phrase(f: Seq<char>, w: Seq<char>)
    requires
        !f.contains(':'),
        !w.contains(':'),
        w.len() > 0,
        !is_ws(w[0]) && w[0] != '"',
        !is_ws(w.last()) && w.last() != '"',
    ensures
        spec_strip_query_syntax(f + seq![':', '"'] + w + seq!['"']) == w,
        spec_strip_query_syntax(seq!['"'] + w + seq!['"']) == w,
        spec_strip_query_syntax(seq!['+', '"'] + w + seq!['"']) == w,
        spec_strip_query_syntax(seq!['-', '"'] + w + seq!['"']) == w,
{
    let quoted = seq!['"'] + w + seq!['"'];
    // The quotes around the phrase come off, then nothing else.
    assert(quoted.drop_first() =~= w + seq!['"']);
    assert((w + seq!['"'])[0] == w[0]);
    assert(trim_start_class(w + seq!['"'], CharClass::Quote) == w + seq!['"']);
    assert(quoted[0] == '"');
    assert(trim_start_class(quoted, CharClass::Quote) == w + seq!['"']);
    assert((w + seq!['"']).drop_last() =~= w);
    assert(trim_end_class(w + seq!['"'], CharClass::Quote) == trim_end_class(w, CharClass::Quote));
    assert(w[w.len() - 1] == w.last());
    assert(trim_end_class(w, CharClass::Quote) == w);
    assert(trim_class(quoted, CharClass::Quote) == w);
    lemma_trim_plain_ends(w, CharClass::Space);
    // A text without `:` has no field qualifier.
    assert forall|r: Seq<char>| r.len() > 0 && r[0] == '"' && !r.contains(':') implies after_first_colon(r) == r by {
        lemma_first_index_of(r, ':');
        if first_index_of(r, ':') is Some {
            let i = first_index_of(r, ':')->0;
            assert(r.contains(':'));
        }
    }
    assert(!quoted.contains(':')) by {
        if quoted.contains(':') {
            let i = choose|i: int| 0 <= i < quoted.len() && quoted[i] == ':';
            assert(i != 0 && i != quoted.len() - 1);
            assert(quoted[i] == w[i - 1]);
            assert(w[i - 1] == ':');
        }
    }
    assert(quoted[0] == '"');
    // Without a qualifier: the signs, if any, come off first.
    assert(trim_start_class(quoted, CharClass::Sign) == quoted);
    let plus = seq!['+', '"'] + w + seq!['"'];
    assert(plus.drop_first() =~= quoted);
    assert(trim_start_class(plus, CharClass::Sign) == quoted);
    let minus = seq!['-', '"'] + w + seq!['"'];
    assert(minus.drop_first() =~= quoted);
    assert(trim_start_class(minus, CharClass::Sign) == quoted);
    // With a qualifier: whatever signs come off, the first `:` ends it.
    let q = f + seq![':', '"'] + w + seq!['"'];
    let j = lemma_trim_start_suffix(q, CharClass::Sign);
    assert(q[f.len() as int] == ':');
    assert(j <= f.len());
    let r = q.skip(j);
    lemma_first_index_of(r, ':');
    assert(r[f.len() - j] == ':');
    match first_index_of(r, ':') {
        Some(i) => {
            if i < f.len() - j {
                assert(r[i] == f[i + j]);
                assert(f.contains(':'));
            }
            assert(i == f.len() - j);
            assert(r.skip(i + 1) =~= quoted);
        },
        None => {
            assert(false);
        },
    }
}

/// Removes query syntax to get a plain search term for substring matching.
/// For a field-qualified term such as `frontmatter.author:foo` only the
/// value part (`foo`) is kept.
pub fn strip_query_syntax(q: &str) -> (res: &str)
    ensures
        res@ == spec_strip_query_syntax(q@),
{
    let v = chars_of(q);
    let n = v.len();
    assert(v@.subrange(0, n as int) == v@);
    let a = skip_class_forward(&v, 0, n, CharClass::Sign);
    let found = find_char(&v, a, n, ':');
    let a2 = match found {
        Some(i) => i + 1,
        None => a,
    };
    proof {
        let s = v@.subrange(a as int, n as int);
        lemma_first_index_of(s, ':');
        match first_index_of(s, ':') {
            Some(i) => {
                assert(s.skip(i + 1) =~= v@.subrange(a2 as int, n as int));
            },
            None => {},
        }
    }
    let a3 = skip_class_forward(&v, a2, n, CharClass::Quote);
    let b3 = skip_class_backward(&v, a3, n, CharClass::Quote);
    let a4 = skip_class_forward(&v, a3, b3, CharClass::Space);
    let b4 = skip_class_backward(&v, a4, b3, CharClass::Space);
    q.substring_char(a4, b4)
}

/// A region is a half-open range of character indices of the line.
pub open spec fn wf_region(r: (int, int), n: int) -> bool {
    0 <= r.0 <= r.1 <= n
}

pub open spec fn region_view(v: Seq<(usize, usize)>) -> Seq<(int, int)> {
    v.map_values(|r: (usize, usize)| (r.0 as int, r.1 as int))
}

/// Some string of `toks` reads `t`.
pub open spec fn contains_text(toks: Seq<String>, t: Seq<char>) -> bool {
    exists|j: int| 0 <= j < toks.len() && toks[j]@ == t
}

/// The region of an analyzer token of the line (text, byte offset from, byte
/// offset to): present when the token's text is one of `toks` and both
/// offsets are character boundaries of the line, in order.
pub open spec fn token_region(line: Seq<char>, toks: Seq<String>, t: (Seq<char>, usize, usize)) -> Option<
    (int, int),
> {
    if contains_text(toks, t.0) && t.1 <= t.2 {
        match (boundary_index(line, t.1 as int), boundary_index(line, t.2 as int)) {
            (Some(a), Some(b)) => Some((a, b)),
            _ => None,
        }
    } else {
        None
    }
}

/// Regions of the line tokens that match a query token, in token order.
pub open spec fn token_regions(
    line: Seq<char>,
    toks: Seq<String>,
    lt: Seq<(Seq<char>, usize, usize)>,
) -> Seq<(int, int)>
    decreases lt.len(),
{
    if lt.len() == 0 {
        seq![]
    } else {
        let r = token_regions(line, toks, lt.drop_last());
        match token_region(line, toks, lt.last()) {
            Some(x) => r.push(x),
            None => r,
        }
    }
}

/// Regions of the occurrences of `pat` in the normalized text `hay` at
/// positions `p` and after, mapped back to character ranges of the line
/// through `orig`; in increasing order of position, overlaps included.
pub open spec fn occurrence_regions(hay: Seq<char>, pat: Seq<char>, orig: Seq<int>, p: int) -> Seq<
    (int, int),
>
    decreases hay.len() - p,
{
    if p < 0 || p >= hay.len() {
        seq![]
    } else {
        let rest = occurrence_regions(hay, pat, orig, p + 1);
        if occurs_at(hay, pat, p) {
            seq![(orig[p], orig[p + pat.len() - 1] + 1)] + rest
        } else {
            rest
        }
    }
}

/// Regions where the normalized plain search term of `query` occurs in the
/// normalized line.
pub open spec fn query_regions(line: Seq<char>, query: Seq<char>) -> Seq<(int, int)> {
    let pat = spec_normalize(spec_strip_query_syntax(query));
    let fr = norm_fragments(line);
    if pat.len() == 0 {
        seq![]
    } else {
        occurrence_regions(concat_all(fr), pat, origin(fr), 0)
    }
}

/// Token regions first, then query occurrence regions.
pub open spec fn highlight_regions(
    line: Seq<char>,
    toks: Seq<String>,
    lt: Seq<(Seq<char>, usize, usize)>,
    query: Seq<char>,
) -> Seq<(int, int)> {
    token_regions(line, toks, lt) + query_regions(line, query)
}

/// Inserts `x` after every region whose start is not greater than its own.
pub open spec fn insert_by_start(s: Seq<(int, int)>, x: (int, int)) -> Seq<(int, int)>
    decreases s.len(),
{
    if s.len() == 0 {
        seq![x]
    } else if s.last().0 <= x.0 {
        s.push(x)
    } else {
        insert_by_start(s.drop_last(), x).push(s.last())
    }
}

/// Regions ordered by start (insertion sort).
pub open spec fn sort_by_start(s: Seq<(int, int)>) -> Seq<(int, int)>
    decreases s.len(),
{
    if s.len() == 0 {
        seq![]
    } else {
        insert_by_start(sort_by_start(s.drop_last()), s.last())
    }
}

/// Folds each region into the previous one when it starts no later than that
/// one ends.
pub open spec fn merge_regions(s: Seq<(int, int)>) -> Seq<(int, int)>
    decreases s.len(),
{
    if s.len() == 0 {
        seq![]
    } else {
        let m = merge_regions(s.drop_last());
        let r = s.last();
        if m.len() > 0 && r.0 <= m.last().1 {
            let l = m.last();
            m.update(m.len() - 1, (l.0, if l.1 >= r.1 { l.1 } else { r.1 }))
        } else {
            m.push(r)
        }
    }
}

/// The escape that starts bold red text.
pub open spec fn ansi_red() -> Seq<char> {
    seq!['\u{1b}', '[', '1', ';', '3', '1', 'm']
}

/// The escape that resets text attributes.
pub open spec fn ansi_reset() -> Seq<char> {
    seq!['\u{1b}', '[', '0', 'm']
}

/// Output for the regions `ms` and the position reached in the line.
pub open spec fn render_prefix(line: Seq<char>, ms: Seq<(int, int)>) -> (Seq<char>, int)
    decreases ms.len(),
{
    if ms.len() == 0 {
        (seq![], 0)
    } else {
        let (o, c) = render_prefix(line, ms.drop_last());
        let r = ms.last();
        (o + line.subrange(c, r.0) + ansi_red() + line.subrange(r.0, r.1) + ansi_reset(), r.1)
    }
}

/// The line with each region wrapped in bold red.
pub open spec fn render(line: Seq<char>, ms: Seq<(int, int)>) -> Seq<char> {
    let (o, c) = render_prefix(line, ms);
    o + line.subrange(c, line.len() as int)
}

/// What a colored terminal shows for `line`: the merged regions of the query
/// tokens found among the line tokens and of the query occurrences, in bold red.
pub open spec fn spec_highlight(
    line: Seq<char>,
    toks: Seq<String>,
    lt: Seq<(Seq<char>, usize, usize)>,
    query: Seq<char>,
) -> Seq<char> {
    render(line, merge_regions(sort_by_start(highlight_regions(line, toks, lt, query))))
}

/// Regions whose ends never reach past the start of the next one.
pub open spec fn disjoint_regions(ms: Seq<(int, int)>, n: int) -> bool {
    &&& forall|i: int| 0 <= i < ms.len() ==> wf_region(#[trigger] ms[i], n)
    &&& forall|i: int| 0 <= i < ms.len() - 1 ==> #[trigger] ms[i].1 < ms[i + 1].0
}

proof fn lemma_insert_elems(s: Seq<(int, int)>, x: (int, int))
    ensures
        insert_by_start(s, x).len() == s.len() + 1,
        forall|i: int|
            0 <= i < insert_by_start(s, x).len() ==> #[trigger] insert_by_start(s, x)[i] == x
                || s.contains(insert_by_start(s, x)[i]),
    decreases s.len(),
{
    if s.len() > 0 && s.last().0 > x.0 {
        lemma_insert_elems(s.drop_last(), x);
        let r = insert_by_start(s.drop_last(), x);
        assert forall|i: int| 0 <= i < insert_by_start(s, x).len() implies #[trigger] insert_by_start(
            s,
            x,
        )[i] == x || s.contains(insert_by_start(s, x)[i]) by {
            if i < r.len() {
                if r[i] != x {
                    let k = choose|k: int| 0 <= k < s.drop_last().len() && s.drop_last()[k] == r[i];
                    assert(s[k] == r[i]);
                }
            } else {
                assert(s[s.len() - 1] == s.last());
            }
        }
    } else if s.len() > 0 {
        assert forall|i: int| 0 <= i < insert_by_start(s, x).len() implies #[trigger] insert_by_start(
            s,
            x,
        )[i] == x || s.contains(insert_by_start(s, x)[i]) by {
            if i < s.len() {
                assert(s[i] == insert_by_start(s, x)[i]);
            }
        }
    }
}

proof fn lemma_sort_wf(s: Seq<(int, int)>, n: int)
    requires
        forall|i: int| 0 <= i < s.len() ==> wf_region(#[trigger] s[i], n),
    ensures
        sort_by_start(s).len() == s.len(),
        forall|i: int| 0 <= i < sort_by_start(s).len() ==> wf_region(#[trigger] sort_by_start(s)[i], n),
    decreases s.len(),
{
    if s.len() > 0 {
        lemma_sort_wf(s.drop_last(), n);
        let t = sort_by_start(s.drop_last());
        lemma_insert_elems(t, s.last());
        assert(wf_region(s[s.len() - 1], n));
        assert forall|i: int| 0 <= i < sort_by_start(s).len() implies wf_region(
            #[trigger] sort_by_start(s)[i],
            n,
        ) by {
            let y = sort_by_start(s)[i];
            if y != s.last() {
                let k = choose|k: int| 0 <= k < t.len() && t[k] == y;
                assert(wf_region(t[k], n));
            }
        }
    }
}

proof fn lemma_merge_disjoint(s: Seq<(int, int)>, n: int)
    requires
        forall|i: int| 0 <= i < s.len() ==> wf_region(#[trigger] s[i], n),
    ensures
        disjoint_regions(merge_regions(s), n),
    decreases s.len(),
{
    if s.len() > 0 {
        lemma_merge_disjoint(s.drop_last(), n);
        assert(wf_region(s[s.len() - 1], n));
    }
}

fn push_red(out: &mut Vec<char>)
    ensures
        final(out)@ == old(out)@ + ansi_red(),
{
    let ghost start = out@;
    out.push('\u{1b}');
    out.push('[');
    out.push('1');
    out.push(';');
    out.push('3');
    out.push('1');
    out.push('m');
    assert(out@ =~= start + ansi_red());
}

fn push_reset(out: &mut Vec<char>)
    ensures
        final(out)@ == old(out)@ + ansi_reset(),
{
    let ghost start = out@;
    out.push('\u{1b}');
    out.push('[');
    out.push('0');
    out.push('m');
    assert(out@ =~= start + ansi_reset());
}

/// Whether some string of `toks` equals `t`.
pub fn contains_string(toks: &Vec<String>, t: &String) -> (b: bool)
    ensures
        b == contains_text(toks@, t@),
{
    let mut j: usize = 0;
    while j < toks.len()
        invariant
            j <= toks.len(),
            forall|k: int| 0 <= k < j ==> toks@[k]@ != t@,
        decreases toks.len() - j,
    {
        if toks[j] == *t {
            return true;
        }
        j = j + 1;
    }
    false
}

fn insert_region(v: &mut Vec<(usize, usize)>, x: (usize, usize))
    ensures
        region_view(final(v)@) == insert_by_start(region_view(old(v)@), (x.0 as int, x.1 as int)),
{
    let mut k = v.len();
    while k > 0 && v[k - 1].0 > x.0
        invariant
            k <= v.len(),
            v@ == old(v)@,
            forall|j: int| k <= j < v.len() ==> #[trigger] v@[j].0 > x.0,
        decreases k,
    {
        k = k - 1;
    }
    let ghost s = region_view(v@);
    proof {
        lemma_insert_at(s, (x.0 as int, x.1 as int), k as int);
    }
    v.insert(k, x);
    assert(region_view(v@) =~= s.take(k as int).push((x.0 as int, x.1 as int)) + s.skip(k as int));
}

proof fn lemma_insert_at(s: Seq<(int, int)>, x: (int, int), k: int)
    requires
        0 <= k <= s.len(),
        forall|j: int| k <= j < s.len() ==> #[trigger] s[j].0 > x.0,
        k > 0 ==> s[k - 1].0 <= x.0,
    ensures
        insert_by_start(s, x) == s.take(k).push(x) + s.skip(k),
    decreases s.len(),
{
    if k == s.len() {
        assert(s.take(k) == s);
        assert(s.skip(k) =~= Seq::<(int, int)>::empty());
    } else {
        assert(s.last().0 > x.0);
        lemma_insert_at(s.drop_last(), x, k);
        assert(s.drop_last().take(k) == s.take(k));
        assert(s.skip(k) =~= s.drop_last().skip(k).push(s.last()));
        assert(insert_by_start(s, x) =~= s.take(k).push(x) + s.skip(k));
    }
}

fn sort_regions(rs: &Vec<(usize, usize)>) -> (out: Vec<(usize, usize)>)
    ensures
        region_view(out@) == sort_by_start(region_view(rs@)),
{
    let mut out: Vec<(usize, usize)> = Vec::new();
    for i in 0..rs.len()
        invariant
            region_view(out@) == sort_by_start(region_view(rs@).take(i as int)),
    {
        assert(region_view(rs@).take(i as int + 1).drop_last() == region_view(rs@).take(i as int));
        insert_region(&mut out, rs[i]);
    }
    assert(region_view(rs@).take(rs.len() as int) == region_view(rs@));
    out
}

fn merge_sorted(rs: &Vec<(usize, usize)>) -> (out: Vec<(usize, usize)>)
    ensures
        region_view(out@) == merge_regions(region_view(rs@)),
{
    let mut out: Vec<(usize, usize)> = Vec::new();
    for i in 0..rs.len()
        invariant
            region_view(out@) == merge_regions(region_view(rs@).take(i as int)),
    {
        let ghost pre = region_view(rs@).take(i as int + 1);
        assert(pre.drop_last() == region_view(rs@).take(i as int));
        let r = rs[i];
        let n = out.len();
        if n > 0 && r.0 <= out[n - 1].1 {
            let l = out[n - 1];
            let e = if l.1 >= r.1 {
                l.1
            } else {
                r.1
            };
            out.set(n - 1, (l.0, e));
            assert(region_view(out@) =~= merge_regions(pre));
        } else {
            out.push(r);
            assert(region_view(out@) =~= merge_regions(pre));
        }
    }
    assert(region_view(rs@).take(rs.len() as int) == region_view(rs@));
    out
}

fn render_regions(line: &Vec<char>, ms: &Vec<(usize, usize)>) -> (out: Vec<char>)
    requires
        disjoint_regions(region_view(ms@), line.len() as int),
    ensures
        out@ == render(line@, region_view(ms@)),
{
    let ghost mv = region_view(ms@);
    let mut out: Vec<char> = Vec::new();
    let mut cursor: usize = 0;
    for k in 0..ms.len()
        invariant
            mv == region_view(ms@),
            disjoint_regions(mv, line.len() as int),
            (out@, cursor as int) == render_prefix(line@, mv.take(k as int)),
            k < ms.len() ==> cursor <= ms@[k as int].0,
            cursor <= line.len(),
    {
        assert(mv.take(k as int + 1).drop_last() == mv.take(k as int));
        assert(wf_region(mv[k as int], line.len() as int));
        let r = ms[k];
        push_range(&mut out, line, cursor, r.0);
        push_red(&mut out);
        push_range(&mut out, line, r.0, r.1);
        push_reset(&mut out);
        cursor = r.1;
        if k + 1 < ms.len() {
            assert(mv[k as int].1 < mv[k as int + 1].0);
        }
    }
    assert(mv.take(ms.len() as int) == mv);
    push_range(&mut out, line, cursor, line.len());
    out
}

proof fn lemma_token_regions_wf(line: Seq<char>, toks: Seq<String>, lt: Seq<(Seq<char>, usize, usize)>)
    ensures
        forall|i: int|
            0 <= i < token_regions(line, toks, lt).len() ==> wf_region(
                #[trigger] token_regions(line, toks, lt)[i],
                line.len() as int,
            ),
    decreases lt.len(),
{
    if lt.len() > 0 {
        lemma_token_regions_wf(line, toks, lt.drop_last());
        let t = lt.last();
        let r = token_regions(line, toks, lt.drop_last());
        match token_region(line, toks, t) {
            Some(x) => {
                lemma_boundary_index_from(line, t.1 as int, 0);
                lemma_boundary_index_from(line, t.2 as int, 0);
                if x.0 > x.1 {
                    lemma_byte_pos_mono(line, x.1, x.0);
                }
                assert(wf_region(x, line.len() as int));
                assert forall|i: int| 0 <= i < r.push(x).len() implies wf_region(
                    #[trigger] r.push(x)[i],
                    line.len() as int,
                ) by {
                    if i < r.len() {
                        assert(r.push(x)[i] == r[i]);
                    }
                }
            },
            None => {},
        }
    }
}

proof fn lemma_occurrence_regions_wf(hay: Seq<char>, pat: Seq<char>, fr: Seq<Seq<char>>, p: int)
    requires
        hay == concat_all(fr),
        pat.len() > 0,
        0 <= p,
    ensures
        forall|i: int|
            0 <= i < occurrence_regions(hay, pat, origin(fr), p).len() ==> wf_region(
                #[trigger] occurrence_regions(hay, pat, origin(fr), p)[i],
                fr.len() as int,
            ),
    decreases hay.len() - p,
{
    lemma_origin(fr);
    if p < hay.len() {
        lemma_occurrence_regions_wf(hay, pat, fr, p + 1);
        let o = origin(fr);
        if occurs_at(hay, pat, p) {
            let a = o[p];
            let b = o[p + pat.len() - 1];
            assert(a <= b);
            assert(0 <= a);
            assert(b < fr.len());
            let all = occurrence_regions(hay, pat, o, p);
            let rest = occurrence_regions(hay, pat, o, p + 1);
            assert(all == seq![(a, b + 1)] + rest);
            assert forall|i: int| 0 <= i < all.len() implies wf_region(
                #[trigger] all[i],
                fr.len() as int,
            ) by {
                if i > 0 {
                    assert(all[i] == rest[i - 1]);
                } else {
                    assert(all[0] == (a, b + 1));
                }
            }
        } else {
            assert(occurrence_regions(hay, pat, o, p) == occurrence_regions(hay, pat, o, p + 1));
        }
    }
}

/// Colors the regions of `line` that match the query: the line tokens (text,
/// byte offset from, byte offset to) whose text is one of `japanese_tokens`,
/// and every occurrence of the normalized plain search term of `query_str`
/// in the normalized line. Overlapping or touching regions are merged.
pub fn highlight_with_tokens(
    line: &str,
    japanese_tokens: &Vec<String>,
    line_tokens: &Vec<(String, usize, usize)>,
    query_str: &str,
) -> (res: String)
    ensures
        res@ == spec_highlight(line@, japanese_tokens@, token_views(line_tokens@), query_str@),
{
    let ghost ltv = token_views(line_tokens@);
    let chars = chars_of(line);
    let n = chars.len();
    let ghost lv = line@;
    let mut regions: Vec<(usize, usize)> = Vec::new();
    // Regions of the analyzer tokens that are query tokens.
    let offsets = byte_offsets(&chars);
    for i in 0..line_tokens.len()
        invariant
            chars@ == lv,
            n == chars.len(),
            offsets.len() == n + 1,
            forall|k: int| 0 <= k <= n ==> #[trigger] offsets@[k] == byte_pos(lv, k),
            ltv == token_views(line_tokens@),
            region_view(regions@) == token_regions(lv, japanese_tokens@, ltv.take(i as int)),
    {
        let ghost pre = ltv.take(i as int + 1);
        assert(pre.drop_last() == ltv.take(i as int));
        let t = &line_tokens[i];
        let ghost tv = (t.0@, t.1, t.2);
        assert(pre.last() == tv);
        if contains_string(japanese_tokens, &t.0) && t.1 <= t.2 {
            let fa = boundary_lookup(&offsets, Ghost(lv), t.1);
            let fb = boundary_lookup(&offsets, Ghost(lv), t.2);
            match (fa, fb) {
                (Some(a), Some(b)) => {
                    proof {
                        lemma_boundary_index_from(lv, t.1 as int, 0);
                        lemma_boundary_index_from(lv, t.2 as int, 0);
                    }
                    assert(token_region(lv, japanese_tokens@, tv) == Some((a as int, b as int)));
                    let ghost rv = region_view(regions@);
                    regions.push((a, b));
                    assert(region_view(regions@) =~= rv.push((a as int, b as int)));
                },
                _ => {
                    assert(token_region(lv, japanese_tokens@, tv) is None);
                },
            }
        } else {
            assert(token_region(lv, japanese_tokens@, tv) is None);
        }
    }
    assert(ltv.take(line_tokens.len() as int) == ltv);
    // Regions of the occurrences of the normalized search term.
    let raw = strip_query_syntax(query_str);
    let raw_chars = chars_of(raw);
    let pat = normalize_chars(&raw_chars);
    let (norm, orig) = normalized_with_origin(&chars);
    let ghost fr = norm_fragments(lv);
    proof {
        lemma_origin(fr);
    }
    let ghost before = region_view(regions@);
    assert(fr.len() == n);
    assert forall|i: int| 0 <= i < orig.len() implies 0 <= #[trigger] orig@[i] < fr.len() by {
        assert(int_view(orig@)[i] == orig@[i] as int);
    }
    if pat.len() > 0 {
        let mut p: usize = 0;
        while p < norm.len()
            invariant
                pat.len() > 0,
                norm@ == concat_all(fr),
                int_view(orig@) == origin(fr),
                orig.len() == norm.len(),
                fr.len() == n,
                forall|i: int| 0 <= i < orig.len() ==> 0 <= #[trigger] orig@[i] < fr.len(),
                p <= norm.len(),
                region_view(regions@) + occurrence_regions(norm@, pat@, origin(fr), p as int)
                    == before + occurrence_regions(norm@, pat@, origin(fr), 0),
            decreases norm.len() - p,
        {
            let ghost rest = occurrence_regions(norm@, pat@, origin(fr), p as int + 1);
            if occurs_at_exec(&norm, &pat, p) {
                let a = orig[p];
                let b = orig[p + pat.len() - 1];
                assert(int_view(orig@)[p as int] == a);
                assert(int_view(orig@)[p + pat.len() - 1] == b);
                let ghost rv = region_view(regions@);
                regions.push((a, b + 1));
                assert(region_view(regions@) =~= rv.push((a as int, b + 1)));
                assert(region_view(regions@) + rest =~= rv + occurrence_regions(
                    norm@,
                    pat@,
                    origin(fr),
                    p as int,
                ));
            }
            p = p + 1;
        }
    }
    assert(region_view(regions@) == highlight_regions(lv, japanese_tokens@, ltv, query_str@));
    proof {
        lemma_token_regions_wf(lv, japanese_tokens@, ltv);
        if pat.len() > 0 {
            lemma_occurrence_regions_wf(norm@, pat@, fr, 0);
        }
        let all = highlight_regions(lv, japanese_tokens@, ltv, query_str@);
        let tr = token_regions(lv, japanese_tokens@, ltv);
        assert forall|i: int| 0 <= i < all.len() implies wf_region(#[trigger] all[i], n as int) by {
            if i >= tr.len() {
                assert(all[i] == query_regions(lv, query_str@)[i - tr.len()]);
            }
        }
        lemma_sort_wf(all, n as int);
        lemma_merge_disjoint(sort_by_start(all), n as int);
    }
    let sorted = sort_regions(&regions);
    let merged = merge_sorted(&sorted);
    let out = render_regions(&chars, &merged);
    string_from_chars(&out)
}

/// The analyzer's catch-all token for unknown words.
pub open spec fn is_unknown_token(t: Seq<char>) -> bool {
    t == seq!['*']
}

/// The texts of `tokens`, in order, without the unknown-word token `*`.
pub open spec fn known_token_texts(tokens: Seq<(Seq<char>, usize, usize)>) -> Seq<Seq<char>>
    decreases tokens.len(),
{
    if tokens.len() == 0 {
        seq![]
    } else {
        let r = known_token_texts(tokens.drop_last());
        if is_unknown_token(tokens.last().0) {
            r
        } else {
            r.push(tokens.last().0)
        }
    }
}

pub open spec fn string_views(v: Seq<String>) -> Seq<Seq<char>> {
    v.map_values(|s: String| s@)
}

/// Keeps the texts of the analyzer tokens, without the unknown-word token `*`,
/// which would match too broadly.
pub fn known_tokens(tokens: Vec<(String, usize, usize)>) -> (res: Vec<String>)
    ensures
        string_views(res@) == known_token_texts(token_views(tokens@)),
{
    let ghost tv = token_views(tokens@);
    let mut res: Vec<String> = Vec::new();
    for i in 0..tokens.len()
        invariant
            tv == token_views(tokens@),
            string_views(res@) == known_token_texts(tv.take(i as int)),
    {
        assert(tv.take(i as int + 1).drop_last() == tv.take(i as int));
        let t = &tokens[i].0;
        assert(tv.take(i as int + 1).last().0 == t@);
        let cs = chars_of(t.as_str());
        let unknown = cs.len() == 1 && cs[0] == '*';
        assert(unknown == is_unknown_token(t@)) by {
            if cs.len() == 1 && cs[0] == '*' {
                assert(t@ =~= seq!['*']);
            }
        }
        if !unknown {
            let ghost before = res@;
            res.push(t.clone());
            assert(string_views(res@) =~= string_views(before).push(t@));
        }
    }
    assert(tv.take(tokens.len() as int) == tv);
    res
}

/// The query's tokens as the Japanese analyzer produces them (normalized base
/// forms), for base-form matching against the displayed line. Unknown-word
/// tokens (`*`) are left out.
pub fn japanese_query_tokens(analyzer: &mut JapaneseAnalyzer, query_str: &str) -> (res: Vec<String>)
    ensures
        string_views(res@) == known_token_texts(japanese_analysis(old(analyzer).stop_tags(), query_str@)),
        forall|i: int| 0 <= i < res@.len() ==> !is_unknown_token(#[trigger] res@[i]@),
        final(analyzer).stop_tags() == old(analyzer).stop_tags(),
{
    let tokens = analyzer.tokens(query_str);
    let res = known_tokens(tokens);
    proof {
        lemma_known_token_texts(token_views(tokens@));
        assert forall|i: int| 0 <= i < res@.len() implies !is_unknown_token(#[trigger] res@[i]@) by {
            assert(string_views(res@)[i] == res@[i]@);
        }
    }
    res
}

proof fn lemma_known_token_texts(tokens: Seq<(Seq<char>, usize, usize)>)
    ensures
        forall|i: int|
            0 <= i < known_token_texts(tokens).len() ==> !is_unknown_token(
                #[trigger] known_token_texts(tokens)[i],
            ),
    decreases tokens.len(),
{
    if tokens.len() > 0 {
        lemma_known_token_texts(tokens.drop_last());
        let r = known_token_texts(tokens.drop_last());
        assert forall|i: int| 0 <= i < known_token_texts(tokens).len() implies !is_unknown_token(
            #[trigger] known_token_texts(tokens)[i],
        ) by {
            if i < r.len() {
                assert(known_token_texts(tokens)[i] == r[i]);
            }
        }
    }
}

/// Highlights the regions of `line` that match the query when `color` is
/// set (a terminal that shows colors); the line unchanged otherwise. The
/// line's tokens come from the Japanese analyzer `japanese`.
pub fn highlight(
    line: &str,
    japanese_tokens: &Vec<String>,
    query_str: &str,
    japanese: &mut JapaneseAnalyzer,
    color: bool,
) -> (res: String)
    ensures
        !color ==> res@ == line@,
        color ==> res@ == spec_highlight(
            line@,
            japanese_tokens@,
            japanese_analysis(old(japanese).stop_tags(), line@),
            query_str@,
        ),
        final(japanese).stop_tags() == old(japanese).stop_tags(),
{
    if !color {
        return String::from_str(line);
    }
    let line_tokens = japanese.tokens(line);
    highlight_with_tokens(line, japanese_tokens, &line_tokens, query_str)
}

/// The output of `render` as pieces of the line in order, each marked as
/// highlighted or not, up to the end of the last region, and the position
/// reached.
pub open spec fn pieces_prefix(line: Seq<char>, ms: Seq<(int, int)>) -> (Seq<(bool, Seq<char>)>, int)
    decreases ms.len(),
{
    if ms.len() == 0 {
        (seq![], 0)
    } else {
        let (ps, c) = pieces_prefix(line, ms.drop_last());
        let r = ms.last();
        (ps.push((false, line.subrange(c, r.0))).push((true, line.subrange(r.0, r.1))), r.1)
    }
}

/// The pieces of the highlighted line: plain text, then for each region the
/// text before it and the region itself, then the rest of the line.
pub open spec fn render_pieces(line: Seq<char>, ms: Seq<(int, int)>) -> Seq<(bool, Seq<char>)> {
    let (ps, c) = pieces_prefix(line, ms);
    ps.push((false, line.subrange(c, line.len() as int)))
}

/// Pieces written out, highlighted ones in bold red.
pub open spec fn decorate(ps: Seq<(bool, Seq<char>)>) -> Seq<char>
    decreases ps.len(),
{
    if ps.len() == 0 {
        seq![]
    } else {
        decorate(ps.drop_last()) + if ps.last().0 {
            ansi_red() + ps.last().1 + ansi_reset()
        } else {
            ps.last().1
        }
    }
}

/// The text of the pieces, without any markup.
pub open spec fn plain(ps: Seq<(bool, Seq<char>)>) -> Seq<char>
    decreases ps.len(),
{
    if ps.len() == 0 {
        seq![]
    } else {
        plain(ps.drop_last()) + ps.last().1
    }
}

/// The texts of the highlighted pieces, in order.
pub open spec fn marked(ps: Seq<(bool, Seq<char>)>) -> Seq<Seq<char>>
    decreases ps.len(),
{
    if ps.len() == 0 {
        seq![]
    } else if ps.last().0 {
        marked(ps.drop_last()).push(ps.last().1)
    } else {
        marked(ps.drop_last())
    }
}

proof fn lemma_pieces_prefix(line: Seq<char>, ms: Seq<(int, int)>)
    requires
        disjoint_regions(ms, line.len() as int),
    ensures
        pieces_prefix(line, ms).1 == (if ms.len() == 0 {
            0
        } else {
            ms.last().1
        }),
        0 <= pieces_prefix(line, ms).1 <= line.len(),
        render_prefix(line, ms).0 == decorate(pieces_prefix(line, ms).0),
        render_prefix(line, ms).1 == pieces_prefix(line, ms).1,
        plain(pieces_prefix(line, ms).0) == line.subrange(0, pieces_prefix(line, ms).1),
        marked(pieces_prefix(line, ms).0) == ms.map_values(|r: (int, int)| line.subrange(r.0, r.1)),
    decreases ms.len(),
{
    if ms.len() > 0 {
        let prev = ms.drop_last();
        assert(disjoint_regions(prev, line.len() as int)) by {
            assert forall|i: int| 0 <= i < prev.len() implies wf_region(#[trigger] prev[i], line.len() as int) by {
                assert(prev[i] == ms[i]);
            }
            assert forall|i: int| 0 <= i < prev.len() - 1 implies #[trigger] prev[i].1 < prev[i + 1].0 by {
                assert(prev[i] == ms[i] && prev[i + 1] == ms[i + 1]);
            }
        }
        lemma_pieces_prefix(line, prev);
        let (ps, c) = pieces_prefix(line, prev);
        let r = ms.last();
        assert(wf_region(ms[ms.len() - 1], line.len() as int));
        if prev.len() > 0 {
            assert(ms[ms.len() - 2].1 < ms[ms.len() - 1].0);
            assert(prev.last() == ms[ms.len() - 2]);
        }
        let a = (false, line.subrange(c, r.0));
        let b = (true, line.subrange(r.0, r.1));
        let qs = ps.push(a).push(b);
        assert(qs.drop_last() == ps.push(a));
        assert(ps.push(a).drop_last() == ps);
        assert(decorate(ps.push(a)) == decorate(ps) + line.subrange(c, r.0));
        assert(decorate(qs) == decorate(ps.push(a)) + (ansi_red() + line.subrange(r.0, r.1) + ansi_reset()));
        assert(render_prefix(line, ms).0 =~= decorate(qs));
        assert(plain(ps.push(a)) == plain(ps) + line.subrange(c, r.0));
        assert(plain(qs) == plain(ps.push(a)) + line.subrange(r.0, r.1));
        assert(plain(qs) =~= line.subrange(0, r.1));
        assert(marked(ps.push(a)) == marked(ps));
        assert(marked(qs) == marked(ps).push(line.subrange(r.0, r.1)));
        assert(marked(qs) =~= ms.map_values(|r: (int, int)| line.subrange(r.0, r.1)));
    }
}

/// Highlighting never changes the text: the line with the regions `ms`
/// highlighted is made of pieces of the line, the highlighted pieces
/// wrapped in bold red; the pieces put together give back the line, and the
/// highlighted pieces are exactly the texts of the regions, in order.
pub proof fn lemma_render_keeps_text(line: Seq<char>, ms: Seq<(int, int)>)
    requires
        disjoint_regions(ms, line.len() as int),
    ensures
        render(line, ms) == decorate(render_pieces(line, ms)),
        plain(render_pieces(line, ms)) == line,
        marked(render_pieces(line, ms)) == ms.map_values(|r: (int, int)| line.subrange(r.0, r.1)),
{
    lemma_pieces_prefix(line, ms);
    let (ps, c) = pieces_prefix(line, ms);
    let last = (false, line.subrange(c, line.len() as int));
    assert(ps.push(last).drop_last() == ps);
    assert(plain(ps.push(last)) =~= line);
}

/// What `highlight_with_tokens` returns keeps the text of the line: it is the
/// line cut into pieces with the merged regions in bold red, and the pieces
/// put together are the line.
pub proof fn lemma_highlight_keeps_text(
    line: Seq<char>,
    toks: Seq<String>,
    lt: Seq<(Seq<char>, usize, usize)>,
    query: Seq<char>,
)
    ensures
        ({
            let ms = merge_regions(sort_by_start(highlight_regions(line, toks, lt, query)));
            &&& spec_highlight(line, toks, lt, query) == decorate(render_pieces(line, ms))
            &&& plain(render_pieces(line, ms)) == line
            &&& marked(render_pieces(line, ms)) == ms.map_values(
                |r: (int, int)| line.subrange(r.0, r.1),
            )
        }),
{
    let all = highlight_regions(line, toks, lt, query);
    lemma_highlight_regions_wf(line, toks, lt, query);
    lemma_sort_wf(all, line.len() as int);
    lemma_merge_disjoint(sort_by_start(all), line.len() as int);
    lemma_render_keeps_text(line, merge_regions(sort_by_start(all)));
}

proof fn lemma_highlight_regions_wf(
    line: Seq<char>,
    toks: Seq<String>,
    lt: Seq<(Seq<char>, usize, usize)>,
    query: Seq<char>,
)
    ensures
        forall|i: int|
            0 <= i < highlight_regions(line, toks, lt, query).len() ==> wf_region(
                #[trigger] highlight_regions(line, toks, lt, query)[i],
                line.len() as int,
            ),
{
    lemma_token_regions_wf(line, toks, lt);
    let pat = spec_normalize(spec_strip_query_syntax(query));
    let fr = norm_fragments(line);
    if pat.len() > 0 {
        lemma_occurrence_regions_wf(concat_all(fr), pat, fr, 0);
    }
    let all = highlight_regions(line, toks, lt, query);
    let tr = token_regions(line, toks, lt);
    assert forall|i: int| 0 <= i < all.len() implies wf_region(#[trigger] all[i], line.len() as int) by {
        if i >= tr.len() {
            assert(all[i] == query_regions(line, query)[i - tr.len()]);
        }
    }
}

/// Regions in non-decreasing order of start.
pub open spec fn sorted_by_start(s: Seq<(int, int)>) -> bool {
    forall|i: int, j: int| 0 <= i <= j < s.len() ==> #[trigger] s[i].0 <= #[trigger] s[j].0
}

proof fn lemma_insert_sorted(s: Seq<(int, int)>, x: (int, int))
    requires
        sorted_by_start(s),
    ensures
        sorted_by_start(insert_by_start(s, x)),
        insert_by_start(s, x).contains(x),
        forall|i: int| 0 <= i < s.len() ==> insert_by_start(s, x).contains(#[trigger] s[i]),
    decreases s.len(),
{
    let t = insert_by_start(s, x);
    if s.len() == 0 {
        assert(t[0] == x);
    } else if s.last().0 <= x.0 {
        assert(t[s.len() as int] == x);
        assert forall|i: int| 0 <= i < s.len() implies t.contains(#[trigger] s[i]) by {
            assert(t[i] == s[i]);
        }
    } else {
        let p = s.drop_last();
        assert(sorted_by_start(p)) by {
            assert forall|i: int, j: int| 0 <= i <= j < p.len() implies #[trigger] p[i].0 <= #[trigger] p[j].0 by {
                assert(p[i] == s[i] && p[j] == s[j]);
            }
        }
        lemma_insert_sorted(p, x);
        lemma_insert_elems(p, x);
        let u = insert_by_start(p, x);
        assert(t == u.push(s.last()));
        assert forall|i: int, j: int| 0 <= i <= j < t.len() implies #[trigger] t[i].0 <= #[trigger] t[j].0 by {
            if j == t.len() - 1 && i < j {
                if u[i] == x {
                    assert(x.0 < s.last().0);
                } else {
                    let k = choose|k: int| 0 <= k < p.len() && p[k] == u[i];
                    assert(s[k] == p[k]);
                    assert(s[k].0 <= s[s.len() - 1].0);
                }
            }
        }
        let ix = choose|k: int| 0 <= k < u.len() && u[k] == x;
        assert(t[ix] == x);
        assert forall|i: int| 0 <= i < s.len() implies t.contains(#[trigger] s[i]) by {
            if i == s.len() - 1 {
                assert(t[t.len() - 1] == s[i]);
            } else {
                assert(p[i] == s[i]);
                assert(u.contains(p[i]));
                let k = choose|k: int| 0 <= k < u.len() && u[k] == p[i];
                assert(t[k] == u[k]);
            }
        }
    }
}

proof fn lemma_sort_sorted(s: Seq<(int, int)>)
    ensures
        sorted_by_start(sort_by_start(s)),
        forall|i: int| 0 <= i < s.len() ==> sort_by_start(s).contains(#[trigger] s[i]),
    decreases s.len(),
{
    if s.len() == 0 {
    } else {
        let p = s.drop_last();
        lemma_sort_sorted(p);
        let q = sort_by_start(p);
        lemma_insert_sorted(q, s.last());
        let t = sort_by_start(s);
        lemma_insert_elems(q, s.last());
        assert forall|i: int| 0 <= i < s.len() implies t.contains(#[trigger] s[i]) by {
            if i == s.len() - 1 {
            } else {
                assert(p[i] == s[i]);
                let k = choose|k: int| 0 <= k < q.len() && q[k] == p[i];
                assert(q.contains(q[k]));
                assert(t.contains(q[k]));
            }
        }
    }
}

/// `r` lies within one of the regions `ms`.
pub open spec fn covered_by(ms: Seq<(int, int)>, r: (int, int)) -> bool {
    exists|j: int| #![trigger ms[j]] 0 <= j < ms.len() && ms[j].0 <= r.0 && r.1 <= ms[j].1
}

/// The start of `r` is the start of one of the regions `s`.
pub open spec fn starts_as_one_of(s: Seq<(int, int)>, r: (int, int)) -> bool {
    exists|i: int| #![trigger s[i]] 0 <= i < s.len() && r.0 == s[i].0
}

proof fn lemma_merge_covers_update(s: Seq<(int, int)>)
    requires
        s.len() > 0,
        forall|k: int| 0 <= k < s.len() ==> #[trigger] s[k].0 <= s.last().0,
        forall|i: int|
            0 <= i < s.len() - 1 ==> covered_by(merge_regions(s.drop_last()), #[trigger] s[i]),
        forall|j: int|
            0 <= j < merge_regions(s.drop_last()).len() ==> starts_as_one_of(
                s.drop_last(),
                #[trigger] merge_regions(s.drop_last())[j],
            ),
        merge_regions(s.drop_last()).len() > 0,
        s.last().0 <= merge_regions(s.drop_last()).last().1,
    ensures
        forall|i: int| 0 <= i < s.len() ==> covered_by(merge_regions(s), #[trigger] s[i]),
        forall|j: int| 0 <= j < merge_regions(s).len() ==> starts_as_one_of(s, #[trigger] merge_regions(s)[j]),
{
    let p = s.drop_last();
    let m = merge_regions(p);
    let r = s.last();
    let t = merge_regions(s);
    let n = s.len() - 1;
    let l = m.last();
    let nl = (l.0, if l.1 >= r.1 { l.1 } else { r.1 });
    assert(t == m.update(m.len() - 1, nl));
    assert forall|i: int| 0 <= i < s.len() implies covered_by(t, #[trigger] s[i]) by {
        if i == n {
            assert(starts_as_one_of(p, m[m.len() - 1]));
            let k = choose|k: int| #![trigger p[k]] 0 <= k < p.len() && m[m.len() - 1].0 == p[k].0;
            assert(p[k] == s[k]);
            assert(s[k].0 <= s[n].0);
            assert(t[m.len() - 1] == nl);
        } else {
            assert(covered_by(m, s[i]));
            let j = choose|j: int| #![trigger m[j]] 0 <= j < m.len() && m[j].0 <= s[i].0 && s[i].1 <= m[j].1;
            assert(t[j].0 == m[j].0 && t[j].1 >= m[j].1);
        }
    }
    assert forall|j: int| 0 <= j < t.len() implies starts_as_one_of(s, #[trigger] t[j]) by {
        assert(starts_as_one_of(p, m[j]));
        let i = choose|i: int| #![trigger p[i]] 0 <= i < p.len() && m[j].0 == p[i].0;
        assert(p[i] == s[i]);
        assert(t[j].0 == m[j].0);
    }
}

proof fn lemma_merge_covers_push(s: Seq<(int, int)>)
    requires
        s.len() > 0,
        forall|i: int|
            0 <= i < s.len() - 1 ==> covered_by(merge_regions(s.drop_last()), #[trigger] s[i]),
        forall|j: int|
            0 <= j < merge_regions(s.drop_last()).len() ==> starts_as_one_of(
                s.drop_last(),
                #[trigger] merge_regions(s.drop_last())[j],
            ),
        !(merge_regions(s.drop_last()).len() > 0 && s.last().0 <= merge_regions(s.drop_last()).last().1),
    ensures
        forall|i: int| 0 <= i < s.len() ==> covered_by(merge_regions(s), #[trigger] s[i]),
        forall|j: int| 0 <= j < merge_regions(s).len() ==> starts_as_one_of(s, #[trigger] merge_regions(s)[j]),
{
    let p = s.drop_last();
    let m = merge_regions(p);
    let r = s.last();
    let t = merge_regions(s);
    let n = s.len() - 1;
    assert(t == m.push(r));
    assert forall|i: int| 0 <= i < s.len() implies covered_by(t, #[trigger] s[i]) by {
        if i == n {
            assert(t[m.len() as int] == r);
        } else {
            assert(covered_by(m, s[i]));
            let j = choose|j: int| #![trigger m[j]] 0 <= j < m.len() && m[j].0 <= s[i].0 && s[i].1 <= m[j].1;
            assert(t[j] == m[j]);
        }
    }
    assert forall|j: int| 0 <= j < t.len() implies starts_as_one_of(s, #[trigger] t[j]) by {
        if j == m.len() {
            assert(t[j] == s[n]);
        } else {
            assert(starts_as_one_of(p, m[j]));
            let i = choose|i: int| #![trigger p[i]] 0 <= i < p.len() && m[j].0 == p[i].0;
            assert(p[i] == s[i]);
            assert(t[j] == m[j]);
        }
    }
}

proof fn lemma_merge_covers(s: Seq<(int, int)>)
    requires
        sorted_by_start(s),
        forall|i: int| 0 <= i < s.len() ==> #[trigger] s[i].0 <= s[i].1,
    ensures
        forall|i: int| 0 <= i < s.len() ==> covered_by(merge_regions(s), #[trigger] s[i]),
        forall|j: int| 0 <= j < merge_regions(s).len() ==> starts_as_one_of(s, #[trigger] merge_regions(s)[j]),
    decreases s.len(),
{
    if s.len() > 0 {
        let p = s.drop_last();
        assert(sorted_by_start(p)) by {
            assert forall|i: int, j: int| 0 <= i <= j < p.len() implies #[trigger] p[i].0 <= #[trigger] p[j].0 by {
                assert(p[i] == s[i] && p[j] == s[j]);
            }
        }
        assert forall|i: int| 0 <= i < p.len() implies #[trigger] p[i].0 <= p[i].1 by {
            assert(p[i] == s[i]);
        }
        lemma_merge_covers(p);
        assert forall|i: int| 0 <= i < s.len() - 1 implies covered_by(merge_regions(p), #[trigger] s[i]) by {
            assert(p[i] == s[i]);
        }
        assert(s[s.len() - 1].0 <= s[s.len() - 1].1);
        let m = merge_regions(p);
        assert forall|k: int| 0 <= k < s.len() implies #[trigger] s[k].0 <= s.last().0 by {
            assert(s[k].0 <= s[s.len() - 1].0);
        }
        if m.len() > 0 && s.last().0 <= m.last().1 {
            lemma_merge_covers_update(s);
        } else {
            lemma_merge_covers_push(s);
        }
    }
}

/// Every region that matches the query (a query token found among the
/// line's tokens, or an occurrence of the search term) lies within one of
/// the highlighted regions.
pub proof fn lemma_every_match_highlighted(
    line: Seq<char>,
    toks: Seq<String>,
    lt: Seq<(Seq<char>, usize, usize)>,
    query: Seq<char>,
)
    ensures
        ({
            let all = highlight_regions(line, toks, lt, query);
            let ms = merge_regions(sort_by_start(all));
            forall|i: int| 0 <= i < all.len() ==> covered_by(ms, #[trigger] all[i])
        }),
{
    let all = highlight_regions(line, toks, lt, query);
    let st = sort_by_start(all);
    let ms = merge_regions(st);
    lemma_highlight_regions_wf(line, toks, lt, query);
    lemma_sort_wf(all, line.len() as int);
    lemma_sort_sorted(all);
    assert forall|i: int| 0 <= i < st.len() implies #[trigger] st[i].0 <= st[i].1 by {
        assert(wf_region(st[i], line.len() as int));
    }
    lemma_merge_covers(st);
    assert forall|i: int| 0 <= i < all.len() implies covered_by(ms, #[trigger] all[i]) by {
        assert(st.contains(all[i]));
        let k = choose|k: int| 0 <= k < st.len() && st[k] == all[i];
        assert(covered_by(ms, st[k]));
    }
}

proof fn lemma_occurrence_listed(hay: Seq<char>, pat: Seq<char>, orig: Seq<int>, k: int, p: int)
    requires
        0 <= k <= p,
        pat.len() > 0,
        occurs_at(hay, pat, p),
    ensures
        occurrence_regions(hay, pat, orig, k).contains((orig[p], orig[p + pat.len() - 1] + 1)),
    decreases p - k,
{
    let r = (orig[p], orig[p + pat.len() - 1] + 1);
    let rest = occurrence_regions(hay, pat, orig, k + 1);
    if k == p {
        assert(occurrence_regions(hay, pat, orig, k) == seq![r] + rest);
        assert((seq![r] + rest)[0] == r);
    } else {
        lemma_occurrence_listed(hay, pat, orig, k + 1, p);
        let i = choose|i: int| 0 <= i < rest.len() && rest[i] == r;
        if occurs_at(hay, pat, k) {
            let x = (orig[k], orig[k + pat.len() - 1] + 1);
            assert(occurrence_regions(hay, pat, orig, k) == seq![x] + rest);
            assert((seq![x] + rest)[i + 1] == r);
        } else {
            assert(occurrence_regions(hay, pat, orig, k) == rest);
        }
    }
}

/// Every occurrence of the query's plain search term (sign, field qualifier
/// and quotes stripped), normalized, in the normalized line lies inside a
/// highlighted region: the characters of the line it came from are shown in
/// bold red.
pub proof fn lemma_term_occurrences_highlighted(
    line: Seq<char>,
    toks: Seq<String>,
    lt: Seq<(Seq<char>, usize, usize)>,
    query: Seq<char>,
    p: int,
)
    requires
        spec_normalize(spec_strip_query_syntax(query)).len() > 0,
        occurs_at(concat_all(norm_fragments(line)), spec_normalize(spec_strip_query_syntax(query)), p),
    ensures
        ({
            let o = origin(norm_fragments(line));
            let n = spec_normalize(spec_strip_query_syntax(query)).len();
            let ms = merge_regions(sort_by_start(highlight_regions(line, toks, lt, query)));
            &&& spec_highlight(line, toks, lt, query) == decorate(render_pieces(line, ms))
            &&& exists|j: int|
                0 <= j < ms.len() && ms[j].0 <= o[p] && o[p + n - 1] + 1 <= ms[j].1
        }),
{
    let pat = spec_normalize(spec_strip_query_syntax(query));
    let fr = norm_fragments(line);
    let o = origin(fr);
    let r = (o[p], o[p + pat.len() - 1] + 1);
    lemma_occurrence_listed(concat_all(fr), pat, o, 0, p);
    let qr = query_regions(line, query);
    let tr = token_regions(line, toks, lt);
    let all = highlight_regions(line, toks, lt, query);
    let i = choose|i: int| 0 <= i < qr.len() && qr[i] == r;
    assert(all[tr.len() + i] == r);
    lemma_every_match_highlighted(line, toks, lt, query);
    assert(covered_by(merge_regions(sort_by_start(all)), all[tr.len() + i]));
    lemma_highlight_keeps_text(line, toks, lt, query);
}

/// Highlighting depends on the query only through its plain search term:
/// queries that strip to the same term (`"full text"` and `full text`)
/// highlight a line alike.
pub proof fn lemma_highlight_depends_on_term(
    line: Seq<char>,
    toks: Seq<String>,
    lt: Seq<(Seq<char>, usize, usize)>,
    q1: Seq<char>,
    q2: Seq<char>,
)
    requires
        spec_strip_query_syntax(q1) == spec_strip_query_syntax(q2),
    ensures
        spec_highlight(line, toks, lt, q1) == spec_highlight(line, toks, lt, q2),
{
}

} // verus!
