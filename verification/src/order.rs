//! The order of search results (`--sort`): by score as the index returns
//! them, by path and line, or by modification time, newest first.
use vstd::prelude::*;

use crate::meta::{chars_less, chars_lt, lemma_chars_lt_order, lemma_chars_lt_total};
use crate::searcher::{FileResult, LineResult, SortOrder};
use crate::text::chars_of;

verus! {

/// A sort key: a major rank, then a path, then a line number.
pub open spec fn key_view(k: (u64, String, u64)) -> (int, Seq<char>, int) {
    (k.0 as int, k.1@, k.2 as int)
}

/// Lexicographic order of keys: rank, then path (by code point), then line.
pub open spec fn key_lt(a: (int, Seq<char>, int), b: (int, Seq<char>, int)) -> bool {
    a.0 < b.0 || (a.0 == b.0 && (chars_lt(a.1, b.1) || (a.1 == b.1 && a.2 < b.2)))
}

/// Inserts `x` after every item whose key does not come after its own.
pub open spec fn insert_keyed<T>(s: Seq<(T, (int, Seq<char>, int))>, x: (T, (int, Seq<char>, int))) -> Seq<
    (T, (int, Seq<char>, int)),
>
    decreases s.len(),
{
    if s.len() == 0 {
        seq![x]
    } else if !key_lt(x.1, s.last().1) {
        s.push(x)
    } else {
        insert_keyed(s.drop_last(), x).push(s.last())
    }
}

/// Items in ascending order of key, items of equal keys in their given order
/// (insertion sort).
pub open spec fn sort_keyed<T>(s: Seq<(T, (int, Seq<char>, int))>) -> Seq<(T, (int, Seq<char>, int))>
    decreases s.len(),
{
    if s.len() == 0 {
        seq![]
    } else {
        insert_keyed(sort_keyed(s.drop_last()), s.last())
    }
}

/// Each item with the view of its key.
pub open spec fn keyed<T>(items: Seq<T>, keys: Seq<(u64, String, u64)>) -> Seq<(T, (int, Seq<char>, int))> {
    Seq::new(items.len(), |i: int| (items[i], key_view(keys[i])))
}

pub open spec fn firsts<T>(s: Seq<(T, (int, Seq<char>, int))>) -> Seq<T> {
    s.map_values(|p: (T, (int, Seq<char>, int))| p.0)
}

/// No item's key comes before the key of an item ahead of it.
pub open spec fn sorted_by_key<T>(s: Seq<(T, (int, Seq<char>, int))>) -> bool {
    forall|i: int, j: int| 0 <= i < j < s.len() ==> !key_lt(#[trigger] s[j].1, #[trigger] s[i].1)
}

proof fn lemma_key_order(a: (int, Seq<char>, int), b: (int, Seq<char>, int), c: (int, Seq<char>, int))
    ensures
        !key_lt(a, a),
        key_lt(a, b) && key_lt(b, c) ==> key_lt(a, c),
        !key_lt(a, b) && !key_lt(b, c) ==> !key_lt(a, c),
{
    lemma_chars_lt_order(a.1, b.1, c.1);
    lemma_chars_lt_order(c.1, b.1, a.1);
    lemma_chars_lt_order(b.1, a.1, c.1);
    lemma_chars_lt_order(a.1, c.1, b.1);
    lemma_chars_lt_order(c.1, a.1, b.1);
    lemma_chars_lt_order(b.1, c.1, a.1);
    lemma_chars_lt_total(a.1, b.1);
    lemma_chars_lt_total(b.1, c.1);
    lemma_chars_lt_total(a.1, c.1);
}

proof fn lemma_insert_keyed<T>(s: Seq<(T, (int, Seq<char>, int))>, x: (T, (int, Seq<char>, int)))
    requires
        sorted_by_key(s),
    ensures
        insert_keyed(s, x).len() == s.len() + 1,
        sorted_by_key(insert_keyed(s, x)),
        forall|y: (T, (int, Seq<char>, int))|
            #[trigger] insert_keyed(s, x).contains(y) <==> (y == x || s.contains(y)),
    decreases s.len(),
{
    let r = insert_keyed(s, x);
    if s.len() == 0 {
        assert(r =~= seq![x]);
        assert forall|y: (T, (int, Seq<char>, int))| #[trigger] r.contains(y) <==> (y == x || s.contains(y)) by {
            if r.contains(y) {
                let k = choose|k: int| 0 <= k < r.len() && r[k] == y;
                assert(k == 0);
            }
            if y == x {
                assert(r[0] == x);
            }
        }
    } else if !key_lt(x.1, s.last().1) {
        assert forall|i: int, j: int| 0 <= i < j < r.len() implies !key_lt(#[trigger] r[j].1, #[trigger] r[i].1) by {
            if j == s.len() {
                assert(r[i] == s[i]);
                if i < s.len() - 1 {
                    assert(!key_lt(s[s.len() - 1].1, s[i].1));
                    lemma_key_order(x.1, s.last().1, s[i].1);
                }
            } else {
                assert(r[i] == s[i] && r[j] == s[j]);
            }
        }
        assert forall|y: (T, (int, Seq<char>, int))| #[trigger] r.contains(y) <==> (y == x || s.contains(y)) by {
            if r.contains(y) {
                let k = choose|k: int| 0 <= k < r.len() && r[k] == y;
                if k < s.len() {
                    assert(s[k] == y);
                }
            }
            if s.contains(y) {
                let k = choose|k: int| 0 <= k < s.len() && s[k] == y;
                assert(r[k] == y);
            }
            if y == x {
                assert(r[s.len() as int] == x);
            }
        }
    } else {
        let t = s.drop_last();
        assert(sorted_by_key(t)) by {
            assert forall|i: int, j: int| 0 <= i < j < t.len() implies !key_lt(#[trigger] t[j].1, #[trigger] t[i].1) by {
                assert(t[i] == s[i] && t[j] == s[j]);
            }
        }
        lemma_insert_keyed(t, x);
        let q = insert_keyed(t, x);
        assert(r == q.push(s.last()));
        assert forall|y: (T, (int, Seq<char>, int))| #[trigger] r.contains(y) <==> (y == x || s.contains(y)) by {
            if r.contains(y) {
                let k = choose|k: int| 0 <= k < r.len() && r[k] == y;
                if k < q.len() {
                    assert(q[k] == y);
                    assert(q.contains(y));
                    if y != x {
                        let m = choose|m: int| 0 <= m < t.len() && t[m] == y;
                        assert(s[m] == y);
                    }
                } else {
                    assert(s[s.len() - 1] == y);
                }
            }
            if s.contains(y) {
                let k = choose|k: int| 0 <= k < s.len() && s[k] == y;
                if k < s.len() - 1 {
                    assert(t[k] == y);
                    assert(t.contains(y));
                    assert(q.contains(y));
                    let m = choose|m: int| 0 <= m < q.len() && q[m] == y;
                    assert(r[m] == y);
                } else {
                    assert(r[q.len() as int] == y);
                }
            }
            if y == x {
                assert(q.contains(x));
                let m = choose|m: int| 0 <= m < q.len() && q[m] == x;
                assert(r[m] == x);
            }
        }
        assert forall|i: int, j: int| 0 <= i < j < r.len() implies !key_lt(#[trigger] r[j].1, #[trigger] r[i].1) by {
            if j == q.len() {
                assert(r[i] == q[i]);
                assert(q.contains(q[i]));
                if q[i] == x {
                    lemma_key_order(x.1, s.last().1, x.1);
                } else {
                    let m = choose|m: int| 0 <= m < t.len() && t[m] == q[i];
                    assert(s[m] == q[i]);
                    assert(!key_lt(s[s.len() - 1].1, s[m].1));
                }
            } else {
                assert(r[i] == q[i] && r[j] == q[j]);
            }
        }
    }
}

/// Sorting by key keeps every item and puts the keys in ascending order.
pub proof fn lemma_sort_keyed<T>(s: Seq<(T, (int, Seq<char>, int))>)
    ensures
        sort_keyed(s).len() == s.len(),
        sorted_by_key(sort_keyed(s)),
        forall|y: (T, (int, Seq<char>, int))| #[trigger] sort_keyed(s).contains(y) <==> s.contains(y),
    decreases s.len(),
{
    if s.len() > 0 {
        let t = s.drop_last();
        lemma_sort_keyed(t);
        lemma_insert_keyed(sort_keyed(t), s.last());
        assert forall|y: (T, (int, Seq<char>, int))| #[trigger] sort_keyed(s).contains(y) <==> s.contains(y) by {
            if s.contains(y) && y != s.last() {
                let k = choose|k: int| 0 <= k < s.len() && s[k] == y;
                assert(t[k] == y);
                assert(t.contains(y));
            }
            if t.contains(y) {
                let k = choose|k: int| 0 <= k < t.len() && t[k] == y;
                assert(s[k] == y);
            }
            if y == s.last() {
                assert(s[s.len() - 1] == y);
            }
        }
    } else {
        assert(sort_keyed(s) =~= Seq::<(T, (int, Seq<char>, int))>::empty());
    }
}

fn key_less(a: &(u64, String, u64), b: &(u64, String, u64)) -> (r: bool)
    ensures
        r == key_lt(key_view(*a), key_view(*b)),
{
    if a.0 != b.0 {
        return a.0 < b.0;
    }
    let ap = chars_of(a.1.as_str());
    let bp = chars_of(b.1.as_str());
    if chars_less(&ap, &bp) {
        return true;
    }
    let same = a.1 == b.1;
    same && a.2 < b.2
}

proof fn lemma_insert_keyed_at<T>(s: Seq<(T, (int, Seq<char>, int))>, x: (T, (int, Seq<char>, int)), k: int)
    requires
        0 <= k <= s.len(),
        forall|j: int| k <= j < s.len() ==> key_lt(x.1, #[trigger] s[j].1),
        k > 0 ==> !key_lt(x.1, s[k - 1].1),
    ensures
        insert_keyed(s, x) == s.take(k).push(x) + s.skip(k),
    decreases s.len(),
{
    if k == s.len() {
        assert(s.take(k) == s);
        assert(s.skip(k) =~= Seq::<(T, (int, Seq<char>, int))>::empty());
    } else {
        assert(key_lt(x.1, s.last().1));
        lemma_insert_keyed_at(s.drop_last(), x, k);
        assert(s.drop_last().take(k) == s.take(k));
        assert(s.skip(k) =~= s.drop_last().skip(k).push(s.last()));
        assert(insert_keyed(s, x) =~= s.take(k).push(x) + s.skip(k));
    }
}

/// Reorders `items` by their keys (see `sort_keyed`): ascending, and stable
/// among equal keys.
pub fn sort_by_keys<T>(items: Vec<T>, keys: Vec<(u64, String, u64)>) -> (out: Vec<T>)
    requires
        items.len() == keys.len(),
    ensures
        out@ == firsts(sort_keyed(keyed(items@, keys@))),
{
    let ghost all = keyed(items@, keys@);
    let ghost n = items.len();
    let mut items = items;
    let mut keys = keys;
    let mut out: Vec<T> = Vec::new();
    let mut out_keys: Vec<(u64, String, u64)> = Vec::new();
    let mut i: usize = 0;
    while items.len() > 0
        invariant
            items.len() == keys.len(),
            i + items.len() == n,
            all.len() == n,
            forall|j: int| 0 <= j < items.len() ==> #[trigger] all[i + j] == (items@[j], key_view(keys@[j])),
            out.len() == out_keys.len(),
            sort_keyed(all.take(i as int)) == Seq::new(
                out.len() as nat,
                |j: int| (out@[j], key_view(out_keys@[j])),
            ),
        decreases items.len(),
    {
        let ghost s = Seq::new(out.len() as nat, |j: int| (out@[j], key_view(out_keys@[j])));
        let ghost old_items = items@;
        let ghost old_keys = keys@;
        let item = items.remove(0);
        let key = keys.remove(0);
        let ghost x = (item, key_view(key));
        assert(all[i as int] == x) by {
            assert(all[i + 0] == (old_items[0], key_view(old_keys[0])));
        }
        assert(all.take(i as int + 1).drop_last() == all.take(i as int));
        assert(all.take(i as int + 1).last() == x);
        let mut k = out.len();
        while k > 0
            invariant_except_break
                k <= out.len(),
                out.len() == out_keys.len(),
                s == Seq::new(out.len() as nat, |j: int| (out@[j], key_view(out_keys@[j]))),
                x == (item, key_view(key)),
                forall|j: int| k <= j < s.len() ==> key_lt(x.1, #[trigger] s[j].1),
            ensures
                k <= out.len(),
                forall|j: int| k <= j < s.len() ==> key_lt(x.1, #[trigger] s[j].1),
                k > 0 ==> !key_lt(x.1, s[k - 1].1),
            decreases k,
        {
            assert(s[k - 1].1 == key_view(out_keys@[k - 1]));
            if !key_less(&key, &out_keys[k - 1]) {
                break;
            }
            k = k - 1;
        }
        proof {
            lemma_insert_keyed_at(s, x, k as int);
        }
        out.insert(k, item);
        out_keys.insert(k, key);
        assert(Seq::new(out.len() as nat, |j: int| (out@[j], key_view(out_keys@[j]))) =~= s.take(k as int).push(x)
            + s.skip(k as int));
        i = i + 1;
        assert forall|j: int| 0 <= j < items.len() implies #[trigger] all[i + j] == (
            items@[j],
            key_view(keys@[j]),
        ) by {
            assert(items@[j] == old_items[j + 1]);
            assert(keys@[j] == old_keys[j + 1]);
            assert(all[(i - 1) + (j + 1)] == (old_items[j + 1], key_view(old_keys[j + 1])));
        }
    }
    assert(all.take(n as int) == all);
    let ghost sorted = sort_keyed(all);
    assert(out@ =~= firsts(sorted));
    out
}

/// The key of a result at `path`, line `line`, of a file last modified at
/// `mtime`: nothing for the score order, the path and line for the path
/// order, the time (newest first), then path and line for the time order.
pub open spec fn result_key(order: SortOrder, path: Seq<char>, line: int, mtime: int) -> (int, Seq<char>, int) {
    match order {
        SortOrder::Score => (0, seq![], 0),
        SortOrder::Path => (0, path, line),
        SortOrder::Mtime => (u64::MAX - mtime, path, line),
    }
}

fn result_key_exec(order: SortOrder, path: &String, line: u64, mtime: u64) -> (k: (u64, String, u64))
    ensures
        key_view(k) == result_key(order, path@, line as int, mtime as int),
{
    match order {
        SortOrder::Score => {
            let e = String::new();
            assert(e@ =~= Seq::<char>::empty());
            (0, e, 0)
        },
        SortOrder::Path => (0, path.clone(), line),
        SortOrder::Mtime => (u64::MAX - mtime, path.clone(), line),
    }
}

pub open spec fn line_keyed(results: Seq<LineResult>, order: SortOrder, mtimes: Seq<u64>) -> Seq<
    (LineResult, (int, Seq<char>, int)),
> {
    Seq::new(
        results.len(),
        |i: int| (results[i], result_key(order, results[i].path@, results[i].line_number as int, mtimes[i] as int)),
    )
}

pub open spec fn file_keyed(results: Seq<FileResult>, order: SortOrder, mtimes: Seq<u64>) -> Seq<
    (FileResult, (int, Seq<char>, int)),
> {
    Seq::new(results.len(), |i: int| (results[i], result_key(order, results[i].path@, 0, mtimes[i] as int)))
}

/// Orders line results for `--sort`; `mtimes` holds the modification time
/// of each result's file.
pub fn sort_line_results(results: Vec<LineResult>, order: SortOrder, mtimes: &Vec<u64>) -> (out: Vec<LineResult>)
    requires
        mtimes.len() == results.len(),
    ensures
        out@ == firsts(sort_keyed(line_keyed(results@, order, mtimes@))),
{
    let mut keys: Vec<(u64, String, u64)> = Vec::new();
    for i in 0..results.len()
        invariant
            mtimes.len() == results.len(),
            keys.len() == i,
            forall|j: int| 0 <= j < i ==> #[trigger] key_view(keys@[j]) == result_key(
                order,
                results@[j].path@,
                results@[j].line_number as int,
                mtimes@[j] as int,
            ),
    {
        let k = result_key_exec(order, &results[i].path, results[i].line_number, mtimes[i]);
        keys.push(k);
    }
    let ghost rs = results@;
    assert(keyed(rs, keys@) =~= line_keyed(rs, order, mtimes@));
    sort_by_keys(results, keys)
}

/// Orders file results for `--sort` (line numbers count as 0).
pub fn sort_file_results(results: Vec<FileResult>, order: SortOrder, mtimes: &Vec<u64>) -> (out: Vec<FileResult>)
    requires
        mtimes.len() == results.len(),
    ensures
        out@ == firsts(sort_keyed(file_keyed(results@, order, mtimes@))),
{
    let mut keys: Vec<(u64, String, u64)> = Vec::new();
    for i in 0..results.len()
        invariant
            mtimes.len() == results.len(),
            keys.len() == i,
            forall|j: int| 0 <= j < i ==> #[trigger] key_view(keys@[j]) == result_key(
                order,
                results@[j].path@,
                0,
                mtimes@[j] as int,
            ),
    {
        let k = result_key_exec(order, &results[i].path, 0, mtimes[i]);
        keys.push(k);
    }
    let ghost rs = results@;
    assert(keyed(rs, keys@) =~= file_keyed(rs, order, mtimes@));
    sort_by_keys(results, keys)
}

} // verus!
