//! Matching a normalized search term against text while keeping track of
//! which original character each normalized character came from.
use vstd::prelude::*;

use crate::analyzer::{normalize_chars, spec_normalize};

verus! {

/// The normalized form of each character of `s`, taken one character at a time.
pub open spec fn norm_fragments(s: Seq<char>) -> Seq<Seq<char>> {
    s.map_values(|c: char| spec_normalize(seq![c]))
}

/// All fragments joined in order.
pub open spec fn concat_all(fr: Seq<Seq<char>>) -> Seq<char>
    decreases fr.len(),
{
    if fr.len() == 0 {
        seq![]
    } else {
        concat_all(fr.drop_last()) + fr.last()
    }
}

/// For each character of `concat_all(fr)`, the index of the fragment it belongs to.
pub open spec fn origin(fr: Seq<Seq<char>>) -> Seq<int>
    decreases fr.len(),
{
    if fr.len() == 0 {
        seq![]
    } else {
        origin(fr.drop_last()) + Seq::new(fr.last().len(), |j: int| (fr.len() - 1) as int)
    }
}

/// `pat` occurs in `hay` starting at position `p`.
pub open spec fn occurs_at(hay: Seq<char>, pat: Seq<char>, p: int) -> bool {
    0 <= p && p + pat.len() <= hay.len() && hay.subrange(p, p + pat.len()) == pat
}

pub open spec fn int_view(v: Seq<usize>) -> Seq<int> {
    v.map_values(|x: usize| x as int)
}

pub proof fn lemma_origin(fr: Seq<Seq<char>>)
    ensures
        origin(fr).len() == concat_all(fr).len(),
        forall|i: int| 0 <= i < origin(fr).len() ==> 0 <= #[trigger] origin(fr)[i] < fr.len(),
        forall|i: int, j: int|
            0 <= i <= j < origin(fr).len() ==> #[trigger] origin(fr)[i] <= #[trigger] origin(
                fr,
            )[j],
    decreases fr.len(),
{
    if fr.len() > 0 {
        lemma_origin(fr.drop_last());
        let o = origin(fr.drop_last());
        let tail = Seq::new(fr.last().len(), |j: int| (fr.len() - 1) as int);
        assert(origin(fr) == o + tail);
        assert forall|i: int, j: int|
            0 <= i <= j < origin(fr).len() implies #[trigger] origin(fr)[i] <= #[trigger] origin(
                fr,
            )[j] by {
            if j >= o.len() {
                assert(origin(fr)[j] == fr.len() - 1);
                if i < o.len() {
                    assert(origin(fr)[i] == o[i]);
                }
            } else {
                assert(origin(fr)[i] == o[i]);
                assert(origin(fr)[j] == o[j]);
            }
        }
        assert forall|i: int| 0 <= i < origin(fr).len() implies 0 <= #[trigger] origin(fr)[i]
            < fr.len() by {
            if i < o.len() {
                assert(origin(fr)[i] == o[i]);
            }
        }
    }
}

/// The normalized text of `v`, character by character, and for each
/// normalized character the index of the character of `v` it came from.
pub fn normalized_with_origin(v: &Vec<char>) -> (res: (Vec<char>, Vec<usize>))
    ensures
        res.0@ == concat_all(norm_fragments(v@)),
        int_view(res.1@) == origin(norm_fragments(v@)),
{
    let ghost fr = norm_fragments(v@);
    let mut norm: Vec<char> = Vec::new();
    let mut orig: Vec<usize> = Vec::new();
    for i in 0..v.len()
        invariant
            fr == norm_fragments(v@),
            norm@ == concat_all(fr.take(i as int)),
            int_view(orig@) == origin(fr.take(i as int)),
    {
        let mut one: Vec<char> = Vec::new();
        one.push(v[i]);
        assert(one@ == seq![v@[i as int]]);
        let frag = normalize_chars(&one);
        assert(frag@ == fr[i as int]);
        let ghost norm0 = norm@;
        let ghost orig0 = int_view(orig@);
        for j in 0..frag.len()
            invariant
                norm@ == norm0 + frag@.take(j as int),
                int_view(orig@) == orig0 + Seq::new(j as nat, |k: int| i as int),
        {
            let ghost before = orig@;
            norm.push(frag[j]);
            orig.push(i);
            assert(int_view(orig@) =~= int_view(before).push(i as int));
            assert(frag@.take(j as int + 1) == frag@.take(j as int).push(frag@[j as int]));
            assert(int_view(orig@) =~= orig0 + Seq::new(j as nat + 1, |k: int| i as int));
        }
        assert(frag@.take(frag.len() as int) == frag@);
        assert(fr.take(i as int + 1).drop_last() == fr.take(i as int));
        assert(fr.take(i as int + 1).last() == frag@);
    }
    assert(fr.take(v.len() as int) == fr);
    (norm, orig)
}

/// Whether `pat` occurs in `hay` at position `p`.
pub fn occurs_at_exec(hay: &Vec<char>, pat: &Vec<char>, p: usize) -> (b: bool)
    ensures
        b == occurs_at(hay@, pat@, p as int),
{
    if p > hay.len() || hay.len() - p < pat.len() {
        return false;
    }
    let mut j: usize = 0;
    while j < pat.len()
        invariant
            p + pat.len() <= hay.len(),
            j <= pat.len(),
            forall|k: int| 0 <= k < j ==> hay@[p + k] == pat@[k],
        decreases pat.len() - j,
    {
        if hay[p + j] != pat[j] {
            assert(hay@.subrange(p as int, p + pat.len())[j as int] != pat@[j as int]);
            return false;
        }
        j = j + 1;
    }
    assert(hay@.subrange(p as int, p + pat.len()) =~= pat@);
    true
}

/// First position at or after `p` where `pat` occurs in `hay`.
pub open spec fn first_occurrence_from(hay: Seq<char>, pat: Seq<char>, p: int) -> Option<int>
    decreases hay.len() - p,
{
    if p < 0 || p >= hay.len() {
        None
    } else if occurs_at(hay, pat, p) {
        Some(p)
    } else {
        first_occurrence_from(hay, pat, p + 1)
    }
}

pub proof fn lemma_first_occurrence(hay: Seq<char>, pat: Seq<char>, p: int)
    ensures
        first_occurrence_from(hay, pat, p) matches Some(x) ==> p <= x < hay.len() && occurs_at(
            hay,
            pat,
            x,
        ),
    decreases hay.len() - p,
{
    if 0 <= p < hay.len() && !occurs_at(hay, pat, p) {
        lemma_first_occurrence(hay, pat, p + 1);
    }
}

/// First position where `pat` occurs in `hay`.
pub fn first_occurrence(hay: &Vec<char>, pat: &Vec<char>) -> (r: Option<usize>)
    ensures
        match first_occurrence_from(hay@, pat@, 0) {
            Some(x) => r == Some(x as usize),
            None => r is None,
        },
        r matches Some(x) ==> x < hay.len(),
{
    proof {
        lemma_first_occurrence(hay@, pat@, 0);
    }
    let mut p: usize = 0;
    while p < hay.len()
        invariant
            p <= hay.len(),
            first_occurrence_from(hay@, pat@, 0) == first_occurrence_from(hay@, pat@, p as int),
        decreases hay.len() - p,
    {
        if occurs_at_exec(hay, pat, p) {
            return Some(p);
        }
        p = p + 1;
    }
    None
}

} // verus!
