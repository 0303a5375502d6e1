//! Text normalization applied to both the indexed text and the queries:
//! NFKC, lowercase, katakana to hiragana, long-vowel-mark removal.
use vstd::prelude::*;
use unicode_normalization::UnicodeNormalization;

use crate::text::{char_from_u32, chars_of, string_from_chars};

verus! {

/// Unicode Normalization Form KC of a character sequence.
pub uninterp spec fn nfkc(s: Seq<char>) -> Seq<char>;

/// Unicode lowercase mapping of a character sequence, as `str::to_lowercase`
/// computes it (final sigma rule included).
pub uninterp spec fn lowercase(s: Seq<char>) -> Seq<char>;

/// Calls `UnicodeNormalization::nfkc` and collects the characters.
#[verifier::external_body]
fn nfkc_string(text: &str) -> (r: String)
    ensures
        r@ == nfkc(text@),
{
    text.nfkc().collect()
}

/// Calls `str::to_lowercase`.
#[verifier::external_body]
fn to_lowercase(text: &str) -> (r: String)
    ensures
        r@ == lowercase(text@),
{
    text.to_lowercase()
}

/// Full-width katakana U+30A1..=U+30F6.
pub open spec fn is_convertible_katakana(c: char) -> bool {
    '\u{30A1}' <= c && c <= '\u{30F6}'
}

/// The hiragana counterpart of a katakana letter (0x60 code points lower);
/// every other character is kept.
pub open spec fn kata_char_to_hira(c: char) -> char {
    if is_convertible_katakana(c) {
        ((c as u32) - 0x60) as char
    } else {
        c
    }
}

pub open spec fn spec_kata_to_hira(s: Seq<char>) -> Seq<char> {
    s.map_values(|c: char| kata_char_to_hira(c))
}

/// The prolonged sound mark `ー` (U+30FC).
pub open spec fn is_long_vowel_mark(c: char) -> bool {
    c == '\u{30FC}'
}

/// Drops every long vowel mark.
pub open spec fn spec_remove_long_vowels(s: Seq<char>) -> Seq<char> {
    s.filter(|c: char| !is_long_vowel_mark(c))
}

/// NFKC, then lowercase, then katakana to hiragana, then long vowel marks removed.
pub open spec fn spec_normalize(s: Seq<char>) -> Seq<char> {
    spec_remove_long_vowels(spec_kata_to_hira(lowercase(nfkc(s))))
}

/// Maps full-width katakana U+30A1..=U+30F6 to hiragana U+3041..=U+3096.
pub fn kata_to_hira(s: &Vec<char>) -> (res: Vec<char>)
    ensures
        res@ == spec_kata_to_hira(s@),
{
    let mut res: Vec<char> = Vec::new();
    for i in 0..s.len()
        invariant
            res@ == spec_kata_to_hira(s@.take(i as int)),
    {
        let c = s[i];
        let cp = c as u32;
        let h = if 0x30A1 <= cp && cp <= 0x30F6 {
            match char_from_u32(cp - 0x60) {
                Some(h) => h,
                None => c,
            }
        } else {
            c
        };
        res.push(h);
        assert(s@.take(i as int + 1) == s@.take(i as int).push(c));
    }
    assert(s@.take(s.len() as int) == s@);
    res
}

/// Removes long vowel marks, so that e.g. コンピューター and コンピュータ agree.
pub fn normalize_long_vowel(s: &Vec<char>) -> (res: Vec<char>)
    ensures
        res@ == spec_remove_long_vowels(s@),
{
    let mut res: Vec<char> = Vec::new();
    for i in 0..s.len()
        invariant
            res@ == spec_remove_long_vowels(s@.take(i as int)),
    {
        assert(s@.take(i as int + 1).drop_last() == s@.take(i as int));
        reveal_with_fuel(Seq::filter, 1);
        if s[i] != '\u{30FC}' {
            res.push(s[i]);
        }
    }
    assert(s@.take(s.len() as int) == s@);
    res
}

/// Normalizes text: NFKC, lowercase, katakana to hiragana, long vowel removal.
/// The result holds no katakana of U+30A1..=U+30F6 and no long vowel mark.
pub fn normalize(text: &str) -> (res: String)
    ensures
        res@ == spec_normalize(text@),
        forall|i: int|
            0 <= i < res@.len() ==> !is_convertible_katakana(#[trigger] res@[i])
                && !is_long_vowel_mark(res@[i]),
{
    let nfkc = nfkc_string(text);
    let lower = to_lowercase(nfkc.as_str());
    let chars = chars_of(lower.as_str());
    let hira = kata_to_hira(&chars);
    let out = normalize_long_vowel(&hira);
    proof {
        lemma_normalized_has_no_katakana(hira@);
    }
    string_from_chars(&out)
}

/// Normalization of a character sequence, character sequence out.
pub fn normalize_chars(v: &Vec<char>) -> (res: Vec<char>)
    ensures
        res@ == spec_normalize(v@),
{
    let s = string_from_chars(v);
    let n = normalize(s.as_str());
    chars_of(n.as_str())
}

proof fn lemma_normalized_has_no_katakana(s: Seq<char>)
    requires
        forall|i: int| 0 <= i < s.len() ==> !is_convertible_katakana(#[trigger] s[i]),
    ensures
        forall|i: int|
            0 <= i < spec_remove_long_vowels(s).len() ==> !is_convertible_katakana(
                #[trigger] spec_remove_long_vowels(s)[i],
            ) && !is_long_vowel_mark(spec_remove_long_vowels(s)[i]),
    decreases s.len(),
{
    broadcast use vstd::seq_lib::group_filter_ensures;

    reveal_with_fuel(Seq::filter, 1);
    if s.len() > 0 {
        lemma_normalized_has_no_katakana(s.drop_last());
        assert(spec_remove_long_vowels(s) == if is_long_vowel_mark(s.last()) {
            spec_remove_long_vowels(s.drop_last())
        } else {
            spec_remove_long_vowels(s.drop_last()).push(s.last())
        });
    }
}

/// Token filter that applies `normalize` to the text of each token.
#[derive(Clone, Copy, Debug)]
pub struct NormalizeFilter;

/// A tokenizer whose tokens pass through `NormalizeFilter`.
#[derive(Clone, Debug)]
pub struct NormalizeFilterWrapper<T> {
    inner: T,
}

impl<T> NormalizeFilterWrapper<T> {
    pub closed spec fn spec_inner(&self) -> T {
        self.inner
    }

    /// The wrapped tokenizer.
    pub fn inner(&self) -> (r: &T)
        ensures
            *r == self.spec_inner(),
    {
        &self.inner
    }

    /// The wrapped tokenizer, for mutation.
    pub fn inner_mut(&mut self) -> (r: &mut T)
        ensures
            *r == old(self).spec_inner(),
            final(self).spec_inner() == *final(r),
    {
        &mut self.inner
    }
}

impl NormalizeFilter {
    /// Wraps a tokenizer so that its tokens get normalized.
    pub fn transform<T>(self, tokenizer: T) -> (w: NormalizeFilterWrapper<T>)
        ensures
            w.spec_inner() == tokenizer,
    {
        NormalizeFilterWrapper { inner: tokenizer }
    }

    /// The new text of a token that passes the filter.
    pub fn filter_text(&self, text: &str) -> (r: String)
        ensures
            r@ == spec_normalize(text@),
    {
        normalize(text)
    }
}

} // verus!
