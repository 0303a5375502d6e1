//! Character-level text primitives shared by the analyzers, the query
//! scanner and the indexer. Text is handled as sequences of `char`s.
use vstd::prelude::*;

verus! {

/// Unicode `White_Space` property, as `char::is_whitespace` documents it.
pub open spec fn is_ws(c: char) -> bool {
    ||| ('\u{9}' <= c && c <= '\u{D}')
    ||| c == ' '
    ||| c == '\u{85}'
    ||| c == '\u{A0}'
    ||| c == '\u{1680}'
    ||| ('\u{2000}' <= c && c <= '\u{200A}')
    ||| c == '\u{2028}'
    ||| c == '\u{2029}'
    ||| c == '\u{202F}'
    ||| c == '\u{205F}'
    ||| c == '\u{3000}'
}

pub fn is_whitespace(c: char) -> (b: bool)
    ensures
        b == is_ws(c),
{
    ('\u{9}' <= c && c <= '\u{D}') || c == ' ' || c == '\u{85}' || c == '\u{A0}' || c
        == '\u{1680}' || ('\u{2000}' <= c && c <= '\u{200A}') || c == '\u{2028}' || c
        == '\u{2029}' || c == '\u{202F}' || c == '\u{205F}' || c == '\u{3000}'
}

/// The characters of `s`, in order.
pub fn chars_of(s: &str) -> (v: Vec<char>)
    ensures
        v@ == s@,
{
    let mut v: Vec<char> = Vec::new();
    for c in it: s.chars()
        invariant
            v@ == it.seq().take(it.index() as int),
    {
        v.push(c);
    }
    v
}

/// `String::from_iter` over chars: the string made of exactly the given
/// characters, in order.
#[verifier::external_body]
pub fn string_from_chars(v: &Vec<char>) -> (s: String)
    ensures
        s@ == v@,
{
    v.iter().collect()
}

/// Unicode `Alphabetic` or `Numeric` property of a character, which is what
/// `char::is_alphanumeric` tests.
pub uninterp spec fn alphanumeric(c: char) -> bool;

/// Calls `char::is_alphanumeric`; its result is named `alphanumeric(c)`.
/// Among ASCII characters exactly the letters and digits are alphanumeric.
#[verifier::external_body]
pub fn is_alphanumeric(c: char) -> (b: bool)
    ensures
        b == alphanumeric(c),
        c <= '\u{7F}' ==> (b <==> (('a' <= c && c <= 'z') || ('A' <= c && c <= 'Z') || ('0' <= c
            && c <= '9'))),
{
    c.is_alphanumeric()
}

/// What `char::to_lowercase` yields for `c`: its Unicode lowercase mapping,
/// one or more characters.
pub uninterp spec fn char_lower(c: char) -> Seq<char>;

/// Calls `char::to_lowercase` and collects the characters; its result is
/// named `char_lower(c)`.
#[verifier::external_body]
pub fn char_to_lowercase(c: char) -> (r: Vec<char>)
    ensures
        r@ == char_lower(c),
{
    c.to_lowercase().collect()
}

/// Every character replaced by its lowercase mapping, one at a time (no
/// rule that looks at the neighbouring characters).
pub open spec fn lower_each(s: Seq<char>) -> Seq<char>
    decreases s.len(),
{
    if s.len() == 0 {
        seq![]
    } else {
        lower_each(s.drop_last()) + char_lower(s.last())
    }
}

/// Lowercases character by character (see `lower_each`).
pub fn lowercase_each(v: &Vec<char>) -> (r: Vec<char>)
    ensures
        r@ == lower_each(v@),
{
    let mut r: Vec<char> = Vec::new();
    for i in 0..v.len()
        invariant
            r@ == lower_each(v@.take(i as int)),
    {
        assert(v@.take(i as int + 1).drop_last() == v@.take(i as int));
        let l = char_to_lowercase(v[i]);
        push_range(&mut r, &l, 0, l.len());
        assert(l@.subrange(0, l@.len() as int) == l@);
    }
    assert(v@.take(v.len() as int) == v@);
    r
}

/// `char::from_u32`: the character with code point `u`, or `None` where `u`
/// is a surrogate or lies beyond U+10FFFF.
#[verifier::external_body]
pub fn char_from_u32(u: u32) -> (r: Option<char>)
    ensures
        r == (if (u < 0xD800 || (0xE000 <= u && u <= 0x10FFFF)) {
            Some(u as char)
        } else {
            None
        }),
{
    char::from_u32(u)
}

/// Classes of characters that the trimming helpers strip.
#[derive(Clone, Copy, PartialEq, Eq, Debug)]
pub enum CharClass {
    /// Unicode white space.
    Space,
    /// `+` or `-`.
    Sign,
    /// `"`.
    Quote,
}

pub open spec fn in_class(k: CharClass, c: char) -> bool {
    match k {
        CharClass::Space => is_ws(c),
        CharClass::Sign => c == '+' || c == '-',
        CharClass::Quote => c == '"',
    }
}

pub fn char_in_class(k: CharClass, c: char) -> (b: bool)
    ensures
        b == in_class(k, c),
{
    match k {
        CharClass::Space => is_whitespace(c),
        CharClass::Sign => c == '+' || c == '-',
        CharClass::Quote => c == '"',
    }
}

/// `s` without its leading characters of class `k`.
pub open spec fn trim_start_class(s: Seq<char>, k: CharClass) -> Seq<char>
    decreases s.len(),
{
    if s.len() > 0 && in_class(k, s[0]) {
        trim_start_class(s.drop_first(), k)
    } else {
        s
    }
}

/// `s` without its trailing characters of class `k`.
pub open spec fn trim_end_class(s: Seq<char>, k: CharClass) -> Seq<char>
    decreases s.len(),
{
    if s.len() > 0 && in_class(k, s.last()) {
        trim_end_class(s.drop_last(), k)
    } else {
        s
    }
}

/// `s` without leading and trailing characters of class `k`.
pub open spec fn trim_class(s: Seq<char>, k: CharClass) -> Seq<char> {
    trim_end_class(trim_start_class(s, k), k)
}

/// `str::trim`: white space removed from both ends.
pub open spec fn trim(s: Seq<char>) -> Seq<char> {
    trim_class(s, CharClass::Space)
}

/// First position of `c` in `s`.
pub open spec fn first_index_of(s: Seq<char>, c: char) -> Option<int>
    decreases s.len(),
{
    if s.len() == 0 {
        None
    } else if s[0] == c {
        Some(0)
    } else {
        match first_index_of(s.drop_first(), c) {
            Some(i) => Some(i + 1),
            None => None,
        }
    }
}

pub proof fn lemma_first_index_of(s: Seq<char>, c: char)
    ensures
        match first_index_of(s, c) {
            Some(i) => 0 <= i < s.len() && s[i] == c && forall|j: int| 0 <= j < i ==> s[j] != c,
            None => forall|j: int| 0 <= j < s.len() ==> s[j] != c,
        },
    decreases s.len(),
{
    if s.len() > 0 {
        lemma_first_index_of(s.drop_first(), c);
        if s[0] != c {
            match first_index_of(s.drop_first(), c) {
                Some(i) => {
                    assert forall|j: int| 0 <= j < i + 1 implies s[j] != c by {
                        if j > 0 {
                            assert(s[j] == s.drop_first()[j - 1]);
                        }
                    }
                },
                None => {
                    assert forall|j: int| 0 <= j < s.len() implies s[j] != c by {
                        if j > 0 {
                            assert(s[j] == s.drop_first()[j - 1]);
                        }
                    }
                },
            }
        }
    }
}

proof fn lemma_trim_start_step(s: Seq<char>, k: CharClass, lo: int, hi: int)
    requires
        0 <= lo < hi <= s.len(),
        in_class(k, s[lo]),
    ensures
        trim_start_class(s.subrange(lo, hi), k) == trim_start_class(s.subrange(lo + 1, hi), k),
{
    assert(s.subrange(lo, hi).drop_first() == s.subrange(lo + 1, hi));
}

proof fn lemma_trim_end_step(s: Seq<char>, k: CharClass, lo: int, hi: int)
    requires
        0 <= lo < hi <= s.len(),
        in_class(k, s[hi - 1]),
    ensures
        trim_end_class(s.subrange(lo, hi), k) == trim_end_class(s.subrange(lo, hi - 1), k),
{
    assert(s.subrange(lo, hi).drop_last() == s.subrange(lo, hi - 1));
}

/// The first position in `lo..hi` whose character is not of class `k`
/// (`hi` when there is none).
pub fn skip_class_forward(v: &Vec<char>, lo: usize, hi: usize, k: CharClass) -> (r: usize)
    requires
        lo <= hi <= v.len(),
    ensures
        lo <= r <= hi,
        trim_start_class(v@.subrange(lo as int, hi as int), k) == v@.subrange(r as int, hi as int),
        forall|j: int| lo <= j < r ==> in_class(k, #[trigger] v@[j]),
{
    let mut r = lo;
    while r < hi && char_in_class(k, v[r])
        invariant
            lo <= r <= hi <= v.len(),
            trim_start_class(v@.subrange(lo as int, hi as int), k) == trim_start_class(
                v@.subrange(r as int, hi as int),
                k,
            ),
            forall|j: int| lo <= j < r ==> in_class(k, #[trigger] v@[j]),
        decreases hi - r,
    {
        proof {
            lemma_trim_start_step(v@, k, r as int, hi as int);
        }
        r = r + 1;
    }
    r
}

/// The end of `lo..hi` once its trailing characters of class `k` are dropped.
pub fn skip_class_backward(v: &Vec<char>, lo: usize, hi: usize, k: CharClass) -> (r: usize)
    requires
        lo <= hi <= v.len(),
    ensures
        lo <= r <= hi,
        trim_end_class(v@.subrange(lo as int, hi as int), k) == v@.subrange(lo as int, r as int),
{
    let mut r = hi;
    while r > lo && char_in_class(k, v[r - 1])
        invariant
            lo <= r <= hi <= v.len(),
            trim_end_class(v@.subrange(lo as int, hi as int), k) == trim_end_class(
                v@.subrange(lo as int, r as int),
                k,
            ),
        decreases r - lo,
    {
        proof {
            lemma_trim_end_step(v@, k, lo as int, r as int);
        }
        r = r - 1;
    }
    r
}

/// The first position in `lo..hi` holding `c`.
pub fn find_char(v: &Vec<char>, lo: usize, hi: usize, c: char) -> (r: Option<usize>)
    requires
        lo <= hi <= v.len(),
    ensures
        match first_index_of(v@.subrange(lo as int, hi as int), c) {
            Some(i) => r == Some((lo + i) as usize),
            None => r is None,
        },
        r matches Some(x) ==> lo <= x < hi && v@[x as int] == c,
{
    let ghost sub = v@.subrange(lo as int, hi as int);
    proof {
        lemma_first_index_of(sub, c);
    }
    let mut i = lo;
    while i < hi
        invariant
            lo <= i <= hi <= v.len(),
            sub == v@.subrange(lo as int, hi as int),
            forall|j: int| lo <= j < i ==> v@[j] != c,
            match first_index_of(sub, c) {
                Some(p) => 0 <= p < sub.len() && sub[p] == c && forall|j: int|
                    0 <= j < p ==> sub[j] != c,
                None => forall|j: int| 0 <= j < sub.len() ==> sub[j] != c,
            },
        decreases hi - i,
    {
        if v[i] == c {
            proof {
                assert(sub[i - lo] == c);
                match first_index_of(sub, c) {
                    Some(p) => {
                        if p < i - lo {
                            assert(v@[lo + p] == sub[p]);
                        }
                    },
                    None => {},
                }
            }
            return Some(i);
        }
        i = i + 1;
    }
    proof {
        match first_index_of(sub, c) {
            Some(p) => {
                assert(v@[lo + p] == sub[p]);
            },
            None => {},
        }
    }
    None
}

/// Number of bytes of the UTF-8 encoding of `c` (`char::len_utf8`).
pub open spec fn utf8_len(c: char) -> int {
    if (c as u32) < 0x80 {
        1
    } else if (c as u32) < 0x800 {
        2
    } else if (c as u32) < 0x10000 {
        3
    } else {
        4
    }
}

/// Byte offset, in the UTF-8 encoding of `s`, of the character at index `k`.
pub open spec fn byte_pos(s: Seq<char>, k: int) -> int
    decreases k,
{
    if k <= 0 {
        0
    } else {
        byte_pos(s, k - 1) + utf8_len(s[k - 1])
    }
}

/// The character index whose byte offset is `b`, searching from index `k`.
pub open spec fn boundary_index_from(s: Seq<char>, b: int, k: int) -> Option<int>
    decreases s.len() + 1 - k,
{
    if k < 0 || k > s.len() {
        None
    } else if byte_pos(s, k) == b {
        Some(k)
    } else {
        boundary_index_from(s, b, k + 1)
    }
}

/// The character index at byte offset `b`: `Some` exactly when `b` is a
/// character boundary of the UTF-8 encoding of `s` (`str::is_char_boundary`).
pub open spec fn boundary_index(s: Seq<char>, b: int) -> Option<int> {
    boundary_index_from(s, b, 0)
}

pub proof fn lemma_byte_pos_mono(s: Seq<char>, i: int, j: int)
    requires
        0 <= i <= j,
    ensures
        byte_pos(s, i) + (j - i) <= byte_pos(s, j),
        byte_pos(s, j) <= byte_pos(s, i) + 4 * (j - i),
    decreases j - i,
{
    if i < j {
        lemma_byte_pos_mono(s, i, j - 1);
    }
}

pub proof fn lemma_boundary_index_from(s: Seq<char>, b: int, k: int)
    requires
        0 <= k,
    ensures
        boundary_index_from(s, b, k) matches Some(i) ==> k <= i <= s.len() && byte_pos(s, i)
            == b,
    decreases s.len() + 1 - k,
{
    if k <= s.len() && byte_pos(s, k) != b {
        lemma_boundary_index_from(s, b, k + 1);
    }
}

/// `byte_pos` of every index `0..=v.len()`.
pub fn byte_offsets(v: &Vec<char>) -> (t: Vec<u128>)
    ensures
        t.len() == v.len() + 1,
        forall|k: int| 0 <= k <= v.len() ==> #[trigger] t@[k] == byte_pos(v@, k),
{
    let mut t: Vec<u128> = Vec::new();
    let mut acc: u128 = 0;
    t.push(0);
    let mut i: usize = 0;
    while i < v.len()
        invariant
            i <= v.len(),
            t.len() == i + 1,
            acc == byte_pos(v@, i as int),
            acc <= 4 * i,
            forall|k: int| 0 <= k <= i ==> #[trigger] t@[k] == byte_pos(v@, k),
        decreases v.len() - i,
    {
        let cp = v[i] as u32;
        let w: u128 = if cp < 0x80 {
            1
        } else if cp < 0x800 {
            2
        } else if cp < 0x10000 {
            3
        } else {
            4
        };
        acc = acc + w;
        t.push(acc);
        i = i + 1;
    }
    t
}

/// Looks up the character index at byte offset `b` in a table of byte offsets.
pub(crate) fn boundary_lookup(t: &Vec<u128>, s: Ghost<Seq<char>>, b: usize) -> (r: Option<usize>)
    requires
        t.len() == s@.len() + 1,
        forall|k: int| 0 <= k <= s@.len() ==> #[trigger] t@[k] == byte_pos(s@, k),
    ensures
        match boundary_index(s@, b as int) {
            Some(i) => r == Some(i as usize),
            None => r is None,
        },
{
    let mut k: usize = 0;
    while k < t.len()
        invariant
            t.len() == s@.len() + 1,
            forall|k: int| 0 <= k <= s@.len() ==> #[trigger] t@[k] == byte_pos(s@, k),
            k <= t.len(),
            boundary_index(s@, b as int) == boundary_index_from(s@, b as int, k as int),
        decreases t.len() - k,
    {
        if t[k] == b as u128 {
            return Some(k);
        }
        k = k + 1;
    }
    None
}

/// Character offsets `lo..hi` of `line` appended to `out`.
pub fn push_range(out: &mut Vec<char>, line: &Vec<char>, lo: usize, hi: usize)
    requires
        lo <= hi <= line.len(),
    ensures
        final(out)@ == old(out)@ + line@.subrange(lo as int, hi as int),
{
    let ghost start = out@;
    let mut i = lo;
    while i < hi
        invariant
            lo <= i <= hi <= line.len(),
            out@ == start + line@.subrange(lo as int, i as int),
        decreases hi - i,
    {
        out.push(line[i]);
        assert(line@.subrange(lo as int, i + 1) == line@.subrange(lo as int, i as int).push(
            line@[i as int],
        ));
        i = i + 1;
    }
}

/// Whether the characters of `v` spell `s`.
pub fn chars_equal_str(v: &Vec<char>, s: &str) -> (b: bool)
    ensures
        b == (v@ == s@),
{
    let w = chars_of(s);
    if v.len() != w.len() {
        return false;
    }
    let mut i: usize = 0;
    while i < v.len()
        invariant
            v.len() == w.len(),
            w@ == s@,
            i <= v.len(),
            forall|k: int| 0 <= k < i ==> v@[k] == w@[k],
        decreases v.len() - i,
    {
        if v[i] != w[i] {
            return false;
        }
        i = i + 1;
    }
    assert(v@ =~= w@);
    true
}

/// Whether `v` begins with the characters of `s`.
pub fn chars_start_with_str(v: &Vec<char>, s: &str) -> (b: bool)
    ensures
        b == s@.is_prefix_of(v@),
{
    let w = chars_of(s);
    if v.len() < w.len() {
        return false;
    }
    let mut i: usize = 0;
    while i < w.len()
        invariant
            w.len() <= v.len(),
            w@ == s@,
            i <= w.len(),
            forall|k: int| 0 <= k < i ==> v@[k] == w@[k],
        decreases w.len() - i,
    {
        if v[i] != w[i] {
            return false;
        }
        i = i + 1;
    }
    true
}

/// The characters `lo..hi` of `v`.
pub fn chars_range(v: &Vec<char>, lo: usize, hi: usize) -> (r: Vec<char>)
    requires
        lo <= hi <= v.len(),
    ensures
        r@ == v@.subrange(lo as int, hi as int),
{
    let mut r: Vec<char> = Vec::new();
    push_range(&mut r, v, lo, hi);
    assert(r@ =~= v@.subrange(lo as int, hi as int));
    r
}

/// Appends the characters of `s`.
pub fn push_str(out: &mut Vec<char>, s: &str)
    ensures
        final(out)@ == old(out)@ + s@,
{
    let w = chars_of(s);
    push_range(out, &w, 0, w.len());
    assert(w@.subrange(0, w.len() as int) == w@);
}

} // verus!
