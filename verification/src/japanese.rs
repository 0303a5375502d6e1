//! The Japanese analyzer as highlighting uses it: Lindera with the IPADIC
//! dictionary, base forms, stop tags, then the library's normalization and a
//! character-wise lowercase, the token chain of the Japanese index field.
use vstd::prelude::*;
use lindera::dictionary::load_dictionary;
use lindera::mode::Mode;
use lindera::segmenter::Segmenter;
use lindera_analysis::token_filter::japanese_base_form::JapaneseBaseFormTokenFilter;
use lindera_analysis::token_filter::japanese_stop_tags::JapaneseStopTagsTokenFilter;
use lindera_tantivy::tokenizer::LinderaTokenizer;
use tantivy::tokenizer::{TextAnalyzer, TokenStream};

use crate::analyzer::{normalize_chars, spec_normalize};
use crate::text::{chars_of, lower_each, lowercase_each, string_from_chars};

verus! {

/// A tantivy text analyzer; the library hands it text and reads its tokens.
#[verifier::external_type_specification]
#[verifier::external_body]
pub struct ExTextAnalyzer(TextAnalyzer);

pub open spec fn strings_view(v: Seq<String>) -> Seq<Seq<char>> {
    v.map_values(|s: String| s@)
}

/// A token (text, byte offset from, byte offset to) with its text viewed.
pub open spec fn token_views(v: Seq<(String, usize, usize)>) -> Seq<(Seq<char>, usize, usize)> {
    v.map_values(|t: (String, usize, usize)| (t.0@, t.1, t.2))
}

/// The tokens of `text` that the Lindera segmenter yields with the embedded
/// IPADIC dictionary in normal mode, each reduced to its base form, without
/// the tokens whose part-of-speech tag is one of `stop_tags`: (text, byte
/// offset from, byte offset to).
pub uninterp spec fn ipadic_tokens(stop_tags: Seq<Seq<char>>, text: Seq<char>) -> Seq<
    (Seq<char>, usize, usize),
>;

/// The text of an analyzer token: normalized, then lowercased character by
/// character.
pub open spec fn token_text(raw: Seq<char>) -> Seq<char> {
    lower_each(spec_normalize(raw))
}

/// The tokens with their texts as the analyzer gives them out.
pub open spec fn finish_tokens(raw: Seq<(Seq<char>, usize, usize)>) -> Seq<(Seq<char>, usize, usize)> {
    raw.map_values(|t: (Seq<char>, usize, usize)| (token_text(t.0), t.1, t.2))
}

/// The tokens of the Japanese analyzer with the given stop tags.
pub open spec fn japanese_analysis(stop_tags: Seq<Seq<char>>, text: Seq<char>) -> Seq<
    (Seq<char>, usize, usize),
> {
    finish_tokens(ipadic_tokens(stop_tags, text))
}

/// IPADIC part-of-speech tags removed from the Japanese token stream:
/// particles, auxiliary verbs, punctuation and other function words.
pub open spec fn spec_ipadic_stop_tags() -> Seq<Seq<char>> {
    seq![
        "接続詞"@,
        "助詞"@,
        "助詞,格助詞"@,
        "助詞,格助詞,一般"@,
        "助詞,格助詞,引用"@,
        "助詞,格助詞,連語"@,
        "助詞,係助詞"@,
        "助詞,副助詞"@,
        "助詞,間投助詞"@,
        "助詞,並立助詞"@,
        "助詞,終助詞"@,
        "助詞,副助詞／並立助詞／終助詞"@,
        "助詞,連体化"@,
        "助詞,副詞化"@,
        "助詞,特殊"@,
        "助動詞"@,
        "記号"@,
        "記号,一般"@,
        "記号,読点"@,
        "記号,句点"@,
        "記号,空白"@,
        "記号,括弧閉"@,
        "その他,間投"@,
        "フィラー"@,
        "非言語音"@,
    ]
}

/// The stop tags of the Japanese analyzer (see `spec_ipadic_stop_tags`).
pub fn ipadic_stop_tags() -> (v: Vec<String>)
    ensures
        strings_view(v@) == spec_ipadic_stop_tags(),
{
    let mut v: Vec<String> = Vec::new();
    v.push(String::from_str("接続詞"));
    v.push(String::from_str("助詞"));
    v.push(String::from_str("助詞,格助詞"));
    v.push(String::from_str("助詞,格助詞,一般"));
    v.push(String::from_str("助詞,格助詞,引用"));
    v.push(String::from_str("助詞,格助詞,連語"));
    v.push(String::from_str("助詞,係助詞"));
    v.push(String::from_str("助詞,副助詞"));
    v.push(String::from_str("助詞,間投助詞"));
    v.push(String::from_str("助詞,並立助詞"));
    v.push(String::from_str("助詞,終助詞"));
    v.push(String::from_str("助詞,副助詞／並立助詞／終助詞"));
    v.push(String::from_str("助詞,連体化"));
    v.push(String::from_str("助詞,副詞化"));
    v.push(String::from_str("助詞,特殊"));
    v.push(String::from_str("助動詞"));
    v.push(String::from_str("記号"));
    v.push(String::from_str("記号,一般"));
    v.push(String::from_str("記号,読点"));
    v.push(String::from_str("記号,句点"));
    v.push(String::from_str("記号,空白"));
    v.push(String::from_str("記号,括弧閉"));
    v.push(String::from_str("その他,間投"));
    v.push(String::from_str("フィラー"));
    v.push(String::from_str("非言語音"));
    assert(strings_view(v@) =~= spec_ipadic_stop_tags());
    v
}

/// Gives every token its finished text (see `finish_tokens`).
pub fn finish_token_texts(raw: Vec<(String, usize, usize)>) -> (res: Vec<(String, usize, usize)>)
    ensures
        token_views(res@) == finish_tokens(token_views(raw@)),
{
    let mut res: Vec<(String, usize, usize)> = Vec::new();
    for i in 0..raw.len()
        invariant
            token_views(res@) == finish_tokens(token_views(raw@).take(i as int)),
    {
        let t = &raw[i];
        let cs = chars_of(t.0.as_str());
        let n = normalize_chars(&cs);
        let l = lowercase_each(&n);
        let ghost before = token_views(res@);
        res.push((string_from_chars(&l), t.1, t.2));
        assert(token_views(res@) =~= before.push((token_text(t.0@), t.1, t.2)));
        assert(token_views(raw@).take(i as int + 1) =~= token_views(raw@).take(i as int).push(
            (t.0@, t.1, t.2),
        ));
        assert(finish_tokens(token_views(raw@).take(i as int + 1)) =~= finish_tokens(
            token_views(raw@).take(i as int),
        ).push((token_text(t.0@), t.1, t.2)));
    }
    assert(token_views(raw@).take(raw.len() as int) == token_views(raw@));
    res
}

/// The Japanese analyzer of highlighting: a tantivy analyzer over the Lindera
/// IPADIC segmenter, and the stop tags it was built with.
pub struct JapaneseAnalyzer {
    analyzer: TextAnalyzer,
    stop_tags: Vec<String>,
}

impl JapaneseAnalyzer {
    /// The stop tags the analyzer was built with.
    pub closed spec fn stop_tags(&self) -> Seq<Seq<char>> {
        strings_view(self.stop_tags@)
    }

    /// Calls lindera's `load_dictionary("embedded://ipadic")`,
    /// `Segmenter::new` in normal mode and `LinderaTokenizer::from_segmenter`,
    /// appends the base-form and stop-tags token filters, and makes a tantivy
    /// `TextAnalyzer` of it. `None` where the dictionary does not load (lindera
    /// built without its `embed-ipadic` feature); when it loads, nothing but
    /// the stop tags is stated of the analyzer here, its tokens are named by
    /// `ipadic_tokens`.
    #[verifier::external_body]
    fn build(stop_tags: &Vec<String>) -> (r: Option<JapaneseAnalyzer>)
        ensures
            r matches Some(a) ==> a.stop_tags() == strings_view(stop_tags@),
    {
        let dictionary = load_dictionary("embedded://ipadic").ok()?;
        let mut tokenizer = LinderaTokenizer::from_segmenter(Segmenter::new(Mode::Normal, dictionary, None));
        tokenizer.append_token_filter(JapaneseBaseFormTokenFilter::new().into());
        let tags = stop_tags.iter().cloned().collect();
        tokenizer.append_token_filter(JapaneseStopTagsTokenFilter::new(tags).into());
        Some(JapaneseAnalyzer { analyzer: TextAnalyzer::from(tokenizer), stop_tags: stop_tags.clone() })
    }

    /// The Japanese analyzer with the stop tags of `ipadic_stop_tags`, or
    /// `None` where the IPADIC dictionary is not available.
    pub fn new() -> (r: Option<JapaneseAnalyzer>)
        ensures
            r matches Some(a) ==> a.stop_tags() == spec_ipadic_stop_tags(),
    {
        let tags = ipadic_stop_tags();
        Self::build(&tags)
    }

    /// Runs `TextAnalyzer::token_stream` over `text` and collects every token
    /// as (text, byte offset from, byte offset to); the tokens are named by
    /// `ipadic_tokens`.
    #[verifier::external_body]
    fn raw_tokens(&mut self, text: &str) -> (tokens: Vec<(String, usize, usize)>)
        ensures
            token_views(tokens@) == ipadic_tokens(old(self).stop_tags(), text@),
            final(self).stop_tags() == old(self).stop_tags(),
    {
        let mut stream = self.analyzer.token_stream(text);
        let mut tokens = Vec::new();
        while stream.advance() {
            let t = stream.token();
            tokens.push((t.text.clone(), t.offset_from, t.offset_to));
        }
        tokens
    }

    /// The tokens of `text` with their finished texts (see `japanese_analysis`).
    pub fn tokens(&mut self, text: &str) -> (res: Vec<(String, usize, usize)>)
        ensures
            token_views(res@) == japanese_analysis(old(self).stop_tags(), text@),
            final(self).stop_tags() == old(self).stop_tags(),
    {
        let raw = self.raw_tokens(text);
        finish_token_texts(raw)
    }
}

} // verus!
