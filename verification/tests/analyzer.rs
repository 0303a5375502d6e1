use ftgrep::analyzer::{normalize, NormalizeFilter};

#[test]
fn test_normalize_nfkc() {
    assert_eq!(normalize("ＲＵＳＴ"), "rust");
}

#[test]
fn test_normalize_lowercase() {
    assert_eq!(normalize("Rust"), "rust");
}

#[test]
fn test_normalize_kata_to_hira() {
    assert_eq!(normalize("コンピュータ"), "こんぴゅた");
}

#[test]
fn test_normalize_long_vowel() {
    // ー (U+30FC) is removed
    assert_eq!(normalize("コンピューター"), "こんぴゅた");
}

#[test]
fn normalize_katakana_and_hiragana_agree() {
    assert_eq!(normalize("モデル"), normalize("もでる"));
    assert_eq!(normalize("コンピューター"), normalize("コンピュータ"));
}

#[test]
fn normalize_halfwidth_katakana_becomes_hiragana() {
    // NFKC turns half-width katakana into full-width, which then becomes hiragana.
    assert_eq!(normalize("ｶﾀｶﾅ"), "かたかな");
}

#[test]
fn normalize_keeps_other_text() {
    assert_eq!(normalize("漢字 and 123"), "漢字 and 123");
    assert_eq!(normalize(""), "");
}

#[test]
fn normalize_output_has_no_katakana_or_long_vowel() {
    let out = normalize("ヴァイオリン・ソナター");
    assert!(out.chars().all(|c| !('\u{30A1}'..='\u{30F6}').contains(&c) && c != '\u{30FC}'));
}

#[test]
fn normalize_filter_text_is_normalize() {
    let f = NormalizeFilter;
    assert_eq!(f.filter_text("ＲＵＳＴ"), "rust");
    let w = f.transform(7u32);
    assert_eq!(*w.inner(), 7u32);
}
