use charabia::normalizer::{normalize_tokens, with_converted_lemma, ChineseNormalizer};
use charabia::token::{Language, Script, Text, Token, TokenKind};

fn cj_token(lemma: &str, char_end: usize, byte_end: usize) -> Token<'static> {
    Token {
        kind: TokenKind::Unknown,
        lemma: Text::Owned(lemma.to_string()),
        char_index: 0,
        char_end,
        byte_start: 0,
        byte_end,
        script: Script::Cj,
        language: None,
    }
}

#[test]
fn traditional_lemma_becomes_simplified() {
    let out = ChineseNormalizer.normalize(cj_token("尊嚴", 2, 6));
    assert_eq!(out, vec![cj_token("尊严", 2, 6)]);
}

#[test]
fn lemma_common_to_both_scripts_is_unchanged() {
    let out = ChineseNormalizer.normalize(cj_token("生而自由", 4, 12));
    assert_eq!(out, vec![cj_token("生而自由", 4, 12)]);
}

#[test]
fn simplified_lemma_stays_borrowed() {
    let token = Token { lemma: Text::Borrowed("尊严"), ..cj_token("", 2, 6) };
    let out = ChineseNormalizer.normalize(token.clone());
    assert_eq!(out, vec![token]);
    assert!(matches!(out[0].lemma, Text::Borrowed(_)));
}

#[test]
fn applies_to_ideographic_script_only() {
    let n = ChineseNormalizer;
    assert!(n.should_normalize(Script::Cj, None));
    assert!(n.should_normalize(Script::Cj, Some(Language::Jpn)));
    assert!(n.should_normalize(Script::Cj, Some(Language::Eng)));
    assert!(!n.should_normalize(Script::Latin, Some(Language::Cmn)));
    assert!(!n.should_normalize(Script::Other, None));
}

#[test]
fn pipeline_normalizes_only_ideographic_tokens() {
    let latin = Token { script: Script::Latin, ..cj_token("尊嚴", 2, 6) };
    let tokens = vec![cj_token("尊嚴", 2, 6), latin.clone(), cj_token("生而自由", 4, 12)];
    let out = normalize_tokens(&ChineseNormalizer, tokens);
    assert_eq!(out, vec![cj_token("尊严", 2, 6), latin, cj_token("生而自由", 4, 12)]);
}

#[test]
fn converted_lemma_keeps_position() {
    let token = Token { char_index: 3, byte_start: 9, ..cj_token("尊嚴", 5, 15) };
    let out = with_converted_lemma(token.clone(), Some("x".to_string()));
    assert_eq!(out, Token { lemma: Text::Owned("x".to_string()), ..token.clone() });
    assert_eq!(with_converted_lemma(token.clone(), None), token);
}
