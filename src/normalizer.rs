//! Script-conditioned normalization of token lemmas.
use vstd::prelude::*;
use crate::token::{Language, Script, Text, Token};

verus! {

/// Whether character_converter takes a text to be written in the
/// traditional script.
pub uninterp spec fn is_traditional_text(s: Seq<char>) -> bool;

/// The simplified-script form that character_converter gives for a text.
pub uninterp spec fn simplified_text(s: Seq<char>) -> Seq<char>;

/// Relies on character_converter::is_traditional, whose answer depends on the
/// text alone.
#[verifier::external_body]
fn is_traditional(s: &str) -> (r: bool)
    ensures
        r == is_traditional_text(s@),
{
    character_converter::is_traditional(s)
}

/// Relies on character_converter::traditional_to_simplified, whose result
/// depends on the text alone.
#[verifier::external_body]
fn to_simplified(s: &str) -> (r: String)
    ensures
        r@ == simplified_text(s@),
{
    character_converter::traditional_to_simplified(s).into_owned()
}

/// `a` and `b` agree on everything but the lemma.
pub open spec fn same_metadata(a: Token, b: Token) -> bool {
    &&& a.kind == b.kind
    &&& a.char_index == b.char_index
    &&& a.char_end == b.char_end
    &&& a.byte_start == b.byte_start
    &&& a.byte_end == b.byte_end
    &&& a.script == b.script
    &&& a.language == b.language
}

/// `r` is what the Chinese normalizer makes of `t`: a traditional lemma is
/// replaced by a fresh buffer holding its simplified form; any other token is
/// left exactly as it was.
pub open spec fn chinese_normalized(r: Token, t: Token) -> bool {
    if is_traditional_text(t.lemma@) {
        &&& r.lemma is Owned
        &&& r.lemma@ == simplified_text(t.lemma@)
        &&& same_metadata(r, t)
    } else {
        r == t
    }
}

/// Gives `token` the lemma `converted`, where there is one, in a buffer of
/// its own, and keeps its position and classification.
pub fn with_converted_lemma<'o>(token: Token<'o>, converted: Option<String>) -> (r: Token<'o>)
    ensures
        converted matches Some(c) ==> r.lemma == Text::<'o>::Owned(c) && same_metadata(r, token),
        converted is None ==> r == token,
{
    match converted {
        Some(c) => Token { lemma: Text::Owned(c), ..token },
        None => token,
    }
}

/// Converts Chinese lemmas written in the traditional script to the
/// simplified script.
pub struct ChineseNormalizer;

impl ChineseNormalizer {
    /// The tokens that `token` becomes: here always one, the token with its
    /// lemma converted where it is traditional, and the token itself otherwise.
    pub fn normalize<'o>(&self, token: Token<'o>) -> (r: Vec<Token<'o>>)
        ensures
            r.len() == 1,
            chinese_normalized(r[0], token),
            same_metadata(r[0], token),
            !is_traditional_text(token.lemma@) ==> r[0] == token,
    {
        let converted = if is_traditional(token.lemma()) {
            Some(to_simplified(token.lemma()))
        } else {
            None
        };
        vec![with_converted_lemma(token, converted)]
    }

    /// Whether the normalizer applies to a token of this classification: to
    /// the Chinese and Japanese ideographic script, whatever the language.
    pub fn should_normalize(&self, script: Script, language: Option<Language>) -> (r: bool)
        ensures
            r == (script == Script::Cj),
    {
        script == Script::Cj
    }
}

/// `r` is what the pipeline makes of `tokens`: in the same order, each token
/// of the ideographic script normalized, every other token unchanged.
pub open spec fn pipeline_output(r: Seq<Token>, tokens: Seq<Token>) -> bool {
    &&& r.len() == tokens.len()
    &&& forall|i: int|
        0 <= i < tokens.len() ==> if tokens[i].script == Script::Cj {
            chinese_normalized(#[trigger] r[i], tokens[i])
        } else {
            r[i] == tokens[i]
        }
}

/// Runs a token sequence through the normalizer: where it applies to a
/// token's script and language, the token is replaced by what it yields;
/// other tokens pass through. The order of the tokens is kept.
pub fn normalize_tokens<'o>(normalizer: &ChineseNormalizer, tokens: Vec<Token<'o>>) -> (r: Vec<
    Token<'o>,
>)
    ensures
        pipeline_output(r@, tokens@),
{
    let ghost input = tokens@;
    let mut out: Vec<Token<'o>> = Vec::new();
    for token in it: tokens
        invariant
            it.seq() == input,
            out.len() == it.index(),
            forall|j: int| 0 <= j < out.len() ==> if input[j].script == Script::Cj {
                chinese_normalized(#[trigger] out[j], input[j])
            } else {
                out[j] == input[j]
            },
    {
        if normalizer.should_normalize(token.script, token.language) {
            let mut produced = normalizer.normalize(token);
            let t = produced.pop().unwrap();
            out.push(t);
        } else {
            out.push(token);
        }
    }
    out
}

} // verus!
