//! Word segmentation with jieba, reconciled onto the original text.
use vstd::prelude::*;
use vstd::utf8::encode_utf8;
use crate::reconcile::{
    advance_fits, concat_spans, fits_through, lemma_contiguous_placement, lemma_round_trip,
    lemma_tiles_fit, placed_in_order, reconcile, reconciled, reconciled_output, tiles,
    ExhaustionPolicy, ReconcileError, Segment,
};
use crate::token::{Text, Token};
use jieba_rs::Jieba as JiebaTokenizer;

verus! {

/// jieba's segmenter with its dictionary, carried as an opaque value.
#[verifier::external_type_specification]
#[verifier::external_body]
pub struct ExJiebaTokenizer(JiebaTokenizer);

/// Relies on jieba_rs::Jieba::new, which loads the built-in dictionary.
pub assume_specification[ JiebaTokenizer::new ]() -> JiebaTokenizer;

/// The character spans of the words that jieba, with its built-in dictionary,
/// cuts a text into in default mode without HMM.
pub uninterp spec fn builtin_word_spans(text: Seq<char>) -> Seq<(int, int)>;

/// The character spans of a segmentation.
pub open spec fn spans_of(segs: Seq<Segment>) -> Seq<(int, int)> {
    segs.map_values(|s: Segment| (s.start as int, s.end as int))
}

/// The dictionary a segmenter was built with.
#[derive(Clone, Copy, Debug, PartialEq, Eq, Structural)]
pub enum Dictionary {
    /// The dictionary that ships with jieba.
    Builtin,
}

/// A segmenter for Chinese text, built on jieba.
pub struct Jieba {
    jieba: JiebaTokenizer,
    dictionary: Dictionary,
}

/// Relies on jieba_rs::Jieba::tokenize in default mode without HMM, whose
/// result depends on the dictionary and the text alone. It splits the text
/// into runs that follow one another and cuts each run into words of at
/// least one character, numbered by a running character count from 0; each
/// word is the slice of the text between its character bounds.
#[verifier::external_body]
fn segment<'a>(jieba: &Jieba, text: &'a str) -> (r: Vec<Segment<'a>>)
    requires
        jieba.dictionary == Dictionary::Builtin,
    ensures
        spans_of(r@) == builtin_word_spans(text@),
        tiles(r@, text@.len() as int),
        forall|i: int|
            0 <= i < r.len() ==> (#[trigger] r[i]).word@ == text@.subrange(
                r[i].start as int,
                r[i].end as int,
            ),
{
    jieba.jieba.tokenize(text, jieba_rs::TokenizeMode::Default, false)
        .into_iter()
        .map(|t| Segment { word: t.word, start: t.start, end: t.end })
        .collect()
}

/// The tokens placed for a segmentation by the built-in dictionary carry its
/// spans in order, each with its word, and follow one another over the
/// original text; where every word fits, every word yields a token.
#[verifier::rlimit(20)]
proof fn lemma_tokens_of_words(
    original: Seq<char>,
    processed: Seq<char>,
    segs: Seq<Segment>,
    tokens: Seq<Token>,
)
    requires
        reconciled_output(tokens, segs, original),
        spans_of(segs) == builtin_word_spans(processed),
        tiles(segs, processed.len() as int),
        forall|i: int|
            0 <= i < segs.len() ==> (#[trigger] segs[i]).word@ == processed.subrange(
                segs[i].start as int,
                segs[i].end as int,
            ),
    ensures
        placed_in_order(tokens, original),
        tokens.len() <= builtin_word_spans(processed).len(),
        fits_through(segs, segs.len() as int, original.len() as int) ==> tokens.len()
            == builtin_word_spans(processed).len(),
        forall|i: int|
            0 <= i < tokens.len() ==> {
                &&& (#[trigger] tokens[i]).lemma is Borrowed
                &&& tokens[i].lemma@ == processed.subrange(
                    tokens[i].char_index as int,
                    tokens[i].char_end as int,
                )
                &&& (tokens[i].char_index as int, tokens[i].char_end as int)
                    == builtin_word_spans(processed)[i]
            },
{
    lemma_contiguous_placement(original, segs, tokens);
    assert(spans_of(segs).len() == segs.len());
    if fits_through(segs, segs.len() as int, original.len() as int) && tokens.len() < segs.len() {
        assert(advance_fits(segs, tokens.len() as int, original.len() as int));
    }
    assert forall|i: int| 0 <= i < tokens.len() implies {
        &&& (#[trigger] tokens[i]).lemma is Borrowed
        &&& tokens[i].lemma@ == processed.subrange(
            tokens[i].char_index as int,
            tokens[i].char_end as int,
        )
        &&& (tokens[i].char_index as int, tokens[i].char_end as int)
            == builtin_word_spans(processed)[i]
    } by {
        assert(reconciled(tokens[i], segs, original, i));
        assert(segs[i].word@ == processed.subrange(segs[i].start as int, segs[i].end as int));
        assert(spans_of(segs)[i] == (segs[i].start as int, segs[i].end as int));
    }
}

/// What reconciling a segmentation by the built-in dictionary gives, stated
/// over the segmentation's name.
#[verifier::rlimit(20)]
proof fn lemma_tokenize(
    original: Seq<char>,
    processed: Seq<char>,
    segs: Seq<Segment>,
    r: Result<Vec<Token>, ReconcileError>,
    policy: ExhaustionPolicy,
)
    requires
        spans_of(segs) == builtin_word_spans(processed),
        tiles(segs, processed.len() as int),
        forall|i: int|
            0 <= i < segs.len() ==> (#[trigger] segs[i]).word@ == processed.subrange(
                segs[i].start as int,
                segs[i].end as int,
            ),
        r is Err <==> (policy == ExhaustionPolicy::Fault && !fits_through(
            segs,
            segs.len() as int,
            original.len() as int,
        )),
        r matches Ok(tokens) ==> reconciled_output(tokens@, segs, original),
    ensures
        r is Err ==> policy == ExhaustionPolicy::Fault,
        r matches Ok(tokens) ==> {
            &&& placed_in_order(tokens@, original)
            &&& tokens.len() <= builtin_word_spans(processed).len()
            &&& policy == ExhaustionPolicy::Fault ==> tokens.len() == builtin_word_spans(
                processed,
            ).len()
            &&& forall|i: int|
                0 <= i < tokens.len() ==> {
                    &&& (#[trigger] tokens[i]).lemma is Borrowed
                    &&& tokens[i].lemma@ == processed.subrange(
                        tokens[i].char_index as int,
                        tokens[i].char_end as int,
                    )
                    &&& (tokens[i].char_index as int, tokens[i].char_end as int)
                        == builtin_word_spans(processed)[i]
                }
        },
        processed.len() == original.len() ==> (r matches Ok(tokens) && {
            &&& tokens.len() == builtin_word_spans(processed).len()
            &&& concat_spans(encode_utf8(original), tokens@) == encode_utf8(original)
        }),
{
    if processed.len() == original.len() {
        lemma_tiles_fit(segs, original.len() as int);
    }
    if r is Ok {
        let tokens = r->Ok_0@;
        lemma_tokens_of_words(original, processed, segs, tokens);
        if processed.len() == original.len() {
            lemma_round_trip(original, segs, tokens);
        }
    }
}

/// A text as written, and the text that is handed to the segmenter.
pub struct ProcessedText<'a> {
    pub original: &'a str,
    pub processed: Text<'a>,
}

impl Jieba {
    /// The dictionary this segmenter cuts words with.
    pub closed spec fn dictionary(&self) -> Dictionary {
        self.dictionary
    }

    /// A segmenter with jieba's built-in dictionary.
    pub fn new() -> (r: Self)
        ensures
            r.dictionary() == Dictionary::Builtin,
    {
        Jieba { jieba: JiebaTokenizer::new(), dictionary: Dictionary::Builtin }
    }

    /// Segments the processed text and places each word on the original
    /// text.
    ///
    /// The tokens carry, in order, the spans of the words that the
    /// dictionary cuts the processed text into, each with its word borrowed
    /// from the processed text; they follow one another over the original
    /// text. When both texts have the same number of characters every word
    /// is placed, and the tokens' byte spans spell out the original text.
    /// Otherwise `Fault` gives an error where a word reaches past the
    /// original text, and `Truncate` the tokens before it.
    pub fn tokenize<'a>(&self, s: &'a ProcessedText<'a>, policy: ExhaustionPolicy) -> (r: Result<
        Vec<Token<'a>>,
        ReconcileError,
    >)
        requires
            self.dictionary() == Dictionary::Builtin,
        ensures
            r is Err ==> policy == ExhaustionPolicy::Fault,
            r matches Ok(tokens) ==> {
                &&& placed_in_order(tokens@, s.original@)
                &&& tokens.len() <= builtin_word_spans(s.processed@).len()
                &&& policy == ExhaustionPolicy::Fault ==> tokens.len() == builtin_word_spans(
                    s.processed@,
                ).len()
                &&& forall|i: int|
                    0 <= i < tokens.len() ==> {
                        &&& (#[trigger] tokens[i]).lemma is Borrowed
                        &&& tokens[i].lemma@ == s.processed@.subrange(
                            tokens[i].char_index as int,
                            tokens[i].char_end as int,
                        )
                        &&& (tokens[i].char_index as int, tokens[i].char_end as int)
                            == builtin_word_spans(s.processed@)[i]
                    }
            },
            s.processed@.len() == s.original@.len() ==> (r matches Ok(tokens) && {
                &&& tokens.len() == builtin_word_spans(s.processed@).len()
                &&& concat_spans(encode_utf8(s.original@), tokens@) == encode_utf8(s.original@)
            }),
    {
        let segments = segment(self, s.processed.as_str());
        let r = reconcile(s.original, &segments, policy);
        proof {
            lemma_tokenize(s.original@, s.processed@, segments@, r, policy);
        }
        r
    }
}

impl Default for Jieba {
    /// A segmenter with jieba's built-in dictionary.
    fn default() -> (r: Self)
        ensures
            r.dictionary() == Dictionary::Builtin,
    {
        Jieba::new()
    }
}

} // verus!
