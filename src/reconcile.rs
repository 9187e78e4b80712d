//! Turning a segmenter's character spans into byte-accurate tokens over the
//! original text.
use vstd::prelude::*;
use crate::boundaries::Boundaries;
use crate::token::{Script, Text, Token, TokenKind};
use vstd::utf8::{encode_utf8, is_char_boundary};
use crate::utf8::{
    byte_offset, lemma_byte_offset_end, lemma_byte_offset_is_char_boundary, lemma_byte_offset_mono,
    on_char_boundary,
};

verus! {

/// One word of a segmenter's output: its text, and the half-open span
/// `[start, end)` of character indices that it covers in the segmented text.
#[derive(Clone, Copy, Debug, PartialEq, Eq)]
pub struct Segment<'a> {
    pub word: &'a str,
    pub start: usize,
    pub end: usize,
}

/// What to do when the segmenter claims more characters than the original
/// text has left.
#[derive(Clone, Copy, Debug, PartialEq, Eq, Structural)]
pub enum ExhaustionPolicy {
    /// Stop with an error.
    Fault,
    /// End the token sequence there, dropping the rest.
    Truncate,
}

#[derive(Clone, Copy, Debug, PartialEq, Eq, Structural)]
pub enum ReconcileError {
    /// The boundary cursor ran out while placing the segment at `index`.
    OffsetExhausted { index: usize },
}

/// The boundary entry that the cursor lands on for segment `i`: the first
/// segment jumps to its absolute end, each later one advances by its length.
pub open spec fn landing(segs: Seq<Segment>, i: int) -> int
    decreases i,
{
    if i <= 0 {
        segs[0].end as int
    } else {
        landing(segs, i - 1) + segs[i].end - segs[i].start
    }
}

/// Whether segment `i` can be placed in a text of `n` characters, that is
/// whether its advance is non-negative and stays within the `n + 1` entries.
pub open spec fn advance_fits(segs: Seq<Segment>, i: int, n: int) -> bool {
    &&& (i == 0 || segs[i].start < segs[i].end)
    &&& landing(segs, i) <= n
}

/// Whether the first `k` segments can all be placed.
pub open spec fn fits_through(segs: Seq<Segment>, k: int, n: int) -> bool {
    forall|i: int| 0 <= i < k ==> #[trigger] advance_fits(segs, i, n)
}

/// Where the token for segment `i` starts, in bytes of `text`.
pub open spec fn byte_start_at(segs: Seq<Segment>, text: Seq<char>, i: int) -> int {
    if i == 0 {
        0
    } else {
        byte_offset(text, landing(segs, i - 1))
    }
}

/// Where the token for segment `i` ends, in bytes of `text`.
pub open spec fn byte_end_at(segs: Seq<Segment>, text: Seq<char>, i: int) -> int {
    byte_offset(text, landing(segs, i))
}

/// `t` is the token that segment `i` yields over `text`.
pub open spec fn reconciled(t: Token, segs: Seq<Segment>, text: Seq<char>, i: int) -> bool {
    &&& t.kind == TokenKind::Word
    &&& t.lemma == Text::Borrowed(segs[i].word)
    &&& t.char_index == segs[i].start
    &&& t.char_end == segs[i].end
    &&& t.byte_start == byte_start_at(segs, text, i)
    &&& t.byte_end == byte_end_at(segs, text, i)
    &&& t.script == Script::Other
    &&& t.language is None
}

/// `tokens` is the sequence emitted for `segs` over `text`: one token for each
/// segment up to the first that cannot be placed.
pub open spec fn reconciled_output(tokens: Seq<Token>, segs: Seq<Segment>, text: Seq<char>) -> bool {
    &&& tokens.len() <= segs.len()
    &&& fits_through(segs, tokens.len() as int, text.len() as int)
    &&& (tokens.len() < segs.len() ==> !advance_fits(segs, tokens.len() as int, text.len() as int))
    &&& forall|i: int| 0 <= i < tokens.len() ==> reconciled(#[trigger] tokens[i], segs, text, i)
}

/// Places each segment of the segmenter's output on `original`, in one pass
/// over it, and gives the tokens with their byte spans there.
///
/// Where a segment cannot be placed, `Fault` gives the error and `Truncate`
/// the tokens placed before it.
pub fn reconcile<'a>(
    original: &'a str,
    segments: &Vec<Segment<'a>>,
    policy: ExhaustionPolicy,
) -> (r: Result<Vec<Token<'a>>, ReconcileError>)
    ensures
        r is Err <==> (policy == ExhaustionPolicy::Fault && !fits_through(
            segments@,
            segments.len() as int,
            original@.len() as int,
        )),
        r matches Ok(tokens) ==> reconciled_output(tokens@, segments@, original@),
        r matches Err(ReconcileError::OffsetExhausted { index }) ==> {
            &&& index < segments.len()
            &&& fits_through(segments@, index as int, original@.len() as int)
            &&& !advance_fits(segments@, index as int, original@.len() as int)
        },
{
    let ghost segs = segments@;
    let ghost text = original@;
    let ghost n = text.len() as int;
    let mut cursor = Boundaries::new(original);
    let mut tokens: Vec<Token<'a>> = Vec::new();
    let mut byte_index: usize = 0;
    let mut i: usize = 0;
    while i < segments.len()
        invariant
            segs == segments@,
            text == original@,
            n == text.len(),
            cursor.wf(),
            cursor.text() == text,
            i <= segs.len(),
            tokens.len() == i,
            fits_through(segs, i as int, n),
            i == 0 ==> cursor.position() == 0 && byte_index == 0,
            i > 0 ==> cursor.position() == landing(segs, i - 1) + 1 && byte_index == byte_offset(
                text,
                landing(segs, i - 1),
            ),
            forall|j: int| 0 <= j < i ==> reconciled(#[trigger] tokens@[j], segs, text, j),
        decreases segments.len() - i,
    {
        let seg = segments[i];
        let landed = if i == 0 {
            cursor.nth(seg.end)
        } else if seg.start < seg.end {
            cursor.nth(seg.end - seg.start - 1)
        } else {
            None
        };
        match landed {
            Some(byte_end) => {
                let token = Token {
                    kind: TokenKind::Word,
                    lemma: Text::Borrowed(seg.word),
                    char_index: seg.start,
                    char_end: seg.end,
                    byte_start: byte_index,
                    byte_end,
                    script: Script::Other,
                    language: None,
                };
                proof {
                    if i > 0 {
                        assert(landing(segs, i as int) == landing(segs, i - 1) + seg.end - seg.start);
                    }
                    assert(reconciled(token, segs, text, i as int));
                }
                tokens.push(token);
                byte_index = byte_end;
                proof {
                    assert(tokens@[i as int] == token);
                    assert(advance_fits(segs, i as int, n));
                    assert(fits_through(segs, i + 1, n));
                }
            },
            None => {
                proof {
                    assert(!advance_fits(segs, i as int, n));
                }
                return match policy {
                    ExhaustionPolicy::Fault => Err(ReconcileError::OffsetExhausted { index: i }),
                    ExhaustionPolicy::Truncate => Ok(tokens),
                };
            },
        }
        i = i + 1;
    }
    Ok(tokens)
}

/// The spans follow one another: the first starts at 0 and each later one
/// starts where the one before it ended.
pub open spec fn contiguous(segs: Seq<Segment>) -> bool {
    &&& (segs.len() > 0 ==> segs[0].start == 0)
    &&& forall|i: int| 0 < i < segs.len() ==> #[trigger] segs[i].start == segs[i - 1].end
}

/// The spans tile a text of `n` characters: they are contiguous, none is
/// empty, and the last ends at `n`.
pub open spec fn tiles(segs: Seq<Segment>, n: int) -> bool {
    &&& contiguous(segs)
    &&& (segs.len() == 0 ==> n == 0)
    &&& (segs.len() > 0 ==> segs.last().end == n)
    &&& forall|i: int| 0 <= i < segs.len() ==> #[trigger] segs[i].start < segs[i].end
}

/// `tokens` lie one after the other from the start of `text`, each over the
/// bytes of its own character span.
pub open spec fn placed_in_order(tokens: Seq<Token>, text: Seq<char>) -> bool {
    forall|i: int|
        0 <= i < tokens.len() ==> {
            &&& (#[trigger] tokens[i]).kind == TokenKind::Word
            &&& tokens[i].char_index <= tokens[i].char_end <= text.len()
            &&& tokens[i].byte_start == byte_offset(text, tokens[i].char_index as int)
            &&& tokens[i].byte_end == byte_offset(text, tokens[i].char_end as int)
            &&& (i == 0 ==> tokens[i].char_index == 0)
            &&& (i > 0 ==> tokens[i].char_index == tokens[i - 1].char_end)
        }
}

/// The bytes of `bytes` that the tokens' spans cover, one span after the
/// other in token order.
pub open spec fn concat_spans(bytes: Seq<u8>, tokens: Seq<Token>) -> Seq<u8>
    decreases tokens.len(),
{
    if tokens.len() == 0 {
        Seq::empty()
    } else {
        concat_spans(bytes, tokens.drop_last()) + bytes.subrange(
            tokens.last().byte_start as int,
            tokens.last().byte_end as int,
        )
    }
}

/// While segments can be placed, the cursor moves strictly forward and stays
/// within the text's boundary entries.
proof fn lemma_landing_range(segs: Seq<Segment>, n: int, k: int)
    requires
        0 <= k <= segs.len(),
        fits_through(segs, k, n),
    ensures
        forall|i: int| 0 <= i < k ==> 0 <= #[trigger] landing(segs, i) <= n,
        forall|i: int| 0 < i < k ==> landing(segs, i - 1) < #[trigger] landing(segs, i),
    decreases k,
{
    if k > 0 {
        lemma_landing_range(segs, n, k - 1);
        assert(advance_fits(segs, k - 1, n));
        if k > 1 {
            assert(advance_fits(segs, k - 2, n));
        }
    }
}

/// On contiguous spans every segment lands exactly on its own end.
proof fn lemma_landing_contiguous(segs: Seq<Segment>, k: int)
    requires
        contiguous(segs),
        0 <= k <= segs.len(),
    ensures
        forall|i: int| 0 <= i < k ==> #[trigger] landing(segs, i) == segs[i].end,
    decreases k,
{
    if k > 1 {
        lemma_landing_contiguous(segs, k - 1);
        assert(segs[k - 1].start == segs[k - 2].end);
        assert(landing(segs, k - 2) == segs[k - 2].end);
        assert(landing(segs, k - 1) == landing(segs, k - 2) + segs[k - 1].end - segs[k - 1].start);
    }
}

/// Contiguous spans yield tokens that lie one after the other, each over
/// its own span.
pub proof fn lemma_contiguous_placement(text: Seq<char>, segs: Seq<Segment>, tokens: Seq<Token>)
    requires
        contiguous(segs),
        reconciled_output(tokens, segs, text),
    ensures
        placed_in_order(tokens, text),
{
    let n = text.len() as int;
    lemma_landing_contiguous(segs, segs.len() as int);
    lemma_landing_range(segs, n, tokens.len() as int);
    assert forall|i: int| 0 <= i < tokens.len() implies {
        &&& (#[trigger] tokens[i]).kind == TokenKind::Word
        &&& tokens[i].char_index <= tokens[i].char_end <= text.len()
        &&& tokens[i].byte_start == byte_offset(text, tokens[i].char_index as int)
        &&& tokens[i].byte_end == byte_offset(text, tokens[i].char_end as int)
        &&& (i == 0 ==> tokens[i].char_index == 0)
        &&& (i > 0 ==> tokens[i].char_index == tokens[i - 1].char_end)
    } by {
        assert(reconciled(tokens[i], segs, text, i));
        assert(advance_fits(segs, i, n));
        if i == 0 {
            assert(text.take(0) =~= Seq::<char>::empty());
        } else {
            assert(reconciled(tokens[i - 1], segs, text, i - 1));
        }
    }
}

/// On tiling spans the ends grow: none of the first `k` ends past the `k`-th.
proof fn lemma_ends_grow(segs: Seq<Segment>, n: int, k: int)
    requires
        tiles(segs, n),
        0 < k <= segs.len(),
    ensures
        forall|i: int| 0 <= i < k ==> #[trigger] segs[i].end <= segs[k - 1].end,
    decreases k,
{
    if k > 1 {
        lemma_ends_grow(segs, n, k - 1);
        assert(segs[k - 1].start == segs[k - 2].end);
        assert(segs[k - 1].start < segs[k - 1].end);
    }
}

/// Every segment of a tiling fits, landing on its own end.
pub proof fn lemma_tiles_fit(segs: Seq<Segment>, n: int)
    requires
        tiles(segs, n),
    ensures
        fits_through(segs, segs.len() as int, n),
        forall|i: int| 0 <= i < segs.len() ==> #[trigger] landing(segs, i) == segs[i].end,
{
    lemma_landing_contiguous(segs, segs.len() as int);
    if segs.len() > 0 {
        lemma_ends_grow(segs, n, segs.len() as int);
    }
    assert forall|i: int| 0 <= i < segs.len() implies #[trigger] advance_fits(segs, i, n) by {
        assert(segs[i].start < segs[i].end);
        assert(segs[i].end <= segs[segs.len() - 1].end);
    }
}

/// Round trip: when the segmenter's spans tile the original text, every
/// segment yields a token, and the byte spans of the tokens, read in order,
/// spell out the original text's encoding exactly.
pub proof fn lemma_round_trip(text: Seq<char>, segs: Seq<Segment>, tokens: Seq<Token>)
    requires
        tiles(segs, text.len() as int),
        reconciled_output(tokens, segs, text),
    ensures
        tokens.len() == segs.len(),
        concat_spans(encode_utf8(text), tokens) == encode_utf8(text),
{
    let n = text.len() as int;
    let bytes = encode_utf8(text);
    lemma_tiles_fit(segs, n);
    if tokens.len() < segs.len() {
        assert(advance_fits(segs, tokens.len() as int, n));
    }
    lemma_concat_prefix(text, segs, tokens, tokens.len() as int);
    assert(tokens.take(tokens.len() as int) =~= tokens);
    if tokens.len() == 0 {
        assert(bytes =~= Seq::<u8>::empty());
    } else {
        assert(landing(segs, tokens.len() - 1) == n);
        lemma_byte_offset_end(text, n);
        assert(bytes.take(bytes.len() as int) =~= bytes);
    }
}

/// The spans of the first `k` tokens, read in order, are the bytes up to
/// where the `k`-th token ends.
proof fn lemma_concat_prefix(text: Seq<char>, segs: Seq<Segment>, tokens: Seq<Token>, k: int)
    requires
        reconciled_output(tokens, segs, text),
        0 <= k <= tokens.len(),
    ensures
        k > 0 ==> concat_spans(encode_utf8(text), tokens.take(k)) == encode_utf8(text).take(
            byte_offset(text, landing(segs, k - 1)),
        ),
        k == 0 ==> concat_spans(encode_utf8(text), tokens.take(k)) == Seq::<u8>::empty(),
    decreases k,
{
    let bytes = encode_utf8(text);
    let n = text.len() as int;
    lemma_landing_range(segs, n, tokens.len() as int);
    if k > 0 {
        lemma_concat_prefix(text, segs, tokens, k - 1);
        assert(tokens.take(k).drop_last() =~= tokens.take(k - 1));
        assert(tokens.take(k).last() == tokens[k - 1]);
        assert(reconciled(tokens[k - 1], segs, text, k - 1));
        lemma_byte_offset_mono(text, landing(segs, k - 1), n);
        if k > 1 {
            lemma_byte_offset_mono(text, landing(segs, k - 2), landing(segs, k - 1));
            assert(bytes.take(byte_offset(text, landing(segs, k - 2))) + bytes.subrange(
                byte_offset(text, landing(segs, k - 2)),
                byte_offset(text, landing(segs, k - 1)),
            ) =~= bytes.take(byte_offset(text, landing(segs, k - 1))));
        } else {
            assert(Seq::<u8>::empty() + bytes.subrange(0, byte_offset(text, landing(segs, 0)))
                =~= bytes.take(byte_offset(text, landing(segs, 0))));
        }
    }
}

/// Boundary alignment: every token's span starts and ends on a character
/// boundary of the original text.
pub proof fn lemma_spans_on_boundaries(text: Seq<char>, segs: Seq<Segment>, tokens: Seq<Token>)
    requires
        reconciled_output(tokens, segs, text),
    ensures
        forall|i: int|
            0 <= i < tokens.len() ==> {
                &&& on_char_boundary(text, #[trigger] tokens[i].byte_start as int)
                &&& on_char_boundary(text, tokens[i].byte_end as int)
                &&& is_char_boundary(encode_utf8(text), tokens[i].byte_start as int)
                &&& is_char_boundary(encode_utf8(text), tokens[i].byte_end as int)
            },
{
    let n = text.len() as int;
    lemma_landing_range(segs, n, tokens.len() as int);
    assert forall|i: int| 0 <= i < tokens.len() implies {
        &&& on_char_boundary(text, #[trigger] tokens[i].byte_start as int)
        &&& on_char_boundary(text, tokens[i].byte_end as int)
        &&& is_char_boundary(encode_utf8(text), tokens[i].byte_start as int)
        &&& is_char_boundary(encode_utf8(text), tokens[i].byte_end as int)
    } by {
        assert(reconciled(tokens[i], segs, text, i));
        let e = landing(segs, i);
        let b = if i == 0 { 0 } else { landing(segs, i - 1) };
        assert(text.take(0) =~= Seq::<char>::empty());
        assert(tokens[i].byte_start == byte_offset(text, b));
        lemma_byte_offset_is_char_boundary(text, b);
        lemma_byte_offset_is_char_boundary(text, e);
    }
}

/// Order: tokens carry the segmenter's own start indices, so an ordered
/// segmentation gives non-decreasing `char_index`; the byte spans follow one
/// another without gap or overlap.
pub proof fn lemma_order(text: Seq<char>, segs: Seq<Segment>, tokens: Seq<Token>)
    requires
        reconciled_output(tokens, segs, text),
        forall|i: int, j: int| 0 <= i <= j < segs.len() ==> segs[i].start <= segs[j].start,
    ensures
        forall|i: int| 0 <= i < tokens.len() ==> #[trigger] tokens[i].char_index == segs[i].start,
        forall|i: int, j: int|
            0 <= i <= j < tokens.len() ==> tokens[i].char_index <= tokens[j].char_index,
        forall|i: int| 0 <= i < tokens.len() ==> #[trigger] tokens[i].byte_start <= tokens[i].byte_end,
        forall|i: int|
            0 < i < tokens.len() ==> #[trigger] tokens[i].byte_start == tokens[i - 1].byte_end,
{
    let n = text.len() as int;
    lemma_landing_range(segs, n, tokens.len() as int);
    assert forall|i: int| 0 <= i < tokens.len() implies #[trigger] tokens[i].byte_start
        <= tokens[i].byte_end by {
        assert(reconciled(tokens[i], segs, text, i));
        if i == 0 {
            assert(text.take(0) =~= Seq::<char>::empty());
            lemma_byte_offset_mono(text, 0, landing(segs, 0));
        } else {
            lemma_byte_offset_mono(text, landing(segs, i - 1), landing(segs, i));
        }
    }
    assert forall|i: int| 0 < i < tokens.len() implies #[trigger] tokens[i].byte_start
        == tokens[i - 1].byte_end by {
        assert(reconciled(tokens[i], segs, text, i));
        assert(reconciled(tokens[i - 1], segs, text, i - 1));
    }
    assert forall|i: int, j: int| 0 <= i <= j < tokens.len() implies tokens[i].char_index
        <= tokens[j].char_index by {
        assert(reconciled(tokens[i], segs, text, i));
        assert(reconciled(tokens[j], segs, text, j));
    }
}

} // verus!
