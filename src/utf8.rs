//! Byte offsets of characters in UTF-8 text.
use vstd::prelude::*;
use vstd::utf8::{
    char_is_scalar, encode_scalar, encode_utf8, encode_utf8_first_scalar, is_char_boundary,
    length_of_first_codepoint, pop_first_scalar,
};

verus! {

/// The byte offset at which character `j` of `s` starts in its UTF-8 encoding
/// (for `j == s.len()`, the length of the whole encoding).
pub open spec fn byte_offset(s: Seq<char>, j: int) -> int {
    encode_utf8(s.take(j)).len() as int
}

/// Whether byte position `b` is the start of a character of `s`, or its end.
pub open spec fn on_char_boundary(s: Seq<char>, b: int) -> bool {
    exists|j: int| 0 <= j <= s.len() && #[trigger] byte_offset(s, j) == b
}

/// Encoding a concatenation encodes each part in turn.
pub proof fn lemma_encode_concat(a: Seq<char>, b: Seq<char>)
    ensures
        encode_utf8(a + b) == encode_utf8(a) + encode_utf8(b),
    decreases a.len(),
{
    if a.len() == 0 {
        assert(a + b =~= b);
        assert(encode_utf8(a) =~= Seq::<u8>::empty());
        assert(encode_utf8(a) + encode_utf8(b) =~= encode_utf8(b));
    } else {
        assert((a + b).drop_first() =~= a.drop_first() + b);
        lemma_encode_concat(a.drop_first(), b);
        assert(encode_utf8(a + b) =~= encode_utf8(a) + encode_utf8(b));
    }
}

/// Stepping over one character advances the offset by that character's width.
pub proof fn lemma_byte_offset_step(s: Seq<char>, j: int)
    requires
        0 <= j < s.len(),
    ensures
        byte_offset(s, j + 1) == byte_offset(s, j) + encode_scalar(s[j] as u32).len(),
{
    assert(s.take(j + 1) =~= s.take(j) + seq![s[j]]);
    lemma_encode_concat(s.take(j), seq![s[j]]);
    assert(seq![s[j]].drop_first() =~= Seq::<char>::empty());
    assert(encode_utf8(seq![s[j]]) =~= encode_scalar(s[j] as u32) + encode_utf8(Seq::<char>::empty()));
}

/// Offsets grow with the character index, up to the length of the encoding.
pub proof fn lemma_byte_offset_mono(s: Seq<char>, i: int, j: int)
    requires
        0 <= i <= j <= s.len(),
    ensures
        0 <= byte_offset(s, i) <= byte_offset(s, j) <= encode_utf8(s).len(),
{
    assert(s.take(j) =~= s.take(i) + s.subrange(i, j));
    lemma_encode_concat(s.take(i), s.subrange(i, j));
    assert(s =~= s.take(j) + s.skip(j));
    lemma_encode_concat(s.take(j), s.skip(j));
}

/// Every character offset is a character boundary of the encoding, in vstd's sense.
pub proof fn lemma_byte_offset_is_char_boundary(s: Seq<char>, j: int)
    requires
        0 <= j <= s.len(),
    ensures
        is_char_boundary(encode_utf8(s), byte_offset(s, j)),
    decreases j,
{
    vstd::utf8::encode_utf8_valid_utf8(s);
    if j == 0 {
        assert(s.take(0) =~= Seq::<char>::empty());
    } else {
        let bytes = encode_utf8(s);
        encode_utf8_first_scalar(s);
        assert(pop_first_scalar(bytes) =~= encode_utf8(s.drop_first()));
        lemma_byte_offset_is_char_boundary(s.drop_first(), j - 1);
        assert(s.take(j) =~= seq![s[0]] + s.drop_first().take(j - 1));
        lemma_encode_concat(seq![s[0]], s.drop_first().take(j - 1));
        assert(seq![s[0]].drop_first() =~= Seq::<char>::empty());
        assert(encode_utf8(seq![s[0]]) =~= encode_scalar(s[0] as u32) + encode_utf8(Seq::<char>::empty()));
        char_is_scalar(s[0]);
    }
}

/// The width of the UTF-8 sequence that starts with byte `b`.
pub fn sequence_width(b: u8) -> (w: usize)
    ensures
        forall|bytes: Seq<u8>|
            bytes.len() > 0 && bytes[0] == b ==> w == #[trigger] length_of_first_codepoint(bytes),
{
    if b <= 0x7F {
        1
    } else if 0xC0 <= b && b <= 0xDF {
        2
    } else if 0xE0 <= b && b <= 0xEF {
        3
    } else {
        4
    }
}

/// The bytes from character `j` on encode the characters from `j` on.
pub proof fn lemma_encode_skip(s: Seq<char>, j: int)
    requires
        0 <= j <= s.len(),
    ensures
        encode_utf8(s).skip(byte_offset(s, j)) == encode_utf8(s.skip(j)),
{
    assert(s =~= s.take(j) + s.skip(j));
    lemma_encode_concat(s.take(j), s.skip(j));
    assert(encode_utf8(s).skip(byte_offset(s, j)) =~= encode_utf8(s.skip(j)));
}

/// Reading the leading byte at character `j` gives that character's width.
pub proof fn lemma_width_at(s: Seq<char>, j: int)
    requires
        0 <= j < s.len(),
    ensures
        byte_offset(s, j) < encode_utf8(s).len(),
        length_of_first_codepoint(encode_utf8(s).skip(byte_offset(s, j)))
            == byte_offset(s, j + 1) - byte_offset(s, j),
{
    lemma_encode_skip(s, j);
    encode_utf8_first_scalar(s.skip(j));
    assert(s.skip(j)[0] == s[j]);
    lemma_byte_offset_step(s, j);
    lemma_byte_offset_mono(s, j + 1, s.len() as int);
    char_is_scalar(s[j]);
}

/// The offset past the last character is the length of the encoding, and no
/// earlier offset reaches it.
pub proof fn lemma_byte_offset_end(s: Seq<char>, j: int)
    requires
        0 <= j <= s.len(),
    ensures
        byte_offset(s, j) == encode_utf8(s).len() <==> j == s.len(),
{
    assert(s.take(s.len() as int) =~= s);
    if j < s.len() {
        lemma_width_at(s, j);
    }
}

} // verus!
