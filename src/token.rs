//! Tokens and the classification metadata they carry.
use vstd::prelude::*;

verus! {

/// The category of a token.
#[derive(Clone, Copy, Debug, PartialEq, Eq, Structural)]
pub enum TokenKind {
    Word,
    Separator,
    Unknown,
}

/// The broad writing system of a token.
#[derive(Clone, Copy, Debug, PartialEq, Eq, Structural)]
pub enum Script {
    /// Chinese and Japanese ideographs.
    Cj,
    Latin,
    Cyrillic,
    Arabic,
    Other,
}

/// The language of a token, where a detector has told it.
#[derive(Clone, Copy, Debug, PartialEq, Eq, Structural)]
pub enum Language {
    Cmn,
    Jpn,
    Eng,
    Other,
}

/// Token text: a slice of the text it came from, or a buffer of its own once
/// a transformation had to write new content.
#[derive(Clone, Debug, PartialEq, Eq)]
pub enum Text<'o> {
    Borrowed(&'o str),
    Owned(String),
}

impl<'o> View for Text<'o> {
    type V = Seq<char>;

    open spec fn view(&self) -> Seq<char> {
        match self {
            Text::Borrowed(s) => s@,
            Text::Owned(s) => s@,
        }
    }
}

impl<'o> Text<'o> {
    pub fn as_str(&self) -> (r: &str)
        ensures
            r@ == self@,
    {
        match self {
            Text::Borrowed(s) => *s,
            Text::Owned(s) => s.as_str(),
        }
    }
}

/// A unit of segmented text with its position in the original text.
///
/// `[byte_start, byte_end)` is a byte span of the original text; `char_index`
/// is the character offset at which the token starts there.
#[derive(Clone, Debug, PartialEq, Eq)]
pub struct Token<'o> {
    pub kind: TokenKind,
    pub lemma: Text<'o>,
    pub char_index: usize,
    pub char_end: usize,
    pub byte_start: usize,
    pub byte_end: usize,
    pub script: Script,
    pub language: Option<Language>,
}

impl<'o> Token<'o> {
    /// The canonical text of the token.
    pub fn lemma(&self) -> (r: &str)
        ensures
            r@ == self.lemma@,
    {
        self.lemma.as_str()
    }
}

} // verus!
