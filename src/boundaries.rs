//! A forward cursor over the character boundaries of a text.
use vstd::prelude::*;
use vstd::utf8::encode_utf8;
use crate::utf8::{byte_offset, lemma_byte_offset_end, lemma_byte_offset_mono, lemma_width_at, sequence_width};

verus! {

/// The byte offsets at which each character of a text starts, followed by one
/// entry for the end of the text, read once from front to back.
///
/// Entry `j` is `byte_offset(text, j)` for `0 <= j <= text.len()`.
pub struct Boundaries<'a> {
    bytes: &'a [u8],
    byte: usize,
    done: bool,
    text: Ghost<Seq<char>>,
    pos: Ghost<int>,
}

impl<'a> Boundaries<'a> {
    /// The text whose boundaries are read.
    pub closed spec fn text(&self) -> Seq<char> {
        self.text@
    }

    /// The number of entries read so far.
    pub closed spec fn position(&self) -> int {
        self.pos@
    }

    pub closed spec fn wf(&self) -> bool {
        &&& 0 <= self.pos@ <= self.text@.len() + 1
        &&& self.bytes@ == encode_utf8(self.text@)
        &&& self.done <==> self.pos@ == self.text@.len() + 1
        &&& !self.done ==> self.byte == byte_offset(self.text@, self.pos@)
    }

    /// A cursor before the first entry of `s`.
    pub fn new(s: &'a str) -> (r: Self)
        ensures
            r.wf(),
            r.text() == s@,
            r.position() == 0,
    {
        proof {
            assert(s@.take(0) =~= Seq::<char>::empty());
        }
        Boundaries { bytes: s.as_bytes(), byte: 0, done: false, text: Ghost(s@), pos: Ghost(0) }
    }

    /// The next entry, or `None` once all of them were read.
    pub fn next_entry(&mut self) -> (r: Option<usize>)
        requires
            old(self).wf(),
        ensures
            final(self).wf(),
            final(self).text() == old(self).text(),
            old(self).position() <= old(self).text().len() ==> {
                &&& r is Some && r->0 == byte_offset(old(self).text(), old(self).position())
                &&& final(self).position() == old(self).position() + 1
            },
            old(self).position() > old(self).text().len() ==> {
                &&& r is None
                &&& final(self).position() == old(self).position()
            },
    {
        if self.done {
            return None;
        }
        let b = self.byte;
        proof {
            lemma_byte_offset_end(self.text@, self.pos@);
            lemma_byte_offset_mono(self.text@, self.pos@, self.text@.len() as int);
        }
        if b == self.bytes.len() {
            self.done = true;
        } else {
            let w = sequence_width(self.bytes[b]);
            proof {
                let t = self.text@;
                let p = self.pos@;
                lemma_width_at(t, p);
                assert(self.bytes@.skip(b as int)[0] == self.bytes@[b as int]);
                lemma_byte_offset_mono(t, p + 1, t.len() as int);
            }
            self.byte = b + w;
        }
        self.pos = Ghost(self.pos@ + 1);
        Some(b)
    }

    /// Skips `k` entries and returns the one after them, as `Iterator::nth`
    /// does; `None` where fewer than `k + 1` entries are left.
    pub fn nth(&mut self, k: usize) -> (r: Option<usize>)
        requires
            old(self).wf(),
        ensures
            final(self).wf(),
            final(self).text() == old(self).text(),
            old(self).position() + k <= old(self).text().len() ==> {
                &&& r is Some && r->0 == byte_offset(old(self).text(), old(self).position() + k)
                &&& final(self).position() == old(self).position() + k + 1
            },
            old(self).position() + k > old(self).text().len() ==> r is None,
    {
        let mut i: usize = 0;
        while i < k
            invariant
                self.wf(),
                self.text() == old(self).text(),
                i <= k,
                self.position() == old(self).position() + i,
                old(self).position() + i <= old(self).text().len() + 1,
            decreases k - i,
        {
            match self.next_entry() {
                Some(_) => {},
                None => {
                    return None;
                },
            }
            i = i + 1;
        }
        self.next_entry()
    }
}

} // verus!
