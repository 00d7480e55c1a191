use vstd::prelude::*;
use vstd::string::StringSliceAdditionalSpecFns;

verus! {

/// A source of bytes that can be looked at one byte at a time.
pub trait ReaderTrait {
    /// The bytes that have not been stepped over yet.
    spec fn remaining(&self) -> Seq<u8>;

    /// The number of bytes stepped over so far.
    spec fn position(&self) -> nat;

    /// The bytes stepped over and those still ahead fit in a `usize` count.
    proof fn lemma_bounded(&self)
        ensures
            self.position() + self.remaining().len() <= usize::MAX,
    ;

    /// The next byte, without consuming it; `None` at the end.
    fn peek(&mut self) -> (r: Option<u8>)
        ensures
            final(self).remaining() == old(self).remaining(),
            final(self).position() == old(self).position(),
            r == (if old(self).remaining().len() > 0 {
                Some(old(self).remaining()[0])
            } else {
                None::<u8>
            }),
    ;

    /// Moves past the next byte.
    fn step(&mut self)
        requires
            old(self).position() < usize::MAX,
        ensures
            final(self).remaining() == (if old(self).remaining().len() > 0 {
                old(self).remaining().drop_first()
            } else {
                old(self).remaining()
            }),
            final(self).position() == old(self).position() + 1,
    ;

    /// The number of bytes stepped over so far.
    fn get_idx(&mut self) -> (r: usize)
        ensures
            final(self).remaining() == old(self).remaining(),
            final(self).position() == old(self).position(),
            r == old(self).position(),
    ;
}

/// Reads the bytes of a string.
pub struct StrReader<'a> {
    bytes: &'a [u8],
    idx: usize,
}

impl<'a> StrReader<'a> {
    /// The bytes of the whole text.
    pub closed spec fn text(&self) -> Seq<u8> {
        self.bytes@
    }

    pub fn new(text: &'a str) -> (r: Self)
        ensures
            r.text() == text.spec_bytes(),
            r.remaining() == text.spec_bytes(),
            r.position() == 0,
    {
        StrReader { bytes: text.as_bytes(), idx: 0 }
    }

    /// Wherever the reader stands, the bytes ahead are those of the text from its
    /// position on: `peek` gives the text's byte at the position, or `None` once the
    /// position has reached the end of the text.
    pub proof fn lemma_ahead_is_rest_of_text(&self)
        ensures
            self.remaining() == (if self.position() <= self.text().len() {
                self.text().skip(self.position() as int)
            } else {
                Seq::<u8>::empty()
            }),
            self.position() < self.text().len() ==> self.remaining().len() > 0 && self.remaining()[0]
                == self.text()[self.position() as int],
            self.position() >= self.text().len() ==> self.remaining().len() == 0,
    {
    }
}

impl<'a> ReaderTrait for StrReader<'a> {
    closed spec fn remaining(&self) -> Seq<u8> {
        if self.idx <= self.bytes@.len() {
            self.bytes@.skip(self.idx as int)
        } else {
            Seq::empty()
        }
    }

    closed spec fn position(&self) -> nat {
        self.idx as nat
    }

    proof fn lemma_bounded(&self) {
        broadcast use vstd::slice::axiom_spec_len;

        assert(self.bytes.len() == self.bytes@.len());
    }

    fn peek(&mut self) -> (r: Option<u8>)
        ensures
            final(self).text() == old(self).text(),
    {
        if self.idx >= self.bytes.len() {
            None
        } else {
            Some(self.bytes[self.idx])
        }
    }

    fn step(&mut self)
        ensures
            final(self).text() == old(self).text(),
    {
        self.idx = self.idx + 1;
    }

    fn get_idx(&mut self) -> (r: usize)
        ensures
            final(self).text() == old(self).text(),
    {
        self.idx
    }
}

} // verus!
