//! A cursor over the bytes of a text.

use vstd::prelude::*;
use vstd::string::{StrSliceExecFns, StringSliceAdditionalSpecFns};
use crate::bytes::SPACE;

verus! {

/// The bytes of a text, the offset up to which they have been read, and the
/// bytes that a reader skips between tokens.
#[derive(Debug)]
pub struct Scanr {
    text: Vec<u8>,
    cursor: usize,
    skip_text: Vec<u8>,
}

impl Scanr {
    #[verifier::type_invariant]
    spec fn within(self) -> bool {
        self.cursor <= self.text.len()
    }

    /// The bytes of the text.
    pub closed spec fn text(self) -> Seq<u8> {
        self.text@
    }

    /// The offset up to which the text has been read.
    pub closed spec fn cursor(self) -> int {
        self.cursor as int
    }

    /// The bytes that are skipped between tokens.
    pub closed spec fn skip_text(self) -> Seq<u8> {
        self.skip_text@
    }

    /// A cursor at the start of `text`, which skips spaces.
    pub fn new(text: &str) -> (s: Scanr)
        ensures
            s.text() == text.spec_bytes(),
            s.cursor() == 0,
            s.skip_text() == seq![SPACE],
    {
        let mut skip_text: Vec<u8> = Vec::new();
        skip_text.push(SPACE);
        assert(skip_text@ =~= seq![SPACE]);
        Scanr { text: text.as_bytes_vec(), cursor: 0, skip_text }
    }

    /// The complaint about the text at the cursor: the words
    /// `Unexpected text: ...` and the bytes that have not been read.
    pub fn unexpected_text(&self) -> (msg: Vec<u8>)
        ensures
            msg@ == "Unexpected text: ...".spec_bytes() + self.text().skip(self.cursor()),
    {
        proof {
            use_type_invariant(self);
        }
        let mut msg: Vec<u8> = "Unexpected text: ...".as_bytes_vec();
        let ghost head: Seq<u8> = msg@;
        let mut i: usize = self.cursor;
        while i < self.text.len()
            invariant
                self.cursor <= i <= self.text.len(),
                msg@ == head + self.text@.subrange(self.cursor as int, i as int),
            decreases self.text.len() - i,
        {
            msg.push(self.text[i]);
            i = i + 1;
            assert(self.text@.subrange(self.cursor as int, i as int) =~= self.text@.subrange(
                self.cursor as int,
                i - 1,
            ).push(self.text@[i - 1]));
        }
        assert(self.text@.subrange(self.cursor as int, self.cursor as int) =~= Seq::<u8>::empty());
        assert(self.text@.subrange(self.cursor as int, i as int) =~= self.text@.skip(
            self.cursor as int,
        ));
        msg
    }
}

} // verus!
