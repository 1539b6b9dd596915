//! A borrowed view of bytes that are meant to be UTF-8, and the scanner that
//! hands out its chunks one by one.

use crate::chunks::{after_first_chunk, first_chunk, lemma_first_chunk_bounds, ChunkBytes};
use crate::grammar::{accepted_len, scan_sequence, valid_end, well_formed_at};
use crate::grammar::{lemma_valid_end_bounds, lemma_well_formed_is_valid_first_scalar};
use vstd::prelude::*;
use vstd::slice::slice_subrange;
use vstd::string::*;
use vstd::utf8::*;

verus! {

/// Bytes that are meant to be text and may not be.
pub struct Utf8Lossy<'a> {
    pub(crate) bytes: &'a [u8],
}

/// A cursor over the bytes of a `Utf8Lossy` that have not been handed out.
pub struct Utf8LossyChunksIter<'a> {
    source: &'a [u8],
}

/// One step of a scan: well-formed text, then the bytes of one ill-formed
/// sequence, which are missing only where the buffer ends after the text.
#[derive(PartialEq, Eq, Debug)]
pub struct Utf8LossyChunk<'a> {
    /// Well-formed text; empty between two ill-formed sequences.
    pub valid: &'a str,
    /// The consumed bytes of one ill-formed sequence.
    pub broken: &'a [u8],
}

impl<'a> View for Utf8Lossy<'a> {
    type V = Seq<u8>;

    open(crate) spec fn view(&self) -> Seq<u8> {
        self.bytes@
    }
}

impl<'a> View for Utf8LossyChunksIter<'a> {
    type V = Seq<u8>;

    closed spec fn view(&self) -> Seq<u8> {
        self.source@
    }
}

impl<'a> View for Utf8LossyChunk<'a> {
    type V = ChunkBytes;

    open spec fn view(&self) -> ChunkBytes {
        ChunkBytes { valid: self.valid.spec_bytes(), broken: self.broken@ }
    }
}

/// `core::str::from_utf8`, with the error dropped: it yields the text exactly
/// where the bytes are valid UTF-8, and the text is made of those bytes.
#[verifier::external_body]
fn str_from_utf8<'a>(bytes: &'a [u8]) -> (r: Option<&'a str>)
    ensures
        r is Some <==> valid_utf8(bytes@),
        r matches Some(text) ==> text.spec_bytes() == bytes@,
{
    core::str::from_utf8(bytes).ok()
}

impl<'a> Utf8Lossy<'a> {
    /// Wraps a buffer as it is: any bytes will do, and none is copied.
    pub fn from_bytes(bytes: &'a [u8]) -> (r: Utf8Lossy<'a>)
        ensures
            r@ == bytes@,
    {
        Utf8Lossy { bytes }
    }

    /// Starts a scan at the first byte.
    pub fn chunks(&self) -> (r: Utf8LossyChunksIter<'a>)
        ensures
            r@ == self@,
    {
        Utf8LossyChunksIter { source: self.bytes }
    }
}

impl<'a> Utf8LossyChunksIter<'a> {
    /// Hands out the next chunk and moves past it. There is none once the
    /// bytes are used up.
    pub fn next(&mut self) -> (r: Option<Utf8LossyChunk<'a>>)
        ensures
            old(self)@.len() == 0 ==> r is None && final(self)@ == old(self)@,
            old(self)@.len() > 0 ==> r is Some && r->0@ == first_chunk(old(self)@) && final(self)@
                == after_first_chunk(old(self)@),
            final(self)@.len() + (if r is Some {
                r->0@.valid.len() + r->0@.broken.len()
            } else {
                0
            }) == old(self)@.len(),
            r is Some ==> r->0@.valid.len() + r->0@.broken.len() > 0,
            r is Some ==> r->0@.broken.len() <= 3,
            r is Some && r->0@.broken.len() == 0 ==> final(self)@.len() == 0,
            r is Some ==> r->0.valid@ == decode_utf8(r->0@.valid),
    {
        let source = self.source;
        let len = source.len();
        if len == 0 {
            return None;
        }
        let mut i: usize = 0;
        let mut valid_up_to: usize = 0;
        let mut stopped = false;
        proof {
            assert(source@.subrange(0, 0) =~= Seq::<u8>::empty());
        }
        while i < len && !stopped
            invariant
                len == source@.len(),
                valid_up_to <= i <= len,
                valid_end(source@, 0) == valid_end(source@, valid_up_to as int),
                partial_valid_utf8(source@, valid_up_to as int),
                !stopped ==> i == valid_up_to,
                stopped ==> valid_up_to < len && !well_formed_at(source@, valid_up_to as int) && i
                    == valid_up_to + accepted_len(source@, valid_up_to as int),
            decreases len - i + (if stopped { 0int } else { 1int }),
        {
            let (taken, complete) = scan_sequence(source, i);
            proof {
                lemma_well_formed_is_valid_first_scalar(source@, i as int);
                if complete {
                    partial_valid_utf8_extend(source@, i as int);
                }
            }
            i += taken;
            if complete {
                valid_up_to = i;
            } else {
                stopped = true;
            }
        }
        proof {
            lemma_valid_end_bounds(source@, 0);
            lemma_first_chunk_bounds(source@);
        }
        let valid_bytes = slice_subrange(source, 0, valid_up_to);
        let broken = slice_subrange(source, valid_up_to, i);
        self.source = slice_subrange(source, i, len);
        let valid = match str_from_utf8(valid_bytes) {
            Some(text) => text,
            None => unreached(),
        };
        proof {
            encode_utf8_decode_utf8(valid@);
        }
        Some(Utf8LossyChunk { valid, broken })
    }
}

} // verus!
