//! The chunk sequence of a buffer, as a function of its bytes, and what
//! holds of it.

use crate::grammar::{accepted_len, starts_a_sequence, valid_end, well_formed_at};
use crate::grammar::{lemma_accepted_is_maximal_subpart, lemma_well_formed_is_valid_first_scalar};
use crate::grammar::{lemma_valid_end_bounds, lemma_valid_end_is_valid};
use crate::grammar::lemma_valid_suffix_runs_to_end;
use vstd::prelude::*;
use vstd::utf8::*;

verus! {

/// The bytes of one chunk: a run of well-formed text, then the consumed
/// bytes of the ill-formed sequence that ended the run.
pub struct ChunkBytes {
    pub valid: Seq<u8>,
    pub broken: Seq<u8>,
}

/// The length of the well-formed run at the start of `s`.
pub open spec fn valid_len(s: Seq<u8>) -> int {
    valid_end(s, 0)
}

/// The length of the ill-formed bytes that follow the well-formed run at the
/// start of `s`: none where the run reaches the end of `s`.
pub open spec fn broken_len(s: Seq<u8>) -> int {
    if valid_len(s) < s.len() {
        accepted_len(s, valid_len(s))
    } else {
        0
    }
}

/// The first chunk of a buffer.
pub open spec fn first_chunk(s: Seq<u8>) -> ChunkBytes {
    ChunkBytes {
        valid: s.subrange(0, valid_len(s)),
        broken: s.subrange(valid_len(s), valid_len(s) + broken_len(s)),
    }
}

/// What is left of a buffer behind its first chunk.
pub open spec fn after_first_chunk(s: Seq<u8>) -> Seq<u8> {
    s.subrange(valid_len(s) + broken_len(s), s.len() as int)
}

/// All the chunks of a buffer, in order. The empty buffer has none.
pub open spec fn chunks_of(s: Seq<u8>) -> Seq<ChunkBytes>
    decreases s.len(),
    via chunks_of_decreases
{
    if s.len() == 0 {
        Seq::empty()
    } else {
        seq![first_chunk(s)] + chunks_of(after_first_chunk(s))
    }
}

#[via_fn]
proof fn chunks_of_decreases(s: Seq<u8>) {
    lemma_first_chunk_bounds(s);
}

/// The bytes of a chunk sequence, put back together.
pub open spec fn rejoin(chunks: Seq<ChunkBytes>) -> Seq<u8>
    decreases chunks.len(),
{
    if chunks.len() == 0 {
        Seq::empty()
    } else {
        chunks[0].valid + chunks[0].broken + rejoin(chunks.drop_first())
    }
}

/// The first chunk lies inside the buffer and, where the buffer is not
/// empty, takes at least one byte. Its ill-formed part has at most three
/// bytes, and is empty only where the chunk reaches the end of the buffer.
pub proof fn lemma_first_chunk_bounds(s: Seq<u8>)
    ensures
        0 <= valid_len(s) <= valid_len(s) + broken_len(s) <= s.len(),
        0 <= broken_len(s) <= 3,
        s.len() > 0 ==> valid_len(s) + broken_len(s) > 0,
        broken_len(s) == 0 <==> valid_len(s) == s.len(),
        valid_len(s) < s.len() ==> !well_formed_at(s, valid_len(s)),
        after_first_chunk(s).len() == s.len() - valid_len(s) - broken_len(s),
{
    lemma_valid_end_bounds(s, 0);
}

/// The well-formed part of the first chunk is valid UTF-8.
pub proof fn lemma_first_chunk_valid(s: Seq<u8>)
    ensures
        valid_utf8(first_chunk(s).valid),
{
    assert(s.subrange(0, 0) =~= Seq::<u8>::empty());
    lemma_valid_end_is_valid(s, 0);
}

/// The well-formed part of every chunk is valid UTF-8.
pub proof fn lemma_chunks_valid(s: Seq<u8>, k: int)
    requires
        0 <= k < chunks_of(s).len(),
    ensures
        valid_utf8(chunks_of(s)[k].valid),
    decreases s.len(),
{
    lemma_first_chunk_bounds(s);
    if k == 0 {
        lemma_first_chunk_valid(s);
    } else {
        lemma_chunks_valid(after_first_chunk(s), k - 1);
    }
}

/// The well-formed bytes and the ill-formed bytes of all the chunks of a
/// buffer, joined in order, are the buffer.
pub proof fn lemma_chunks_rejoin(s: Seq<u8>)
    ensures
        rejoin(chunks_of(s)) == s,
    decreases s.len(),
{
    lemma_first_chunk_bounds(s);
    if s.len() > 0 {
        let rest = after_first_chunk(s);
        lemma_chunks_rejoin(rest);
        assert(chunks_of(s).drop_first() =~= chunks_of(rest));
        assert(first_chunk(s).valid + first_chunk(s).broken + rest =~= s);
    } else {
        assert(s =~= Seq::<u8>::empty());
    }
}

/// A buffer that is valid UTF-8 and not empty has one chunk: all of the
/// buffer as well-formed text, and no ill-formed bytes.
pub proof fn lemma_valid_buffer_is_one_chunk(s: Seq<u8>)
    requires
        valid_utf8(s),
        s.len() > 0,
    ensures
        chunks_of(s) == seq![ChunkBytes { valid: s, broken: Seq::empty() }],
{
    assert(s.subrange(0, s.len() as int) =~= s);
    lemma_valid_suffix_runs_to_end(s, 0);
    assert(first_chunk(s).valid =~= s);
    assert(first_chunk(s).broken =~= Seq::<u8>::empty());
    assert(after_first_chunk(s) =~= Seq::<u8>::empty());
    assert(chunks_of(after_first_chunk(s)) =~= Seq::<ChunkBytes>::empty());
    assert(chunks_of(s) =~= seq![first_chunk(s)]);
}

/// The ill-formed part of a chunk has at most three bytes, and every chunk
/// but the last has at least one.
pub proof fn lemma_broken_lengths(s: Seq<u8>, k: int)
    requires
        0 <= k < chunks_of(s).len(),
    ensures
        chunks_of(s)[k].broken.len() <= 3,
        k < chunks_of(s).len() - 1 ==> 1 <= chunks_of(s)[k].broken.len(),
    decreases s.len(),
{
    lemma_first_chunk_bounds(s);
    let rest = after_first_chunk(s);
    if k == 0 {
        if first_chunk(s).broken.len() == 0 {
            assert(rest.len() == 0);
            assert(chunks_of(rest).len() == 0);
        }
    } else {
        lemma_broken_lengths(rest, k - 1);
    }
}

/// No chunk is empty.
pub proof fn lemma_chunks_not_empty(s: Seq<u8>, k: int)
    requires
        0 <= k < chunks_of(s).len(),
    ensures
        chunks_of(s)[k].valid.len() + chunks_of(s)[k].broken.len() > 0,
    decreases s.len(),
{
    lemma_first_chunk_bounds(s);
    if k > 0 {
        lemma_chunks_not_empty(after_first_chunk(s), k - 1);
    }
}

/// The well-formed part of the first chunk is the longest beginning of the
/// buffer that is valid UTF-8.
pub proof fn lemma_valid_part_is_longest(s: Seq<u8>, j: int)
    requires
        valid_len(s) < j <= s.len(),
    ensures
        !valid_utf8(s.subrange(0, j)),
{
    let v = valid_len(s);
    lemma_first_chunk_bounds(s);
    lemma_first_chunk_valid(s);
    let p = s.subrange(0, j);
    let m = p.subrange(v, j);
    assert(p.subrange(0, v) =~= s.subrange(0, v));
    assert(m.len() > 0);
    assert(m[0] == s[v]);
    lemma_well_formed_is_valid_first_scalar(p, v);
    assert(well_formed_at(p, v) ==> well_formed_at(s, v));
    partial_valid_partial_invalid_utf8(p, v);
}

/// The ill-formed part of the first chunk is a maximal subpart: the longest
/// run of bytes behind the well-formed part that begins a well-formed
/// sequence, or one byte where no such run exists.
pub proof fn lemma_broken_part_is_maximal_subpart(s: Seq<u8>)
    requires
        valid_len(s) < s.len(),
    ensures
        first_chunk(s).broken.len() == 1 || starts_a_sequence(first_chunk(s).broken),
        valid_len(s) + broken_len(s) < s.len() ==> !starts_a_sequence(
            s.subrange(valid_len(s), valid_len(s) + broken_len(s) + 1),
        ),
{
    lemma_first_chunk_bounds(s);
    lemma_accepted_is_maximal_subpart(s, valid_len(s));
}

} // verus!
