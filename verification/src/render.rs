//! The two renderings of a buffer: the lossy text, and the quoted form for
//! diagnostics.

use crate::chunks::{after_first_chunk, chunks_of, first_chunk, ChunkBytes};
use crate::chunks::{lemma_first_chunk_bounds, lemma_valid_buffer_is_one_chunk};
use crate::lossy::Utf8Lossy;
use vstd::prelude::*;
use vstd::std_specs::iter::IteratorSpec;
use vstd::string::*;
use vstd::utf8::*;

verus! {

/// What the lossy text shows for one chunk: its text, then U+FFFD where the
/// chunk has ill-formed bytes, however many they are.
pub open spec fn lossy_chunk(chunk: ChunkBytes) -> Seq<char> {
    if chunk.broken.len() > 0 {
        decode_utf8(chunk.valid).push('\u{FFFD}')
    } else {
        decode_utf8(chunk.valid)
    }
}

/// The lossy text of a chunk sequence.
pub open spec fn lossy_chunks(chunks: Seq<ChunkBytes>) -> Seq<char>
    decreases chunks.len(),
{
    if chunks.len() == 0 {
        Seq::empty()
    } else {
        lossy_chunk(chunks[0]) + lossy_chunks(chunks.drop_first())
    }
}

/// The lossy text of a buffer.
pub open spec fn lossy_text(s: Seq<u8>) -> Seq<char> {
    lossy_chunks(chunks_of(s))
}

/// The characters that `char::escape_debug` yields for `c`, in order.
pub uninterp spec fn escape_debug_of(c: char) -> Seq<char>;

/// What the quoted form shows for the character `c` whose escaped form is
/// `escaped`: the escaped form where it is not one character long, else `c`.
pub open spec fn shown_char(c: char, escaped: Seq<char>) -> Seq<char> {
    if escaped.len() != 1 {
        escaped
    } else {
        seq![c]
    }
}

/// What the quoted form shows for a run of text.
pub open spec fn escape_text(text: Seq<char>) -> Seq<char>
    decreases text.len(),
{
    if text.len() == 0 {
        Seq::empty()
    } else {
        escape_text(text.drop_last()) + shown_char(text.last(), escape_debug_of(text.last()))
    }
}

/// The lower-case hexadecimal digit of a value below 16.
pub open spec fn hex_digit(n: u8) -> char {
    if n < 10 {
        (0x30 + n) as char
    } else {
        (0x61 + n - 10) as char
    }
}

/// The escape of one ill-formed byte: a backslash, `x` and two digits.
pub open spec fn hex_escape(b: u8) -> Seq<char> {
    seq!['\\', 'x', hex_digit(b / 16), hex_digit(b % 16)]
}

/// The escapes of a run of ill-formed bytes.
pub open spec fn hex_escapes(bytes: Seq<u8>) -> Seq<char>
    decreases bytes.len(),
{
    if bytes.len() == 0 {
        Seq::empty()
    } else {
        hex_escapes(bytes.drop_last()) + hex_escape(bytes.last())
    }
}

/// What the quoted form shows for one chunk.
pub open spec fn debug_chunk(chunk: ChunkBytes) -> Seq<char> {
    escape_text(decode_utf8(chunk.valid)) + hex_escapes(chunk.broken)
}

/// What the quoted form shows for a chunk sequence, between the quotes.
pub open spec fn debug_chunks(chunks: Seq<ChunkBytes>) -> Seq<char>
    decreases chunks.len(),
{
    if chunks.len() == 0 {
        Seq::empty()
    } else {
        debug_chunk(chunks[0]) + debug_chunks(chunks.drop_first())
    }
}

/// The quoted form of a buffer.
pub open spec fn debug_text(s: Seq<u8>) -> Seq<char> {
    seq!['"'] + debug_chunks(chunks_of(s)) + seq!['"']
}

/// `String::push`: the character is added at the end.
#[verifier::external_body]
fn push_char(text: &mut String, c: char)
    ensures
        final(text)@ == old(text)@.push(c),
{
    text.push(c);
}

/// `char::escape_debug`, its characters collected in order.
#[verifier::external_body]
fn escape_debug(c: char) -> (r: String)
    ensures
        r@ == escape_debug_of(c),
{
    c.escape_debug().collect()
}

/// The digit for a value below 16.
pub fn hex_digit_of(n: u8) -> (c: char)
    requires
        n < 16,
    ensures
        c == hex_digit(n),
{
    if n < 10 {
        (0x30u8 + n) as char
    } else {
        (0x61u8 + n - 10) as char
    }
}

/// Adds to `out` the escape of one ill-formed byte.
pub fn push_hex_escape(out: &mut String, b: u8)
    ensures
        final(out)@ == old(out)@ + hex_escape(b),
{
    let ghost before = out@;
    push_char(out, '\\');
    push_char(out, 'x');
    push_char(out, hex_digit_of(b / 16));
    push_char(out, hex_digit_of(b % 16));
    assert(out@ =~= before + hex_escape(b));
}

/// Adds to `out` what the quoted form shows for `c`, given the escaped form
/// of `c`.
pub fn push_shown_char(out: &mut String, c: char, escaped: &str)
    ensures
        final(out)@ == old(out)@ + shown_char(c, escaped@),
{
    let ghost before = out@;
    if escaped.unicode_len() != 1 {
        out.append(escaped);
    } else {
        push_char(out, c);
        assert(out@ =~= before + seq![c]);
    }
}

/// Adds to `out` what the quoted form shows for a run of text.
pub fn push_escaped_text(out: &mut String, text: &str)
    ensures
        final(out)@ == old(out)@ + escape_text(text@),
{
    broadcast use vstd::string::group_string_axioms;

    let ghost before = out@;
    let ghost mut done: Seq<char> = Seq::empty();
    let mut rest = text.chars();
    loop
        invariant
            done + rest.remaining() == text@,
            out@ == before + escape_text(done),
            rest.decrease() is Some,
            before == old(out)@,
        decreases rest.decrease()->0,
    {
        let ghost left = rest.remaining();
        match rest.next() {
            None => {
                assert(done =~= text@);
                return ;
            },
            Some(c) => {
                let escaped = escape_debug(c);
                push_shown_char(out, c, escaped.as_str());
                proof {
                    let longer = done.push(c);
                    assert(longer.drop_last() =~= done);
                    assert(longer + left.drop_first() =~= done + left);
                    assert(out@ =~= before + escape_text(longer));
                    done = longer;
                }
            },
        }
    }
}

/// Adds to `out` the escapes of a run of ill-formed bytes.
pub fn push_hex_escapes(out: &mut String, bytes: &[u8])
    ensures
        final(out)@ == old(out)@ + hex_escapes(bytes@),
{
    let ghost before = out@;
    let mut k: usize = 0;
    assert(bytes@.take(0) =~= Seq::<u8>::empty());
    while k < bytes.len()
        invariant
            k <= bytes@.len(),
            out@ == before + hex_escapes(bytes@.take(k as int)),
        decreases bytes@.len() - k,
    {
        push_hex_escape(out, bytes[k]);
        proof {
            let longer = bytes@.take(k + 1);
            assert(longer.drop_last() =~= bytes@.take(k as int));
            assert(out@ =~= before + hex_escapes(longer));
        }
        k += 1;
    }
    assert(bytes@.take(k as int) =~= bytes@);
}

/// The renderings of a buffer that is not empty start with the rendering of
/// its first chunk and go on with that of the bytes behind it.
pub proof fn lemma_render_unfold(s: Seq<u8>)
    requires
        s.len() > 0,
    ensures
        lossy_text(s) == lossy_chunk(first_chunk(s)) + lossy_text(after_first_chunk(s)),
        debug_chunks(chunks_of(s)) == debug_chunk(first_chunk(s)) + debug_chunks(
            chunks_of(after_first_chunk(s)),
        ),
{
    lemma_first_chunk_bounds(s);
    assert(chunks_of(s).drop_first() =~= chunks_of(after_first_chunk(s)));
}

/// The lossy text of valid UTF-8 is the text that the bytes encode.
pub proof fn lemma_lossy_of_valid(s: Seq<u8>)
    requires
        valid_utf8(s),
    ensures
        lossy_text(s) == decode_utf8(s),
{
    if s.len() > 0 {
        lemma_valid_buffer_is_one_chunk(s);
        let chunks = chunks_of(s);
        assert(lossy_chunks(chunks.drop_first()) =~= Seq::<char>::empty());
        assert(lossy_chunk(chunks[0]) == decode_utf8(s));
        assert(lossy_chunks(chunks) =~= decode_utf8(s));
    }
}

/// Rendering is idempotent: the lossy text of a buffer, encoded as UTF-8
/// and rendered again, is that text.
pub proof fn lemma_lossy_idempotent(s: Seq<u8>)
    ensures
        lossy_text(encode_utf8(lossy_text(s))) == lossy_text(s),
{
    let text = lossy_text(s);
    encode_utf8_valid_utf8(text);
    encode_utf8_decode_utf8(text);
    lemma_lossy_of_valid(encode_utf8(text));
}

impl<'a> Utf8Lossy<'a> {
    /// The text of the buffer, with U+FFFD in place of every ill-formed
    /// sequence. The text, encoded and rendered again, is itself.
    pub fn to_string(&self) -> (r: String)
        ensures
            r@ == lossy_text(self@),
            lossy_text(encode_utf8(r@)) == r@,
    {
        proof {
            lemma_lossy_idempotent(self@);
        }
        let total = self.bytes.len();
        let mut out = String::new();
        let mut iter = self.chunks();
        loop
            invariant
                total == self@.len(),
                iter@.len() <= total,
                iter@.len() == total ==> iter@ == self@ && out@.len() == 0,
                out@ + lossy_text(iter@) == lossy_text(self@),
                lossy_text(encode_utf8(lossy_text(self@))) == lossy_text(self@),
            decreases iter@.len(),
        {
            let ghost left = iter@;
            let ghost so_far = out@;
            match iter.next() {
                None => {
                    assert(lossy_text(left) =~= Seq::<char>::empty());
                    assert(out@ + lossy_text(left) =~= out@);
                    return out;
                },
                Some(chunk) => {
                    proof {
                        lemma_render_unfold(left);
                    }
                    if chunk.valid.len() == total {
                        proof {
                            lemma_first_chunk_bounds(left);
                            assert(lossy_text(iter@) =~= Seq::<char>::empty());
                            assert(so_far + lossy_text(left) =~= chunk.valid@);
                        }
                        return chunk.valid.to_owned();
                    }
                    out.append(chunk.valid);
                    if chunk.broken.len() > 0 {
                        push_char(&mut out, '\u{FFFD}');
                    }
                    proof {
                        assert(out@ =~= so_far + lossy_chunk(first_chunk(left)));
                        assert(out@ + lossy_text(iter@) =~= so_far + lossy_text(left));
                    }
                },
            }
        }
    }

    /// The buffer between double quotes: its text with the characters
    /// escaped that need it, and every ill-formed byte as `\x` and two
    /// lower-case hexadecimal digits.
    pub fn debug_string(&self) -> (r: String)
        ensures
            r@ == debug_text(self@),
    {
        let mut out = String::new();
        push_char(&mut out, '"');
        let mut iter = self.chunks();
        loop
            invariant
                out@ + debug_chunks(chunks_of(iter@)) == seq!['"'] + debug_chunks(chunks_of(self@)),
            decreases iter@.len(),
        {
            let ghost left = iter@;
            let ghost so_far = out@;
            match iter.next() {
                None => {
                    assert(out@ + debug_chunks(chunks_of(left)) =~= out@);
                    push_char(&mut out, '"');
                    assert(out@ =~= debug_text(self@));
                    return out;
                },
                Some(chunk) => {
                    proof {
                        lemma_render_unfold(left);
                    }
                    push_escaped_text(&mut out, chunk.valid);
                    push_hex_escapes(&mut out, chunk.broken);
                    proof {
                        assert(out@ =~= so_far + debug_chunk(first_chunk(left)));
                        assert(out@ + debug_chunks(chunks_of(iter@)) =~= so_far + debug_chunks(
                            chunks_of(left),
                        ));
                    }
                },
            }
        }
    }
}

} // verus!
