//! The UTF-8 grammar, byte by byte, and its agreement with `vstd::utf8`.

use vstd::prelude::*;
use vstd::utf8::*;

verus! {

/// The byte at offset `i`, or 0 where `i` lies outside the buffer.
pub open spec fn byte_at(s: Seq<u8>, i: int) -> u8 {
    if 0 <= i < s.len() {
        s[i]
    } else {
        0
    }
}

/// The number of bytes that a sequence led by `lead` must have, or 0 where
/// `lead` cannot start a sequence.
pub open spec fn char_width(lead: u8) -> int {
    if lead < 0x80 {
        1
    } else if 0xC2 <= lead <= 0xDF {
        2
    } else if 0xE0 <= lead <= 0xEF {
        3
    } else if 0xF0 <= lead <= 0xF4 {
        4
    } else {
        0
    }
}

/// Whether `second` may follow `lead` in a sequence of two bytes or more.
/// The ranges shut out overlong forms, the surrogates and everything above
/// U+10FFFF.
pub open spec fn second_byte_ok(lead: u8, second: u8) -> bool {
    ||| 0xC2 <= lead <= 0xDF && 0x80 <= second <= 0xBF
    ||| lead == 0xE0 && 0xA0 <= second <= 0xBF
    ||| 0xE1 <= lead <= 0xEC && 0x80 <= second <= 0xBF
    ||| lead == 0xED && 0x80 <= second <= 0x9F
    ||| 0xEE <= lead <= 0xEF && 0x80 <= second <= 0xBF
    ||| lead == 0xF0 && 0x90 <= second <= 0xBF
    ||| 0xF1 <= lead <= 0xF3 && 0x80 <= second <= 0xBF
    ||| lead == 0xF4 && 0x80 <= second <= 0x8F
}

/// Whether one complete well-formed sequence starts at offset `i`.
pub open spec fn well_formed_at(s: Seq<u8>, i: int) -> bool {
    let w = char_width(byte_at(s, i));
    &&& 0 <= i < s.len()
    &&& w >= 1
    &&& w >= 2 ==> second_byte_ok(s[i], byte_at(s, i + 1))
    &&& w >= 3 ==> is_continuation_byte(byte_at(s, i + 2))
    &&& w >= 4 ==> is_continuation_byte(byte_at(s, i + 3))
}

/// The number of bytes at offset `i` that the grammar takes before the
/// sequence is complete or a byte breaks it. The byte that breaks it is not
/// counted; a byte that cannot lead a sequence is taken alone.
pub open spec fn accepted_len(s: Seq<u8>, i: int) -> int {
    let w = char_width(byte_at(s, i));
    if w <= 1 || !second_byte_ok(byte_at(s, i), byte_at(s, i + 1)) {
        1
    } else if w == 2 || !is_continuation_byte(byte_at(s, i + 2)) {
        2
    } else if w == 3 || !is_continuation_byte(byte_at(s, i + 3)) {
        3
    } else {
        4
    }
}

/// The offset at which the run of well-formed sequences that starts at `i`
/// ends.
pub open spec fn valid_end(s: Seq<u8>, i: int) -> int
    decreases s.len() - i,
{
    if well_formed_at(s, i) {
        valid_end(s, i + char_width(s[i]))
    } else {
        i
    }
}

/// The width table for lead bytes.
pub fn utf8_char_width(lead: u8) -> (w: usize)
    ensures
        w == char_width(lead),
{
    if lead < 0x80 {
        1
    } else if 0xC2 <= lead && lead <= 0xDF {
        2
    } else if 0xE0 <= lead && lead <= 0xEF {
        3
    } else if 0xF0 <= lead && lead <= 0xF4 {
        4
    } else {
        0
    }
}

/// Reads the byte at offset `i`, and 0 past the end of the buffer.
pub fn safe_get(xs: &[u8], i: usize) -> (b: u8)
    ensures
        b == byte_at(xs@, i as int),
{
    if i < xs.len() {
        xs[i]
    } else {
        0
    }
}

/// Tests the two top bits of `b` for the mark of a continuation byte.
pub fn is_continuation(b: u8) -> (r: bool)
    ensures
        r == is_continuation_byte(b),
{
    assert((b & 192 == 128) <==> (0x80 <= b && b <= 0xBF)) by (bit_vector);
    b & 192 == 128
}

/// Tests the second byte of a sequence against the ranges that its lead
/// byte allows.
pub fn second_byte_in_range(lead: u8, second: u8) -> (r: bool)
    ensures
        r == second_byte_ok(lead, second),
{
    if lead < 0xC2 {
        false
    } else if lead <= 0xDF {
        is_continuation(second)
    } else if lead == 0xE0 {
        0xA0 <= second && second <= 0xBF
    } else if lead == 0xED {
        0x80 <= second && second <= 0x9F
    } else if lead <= 0xEF {
        is_continuation(second)
    } else if lead == 0xF0 {
        0x90 <= second && second <= 0xBF
    } else if lead <= 0xF3 {
        is_continuation(second)
    } else if lead == 0xF4 {
        0x80 <= second && second <= 0x8F
    } else {
        false
    }
}

/// Scans one sequence at offset `i`: how many bytes the grammar takes, and
/// whether they form a complete well-formed sequence.
pub fn scan_sequence(source: &[u8], i: usize) -> (r: (usize, bool))
    requires
        i < source@.len(),
    ensures
        r.0 == accepted_len(source@, i as int),
        r.1 == well_formed_at(source@, i as int),
        1 <= r.0 <= 4,
        i + r.0 <= source@.len(),
        r.1 ==> r.0 == char_width(source@[i as int]),
        !r.1 ==> r.0 <= 3,
{
    let byte = source[i];
    if byte < 128 {
        return (1, true);
    }
    let w = utf8_char_width(byte);
    if w < 2 || !second_byte_in_range(byte, safe_get(source, i + 1)) {
        return (1, false);
    }
    if w == 2 {
        return (2, true);
    }
    if !is_continuation(safe_get(source, i + 2)) {
        return (2, false);
    }
    if w == 3 {
        return (3, true);
    }
    if !is_continuation(safe_get(source, i + 3)) {
        return (3, false);
    }
    (4, true)
}

proof fn lemma_two_byte_codepoint(b0: u8, b1: u8)
    requires
        0xC0 <= b0 <= 0xDF,
        0x80 <= b1 <= 0xBF,
    ensures
        0x80 <= codepoint_width_2(b0, b1) <==> 0xC2 <= b0,
        codepoint_width_2(b0, b1) < 0x800,
{
    let c: u32 = (((b0 & 0x1F) as u32) << 6) | ((b1 & 0x3f) as u32);
    assert(c == codepoint_width_2(b0, b1));
    assert((0x80 <= c <==> 0xC2 <= b0) && c < 0x800) by (bit_vector)
        requires
            c == (((b0 & 0x1F) as u32) << 6) | ((b1 & 0x3f) as u32),
            0xC0 <= b0 <= 0xDF,
            0x80 <= b1 <= 0xBF,
    ;
}

proof fn lemma_three_byte_codepoint(b0: u8, b1: u8, b2: u8)
    requires
        0xE0 <= b0 <= 0xEF,
        0x80 <= b1 <= 0xBF,
        0x80 <= b2 <= 0xBF,
    ensures
        0x800 <= codepoint_width_3(b0, b1, b2) <==> !(b0 == 0xE0 && b1 < 0xA0),
        0xD800 <= codepoint_width_3(b0, b1, b2) <= 0xDFFF <==> b0 == 0xED && 0xA0 <= b1,
{
    let c: u32 = (((b0 & 0x0F) as u32) << 12) | (((b1 & 0x3f) as u32) << 6) | ((b2 & 0x3f) as u32);
    assert(c == codepoint_width_3(b0, b1, b2));
    assert((0x800 <= c <==> !(b0 == 0xE0 && b1 < 0xA0)) && (0xD800 <= c && c <= 0xDFFF <==> b0
        == 0xED && 0xA0 <= b1)) by (bit_vector)
        requires
            c == (((b0 & 0x0F) as u32) << 12) | (((b1 & 0x3f) as u32) << 6) | ((b2 & 0x3f) as u32),
            0xE0 <= b0 <= 0xEF,
            0x80 <= b1 <= 0xBF,
            0x80 <= b2 <= 0xBF,
    ;
}

proof fn lemma_four_byte_codepoint(b0: u8, b1: u8, b2: u8, b3: u8)
    requires
        0xF0 <= b0 <= 0xF7,
        0x80 <= b1 <= 0xBF,
        0x80 <= b2 <= 0xBF,
        0x80 <= b3 <= 0xBF,
    ensures
        0x10000 <= codepoint_width_4(b0, b1, b2, b3) <= 0x10FFFF <==> (b0 == 0xF0 && 0x90 <= b1)
            || (0xF1 <= b0 <= 0xF3) || (b0 == 0xF4 && b1 <= 0x8F),
{
    let c: u32 = (((b0 & 0x07) as u32) << 18) | (((b1 & 0x3f) as u32) << 12) | (((b2
        & 0x3f) as u32) << 6) | ((b3 & 0x3f) as u32);
    assert(c == codepoint_width_4(b0, b1, b2, b3));
    assert(0x10000 <= c && c <= 0x10FFFF <==> (b0 == 0xF0 && 0x90 <= b1) || (0xF1 <= b0 && b0
        <= 0xF3) || (b0 == 0xF4 && b1 <= 0x8F)) by (bit_vector)
        requires
            c == (((b0 & 0x07) as u32) << 18) | (((b1 & 0x3f) as u32) << 12) | (((b2
                & 0x3f) as u32) << 6) | ((b3 & 0x3f) as u32),
            0xF0 <= b0 <= 0xF7,
            0x80 <= b1 <= 0xBF,
            0x80 <= b2 <= 0xBF,
            0x80 <= b3 <= 0xBF,
    ;
}

/// The grammar of this module accepts a sequence at offset `i` exactly where
/// `vstd::utf8` finds a valid first scalar in the bytes from `i` on, and
/// both give it the same length.
pub proof fn lemma_well_formed_is_valid_first_scalar(s: Seq<u8>, i: int)
    requires
        0 <= i < s.len(),
    ensures
        well_formed_at(s, i) <==> valid_first_scalar(s.subrange(i, s.len() as int)),
        well_formed_at(s, i) ==> length_of_first_scalar(s.subrange(i, s.len() as int))
            == char_width(s[i]),
        well_formed_at(s, i) ==> i + char_width(s[i]) <= s.len(),
{
    let t = s.subrange(i, s.len() as int);
    let b0 = s[i];
    assert(t[0] == b0);
    assert(t.len() > 1 ==> t[1] == s[i + 1]);
    assert(t.len() > 2 ==> t[2] == s[i + 2]);
    assert(t.len() > 3 ==> t[3] == s[i + 3]);
    if b0 <= 0x7F {
        assert(b0 & 0x7F == b0) by (bit_vector)
            requires
                b0 <= 0x7F,
        ;
    } else if 0xC0 <= b0 <= 0xDF {
        if t.len() >= 2 && is_continuation_byte(t[1]) {
            lemma_two_byte_codepoint(b0, t[1]);
        }
    } else if 0xE0 <= b0 <= 0xEF {
        if t.len() >= 3 && is_continuation_byte(t[1]) && is_continuation_byte(t[2]) {
            lemma_three_byte_codepoint(b0, t[1], t[2]);
        }
    } else if 0xF0 <= b0 <= 0xF7 {
        if t.len() >= 4 && is_continuation_byte(t[1]) && is_continuation_byte(t[2])
            && is_continuation_byte(t[3]) {
            lemma_four_byte_codepoint(b0, t[1], t[2], t[3]);
        }
    }
}

/// The run of well-formed sequences from `i` ends inside the buffer, at or
/// after `i`.
pub proof fn lemma_valid_end_bounds(s: Seq<u8>, i: int)
    requires
        0 <= i <= s.len(),
    ensures
        i <= valid_end(s, i) <= s.len(),
        valid_end(s, i) < s.len() ==> !well_formed_at(s, valid_end(s, i)),
        valid_end(s, valid_end(s, i)) == valid_end(s, i),
    decreases s.len() - i,
{
    if well_formed_at(s, i) {
        lemma_well_formed_is_valid_first_scalar(s, i);
        lemma_valid_end_bounds(s, i + char_width(s[i]));
    }
}

/// The bytes between a valid prefix of length `i` and the end of the run
/// that starts at `i` keep the prefix valid.
pub proof fn lemma_valid_end_is_valid(s: Seq<u8>, i: int)
    requires
        partial_valid_utf8(s, i),
    ensures
        partial_valid_utf8(s, valid_end(s, i)),
    decreases s.len() - i,
{
    if well_formed_at(s, i) {
        lemma_well_formed_is_valid_first_scalar(s, i);
        partial_valid_utf8_extend(s, i);
        lemma_valid_end_is_valid(s, i + char_width(s[i]));
    }
}

/// Where the bytes from `i` on are valid UTF-8, the run of well-formed
/// sequences from `i` reaches the end of the buffer.
pub proof fn lemma_valid_suffix_runs_to_end(s: Seq<u8>, i: int)
    requires
        0 <= i <= s.len(),
        valid_utf8(s.subrange(i, s.len() as int)),
    ensures
        valid_end(s, i) == s.len(),
    decreases s.len() - i,
{
    if i < s.len() {
        let t = s.subrange(i, s.len() as int);
        lemma_well_formed_is_valid_first_scalar(s, i);
        assert(pop_first_scalar(t) =~= s.subrange(i + char_width(s[i]), s.len() as int));
        lemma_valid_suffix_runs_to_end(s, i + char_width(s[i]));
    }
}

/// Whether `p` is the beginning of some well-formed sequence, and not yet
/// all of it.
pub open spec fn starts_a_sequence(p: Seq<u8>) -> bool {
    exists|t: Seq<u8>| #[trigger] well_formed_at(p + t, 0) && p.len() < char_width((p + t)[0])
}

/// At an offset where no well-formed sequence starts, the bytes that the
/// grammar takes are the longest that begin a well-formed sequence, or one
/// byte where not even the first byte begins one.
pub proof fn lemma_accepted_is_maximal_subpart(s: Seq<u8>, i: int)
    requires
        0 <= i < s.len(),
        !well_formed_at(s, i),
    ensures
        1 <= accepted_len(s, i) <= 3,
        i + accepted_len(s, i) <= s.len(),
        accepted_len(s, i) == 1 || starts_a_sequence(s.subrange(i, i + accepted_len(s, i))),
        i + accepted_len(s, i) < s.len() ==> !starts_a_sequence(
            s.subrange(i, i + accepted_len(s, i) + 1),
        ),
{
    let n = accepted_len(s, i);
    let p = s.subrange(i, i + n);
    if n == 2 {
        let t = if char_width(s[i]) == 3 {
            seq![0x80u8]
        } else {
            seq![0x80u8, 0x80u8]
        };
        assert((p + t)[0] == s[i] && (p + t)[1] == s[i + 1] && (p + t)[2] == 0x80);
        assert(char_width(s[i]) == 4 ==> (p + t)[3] == 0x80);
        assert(well_formed_at(p + t, 0));
    } else if n == 3 {
        let t = seq![0x80u8];
        assert((p + t)[0] == s[i] && (p + t)[1] == s[i + 1] && (p + t)[2] == s[i + 2] && (p
            + t)[3] == 0x80);
        assert(well_formed_at(p + t, 0));
    }
    if i + n < s.len() {
        let q = s.subrange(i, i + n + 1);
        assert forall|t: Seq<u8>| !(#[trigger] well_formed_at(q + t, 0) && q.len() < char_width(
            (q + t)[0],
        )) by {
            assert((q + t)[0] == s[i]);
            assert((q + t)[1] == s[i + 1]);
            assert(n >= 2 ==> (q + t)[2] == s[i + 2]);
            assert(n >= 3 ==> (q + t)[3] == s[i + 3]);
        }
    }
}

} // verus!
