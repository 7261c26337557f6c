//! UTF-8 text as bytes and byte positions.
//!
//! The engine walks a text by byte position. This module relates a position
//! in the bytes to the characters that start there, and decodes one
//! character at a time.

use vstd::prelude::*;
use vstd::utf8::*;

verus! {

/// The bytes of `b` from position `i` to the end.
pub open spec fn suffix(b: Seq<u8>, i: int) -> Seq<u8> {
    b.subrange(i, b.len() as int)
}

/// Position `i` is the start of a character of `b`, or its end.
pub open spec fn at_boundary(b: Seq<u8>, i: int) -> bool {
    0 <= i <= b.len() && valid_utf8(suffix(b, i))
}

/// The characters of `b` that start at position `i` or later.
pub open spec fn chars_from(b: Seq<u8>, i: int) -> Seq<char> {
    decode_utf8(suffix(b, i))
}

/// The characters encoded by the bytes `b[i..j]`.
pub open spec fn chars_between(b: Seq<u8>, i: int, j: int) -> Seq<char> {
    decode_utf8(b.subrange(i, j))
}

/// Width in bytes of the character that starts at position `i`, read off its
/// first byte.
pub open spec fn width_at(b: Seq<u8>, i: int) -> int {
    length_of_first_scalar(suffix(b, i))
}

/// Number of bytes in the UTF-8 encoding of `c`.
pub open spec fn char_width(c: char) -> nat {
    encode_scalar(c as u32).len()
}

/// Number of bytes in the UTF-8 encoding of `s`.
pub open spec fn utf8_len(s: Seq<char>) -> nat {
    encode_utf8(s).len()
}

/// Byte offset of the character with index `k` within the encoding of `s`.
pub open spec fn byte_offset(s: Seq<char>, k: int) -> nat {
    utf8_len(s.take(k))
}

/// A character takes one to four bytes, by the size of its code point.
pub proof fn lemma_char_width_bounds(c: char)
    ensures
        1 <= char_width(c) <= 4,
        char_width(c) == 1 <==> (c as u32) < 0x80,
        char_width(c) == 2 <==> 0x80 <= (c as u32) < 0x800,
        char_width(c) == 3 <==> 0x800 <= (c as u32) < 0x10000,
        char_width(c) == 4 <==> 0x10000 <= (c as u32),
{
    char_is_scalar(c);
}

/// The encoding of two texts in a row is the encoding of the one and then
/// that of the other.
pub proof fn lemma_encode_concat(a: Seq<char>, b: Seq<char>)
    ensures
        encode_utf8(a + b) == encode_utf8(a) + encode_utf8(b),
    decreases a.len(),
{
    if a.len() == 0 {
        assert(a + b =~= b);
        assert(encode_utf8(a) + encode_utf8(b) =~= encode_utf8(b));
    } else {
        lemma_encode_concat(a.drop_first(), b);
        assert((a + b).drop_first() =~= a.drop_first() + b);
        assert((a + b)[0] == a[0]);
        assert(encode_utf8(a + b) =~= encode_utf8(a) + encode_utf8(b));
    }
}

/// The byte lengths of two texts add up.
pub proof fn lemma_utf8_len_concat(a: Seq<char>, b: Seq<char>)
    ensures
        utf8_len(a + b) == utf8_len(a) + utf8_len(b),
{
    lemma_encode_concat(a, b);
}

/// A text of one character is as long as the character is wide.
pub proof fn lemma_utf8_len_single(c: char)
    ensures
        utf8_len(seq![c]) == char_width(c),
{
    let s = seq![c];
    assert(s.drop_first() =~= Seq::<char>::empty());
    assert(encode_utf8(s.drop_first()) =~= Seq::<u8>::empty()) by {
        reveal_with_fuel(encode_utf8, 1);
    }
    assert(encode_utf8(s) =~= encode_scalar(c as u32));
}

/// Moving one character forward moves the byte offset by that character's width.
pub proof fn lemma_byte_offset_step(s: Seq<char>, k: int)
    requires
        0 <= k < s.len(),
    ensures
        byte_offset(s, k + 1) == byte_offset(s, k) + char_width(s[k]),
        byte_offset(s, 0) == 0,
{
    assert(s.take(k + 1) =~= s.take(k) + seq![s[k]]);
    lemma_utf8_len_concat(s.take(k), seq![s[k]]);
    lemma_utf8_len_single(s[k]);
    assert(s.take(0) =~= Seq::<char>::empty());
}

/// The first character stands at offset 0.
pub proof fn lemma_byte_offset_zero(s: Seq<char>)
    ensures
        byte_offset(s, 0) == 0,
{
    assert(s.take(0) =~= Seq::<char>::empty());
}

/// Later characters stand at larger offsets, and none behind the end.
pub proof fn lemma_byte_offset_monotonic(s: Seq<char>, j: int, k: int)
    requires
        0 <= j <= k <= s.len(),
    ensures
        byte_offset(s, j) <= byte_offset(s, k),
        j < k ==> byte_offset(s, j) < byte_offset(s, k),
        byte_offset(s, k) <= utf8_len(s),
    decreases k - j,
{
    assert(s.take(k) + s.skip(k) =~= s);
    lemma_utf8_len_concat(s.take(k), s.skip(k));
    if j < k {
        lemma_byte_offset_monotonic(s, j, k - 1);
        lemma_byte_offset_step(s, k - 1);
        lemma_char_width_bounds(s[k - 1]);
    }
}

/// The start of a text is a boundary, and the characters from there are the text.
pub proof fn lemma_chars_from_start(s: Seq<char>)
    ensures
        at_boundary(encode_utf8(s), 0),
        chars_from(encode_utf8(s), 0) == s,
        valid_utf8(encode_utf8(s)),
{
    let b = encode_utf8(s);
    assert(suffix(b, 0) =~= b);
    encode_utf8_valid_utf8(s);
    encode_utf8_decode_utf8(s);
}

/// At the end of the bytes no characters are left; before the end, at least one is.
pub proof fn lemma_chars_from_len(b: Seq<u8>, i: int)
    requires
        at_boundary(b, i),
    ensures
        i == b.len() <==> chars_from(b, i).len() == 0,
        utf8_len(chars_from(b, i)) == b.len() - i,
        encode_utf8(chars_from(b, i)) == suffix(b, i),
{
    decode_utf8_encode_utf8(suffix(b, i));
    if i < b.len() {
        assert(suffix(b, i).len() > 0);
    } else {
        assert(suffix(b, i).len() == 0);
    }
}

/// Two bytes encode a code point below 0x800.
pub proof fn lemma_scalar_width_2(b1: u8, b2: u8)
    by (bit_vector)
    requires
        0xc0 <= b1 <= 0xdf,
        0x80 <= b2 <= 0xbf,
    ensures
        ((((b1 & 0x1F) as u32) << 6) | ((b2 & 0x3f) as u32)) <= 0x7FF,
{
}

/// Three bytes encode a code point below 0x10000.
pub proof fn lemma_scalar_width_3(b1: u8, b2: u8, b3: u8)
    by (bit_vector)
    requires
        0xe0 <= b1 <= 0xef,
        0x80 <= b2 <= 0xbf,
        0x80 <= b3 <= 0xbf,
    ensures
        ((((b1 & 0x0F) as u32) << 12) | (((b2 & 0x3f) as u32) << 6) | ((b3 & 0x3f) as u32))
            <= 0xFFFF,
{
}

/// What one decoding step at a boundary before the end yields.
pub proof fn lemma_decode_step(b: Seq<u8>, i: int)
    requires
        at_boundary(b, i),
        i < b.len(),
    ensures
        chars_from(b, i).len() > 0,
        valid_first_scalar(suffix(b, i)),
        chars_from(b, i)[0] as u32 == decode_first_scalar(suffix(b, i)),
        char_width(chars_from(b, i)[0]) == width_at(b, i),
        1 <= width_at(b, i) <= 4,
        i + char_width(chars_from(b, i)[0]) <= b.len(),
        at_boundary(b, i + char_width(chars_from(b, i)[0])),
        chars_from(b, i + char_width(chars_from(b, i)[0])) == chars_from(b, i).drop_first(),
{
    let s = suffix(b, i);
    let len = length_of_first_scalar(s);
    let cp = decode_first_scalar(s);
    assert(s.len() > 0);
    assert(valid_first_scalar(s));
    assert(valid_utf8(pop_first_scalar(s)));
    assert(pop_first_scalar(s) =~= suffix(b, i + len));
    assert(decode_utf8(s) == seq![cp as char] + decode_utf8(pop_first_scalar(s)));
    assert(chars_from(b, i)[0] == cp as char);
    assert(chars_from(b, i).drop_first() =~= decode_utf8(pop_first_scalar(s)));
    decode_utf8_first_scalar(s);
    assert(take_first_scalar(s).len() == len);
    // the decoded value is a scalar, so the cast to `char` keeps it
    if is_leading_byte_width_1(s[0]) {
        let x = s[0];
        assert((x & 0x7F) as u32 <= 0x7F) by (bit_vector);
    } else if is_leading_byte_width_2(s[0]) {
        lemma_scalar_width_2(s[0], s[1]);
    } else if is_leading_byte_width_3(s[0]) {
        lemma_scalar_width_3(s[0], s[1], s[2]);
    } else {
    }
    assert(cp <= 0x10FFFF);
    assert(!(0xD800 <= cp <= 0xDFFF));
    assert((cp as char) as u32 == cp);
}

/// Decodes the character that starts at byte `i`: its code point and its width in bytes.
pub fn decode_at(b: &[u8], i: usize) -> (r: (u32, usize))
    requires
        at_boundary(b@, i as int),
        i < b.len(),
    ensures
        chars_from(b@, i as int).len() > 0,
        r.0 == chars_from(b@, i as int)[0] as u32,
        r.1 == char_width(chars_from(b@, i as int)[0]),
        r.1 == width_at(b@, i as int),
        1 <= r.1 <= 4,
        i + r.1 <= b.len(),
        at_boundary(b@, i + r.1),
        chars_from(b@, i + r.1) == chars_from(b@, i as int).drop_first(),
{
    proof {
        lemma_decode_step(b@, i as int);
        lemma_char_width_bounds(chars_from(b@, i as int)[0]);
    }
    let ghost s = suffix(b@, i as int);
    let b0 = b[i];
    assert(b0 == s[0]);
    if b0 < 0x80 {
        ((b0 & 0x7F) as u32, 1)
    } else if b0 < 0xe0 {
        assert(s.len() >= 2);
        let b1 = b[i + 1];
        assert(b1 == s[1]);
        ((((b0 & 0x1F) as u32) << 6) | ((b1 & 0x3f) as u32), 2)
    } else if b0 < 0xf0 {
        assert(s.len() >= 3);
        let b1 = b[i + 1];
        let b2 = b[i + 2];
        assert(b1 == s[1] && b2 == s[2]);
        ((((b0 & 0x0F) as u32) << 12) | (((b1 & 0x3f) as u32) << 6) | ((b2 & 0x3f) as u32), 3)
    } else {
        assert(s.len() >= 4);
        let b1 = b[i + 1];
        let b2 = b[i + 2];
        let b3 = b[i + 3];
        assert(b1 == s[1] && b2 == s[2] && b3 == s[3]);
        (
            (((b0 & 0x07) as u32) << 18) | (((b1 & 0x3f) as u32) << 12) | (((b2 & 0x3f) as u32)
                << 6) | ((b3 & 0x3f) as u32),
            4,
        )
    }
}

/// The bytes between two boundaries hold a whole number of characters: those
/// that start at the first boundary, up to the second.
pub proof fn lemma_chars_between(b: Seq<u8>, i: int, j: int)
    requires
        at_boundary(b, i),
        at_boundary(b, j),
        i <= j,
    ensures
        valid_utf8(b.subrange(i, j)),
        chars_from(b, i) == chars_between(b, i, j) + chars_from(b, j),
        utf8_len(chars_between(b, i, j)) == j - i,
        encode_utf8(chars_between(b, i, j)) == b.subrange(i, j),
        chars_between(b, i, j) == chars_from(b, i).take(chars_between(b, i, j).len() as int),
        chars_from(b, j) == chars_from(b, i).skip(chars_between(b, i, j).len() as int),
        byte_offset(chars_from(b, i), chars_between(b, i, j).len() as int) == j - i,
{
    let s = suffix(b, i);
    let t = suffix(b, j);
    assert(is_char_boundary(s, j - i)) by {
        if j == b.len() {
            is_char_boundary_start_end_of_seq(s);
        } else {
            assert(t.len() > 0);
            assert(valid_first_scalar(t));
            assert(t[0] == s[j - i]);
            is_char_boundary_iff_not_is_continuation_byte(s, j - i);
        }
    }
    valid_utf8_split(s, j - i);
    decode_utf8_split(s, j - i);
    assert(s.subrange(0, j - i) =~= b.subrange(i, j));
    assert(s.subrange(j - i, s.len() as int) =~= t);
    decode_utf8_encode_utf8(b.subrange(i, j));
    let m = chars_between(b, i, j);
    assert((m + chars_from(b, j)).take(m.len() as int) =~= m);
    assert((m + chars_from(b, j)).skip(m.len() as int) =~= chars_from(b, j));
}

/// The characters between two boundaries are the first `k` from the first
/// boundary on, where `k` characters take up the bytes between them.
pub proof fn lemma_between_count(b: Seq<u8>, i: int, j: int, k: int)
    requires
        at_boundary(b, i),
        at_boundary(b, j),
        i <= j,
        0 <= k <= chars_from(b, i).len(),
        byte_offset(chars_from(b, i), k) == j - i,
    ensures
        chars_between(b, i, j) == chars_from(b, i).take(k),
        chars_between(b, i, j).len() == k,
        chars_from(b, j) == chars_from(b, i).skip(k),
{
    lemma_chars_between(b, i, j);
    let s = chars_from(b, i);
    let m = chars_between(b, i, j).len() as int;
    assert(m <= s.len()) by {
        assert(s.len() == m + chars_from(b, j).len());
    }
    if m < k {
        lemma_byte_offset_monotonic(s, m, k);
    } else if k < m {
        lemma_byte_offset_monotonic(s, k, m);
    }
}

/// Between a boundary and itself there are no characters.
pub proof fn lemma_chars_between_empty(b: Seq<u8>, i: int)
    requires
        0 <= i <= b.len(),
    ensures
        chars_between(b, i, i) == Seq::<char>::empty(),
{
    assert(b.subrange(i, i) =~= Seq::<u8>::empty());
}

/// Going `k` characters on from a boundary leads to a boundary, behind
/// which the rest of the characters stand.
pub proof fn lemma_offset_boundary(b: Seq<u8>, i: int, k: int)
    requires
        at_boundary(b, i),
        0 <= k <= chars_from(b, i).len(),
    ensures
        i + byte_offset(chars_from(b, i), k) <= b.len(),
        at_boundary(b, i + byte_offset(chars_from(b, i), k)),
        chars_from(b, i + byte_offset(chars_from(b, i), k)) == chars_from(b, i).skip(k),
        k > 0 ==> byte_offset(chars_from(b, i), k) > 0,
    decreases k,
{
    let s = chars_from(b, i);
    if k == 0 {
        lemma_byte_offset_zero(s);
        assert(s.skip(0) =~= s);
    } else {
        lemma_offset_boundary(b, i, k - 1);
        let p = i + byte_offset(s, k - 1);
        lemma_chars_from_len(b, p);
        lemma_decode_step(b, p);
        lemma_byte_offset_step(s, k - 1);
        assert(s.skip(k - 1).drop_first() =~= s.skip(k));
        lemma_char_width_bounds(s[k - 1]);
    }
}

/// A boundary in the sense of this module is a character boundary of the
/// whole text.
pub proof fn lemma_boundary_is_char_boundary(b: Seq<u8>, i: int)
    requires
        valid_utf8(b),
        at_boundary(b, i),
    ensures
        is_char_boundary(b, i),
{
    if i == b.len() {
        is_char_boundary_start_end_of_seq(b);
    } else {
        let t = suffix(b, i);
        assert(t.len() > 0);
        assert(valid_first_scalar(t));
        assert(t[0] == b[i]);
        is_char_boundary_iff_not_is_continuation_byte(b, i);
    }
}

} // verus!
