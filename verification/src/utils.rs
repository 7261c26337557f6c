//! Character classes of Khmer script, the lengths of clusters, numbers and
//! acronyms at the start of a text, and the dictionary's hash function.

use crate::text::{
    at_boundary, byte_offset, chars_from, decode_at, lemma_byte_offset_monotonic,
    lemma_byte_offset_step, lemma_byte_offset_zero, lemma_char_width_bounds, lemma_chars_from_len,
    lemma_chars_from_start, lemma_decode_step, lemma_utf8_len_concat, utf8_len,
};
use vstd::prelude::*;
use vstd::string::*;

verus! {

/// The subscript marker U+17D2.
pub const COENG: u32 = 0x17D2;

/// ASCII full stop.
pub const FULL_STOP: u32 = 0x2E;

/// ASCII comma.
pub const COMMA: u32 = 0x2C;

/// Code points of the Khmer block and of the Khmer symbols block.
pub open spec fn khmer_code(cp: u32) -> bool {
    (0x1780 <= cp <= 0x17FF) || (0x19E0 <= cp <= 0x19FF)
}

/// ASCII digits and Khmer digits.
pub open spec fn digit_code(cp: u32) -> bool {
    (0x30 <= cp <= 0x39) || (0x17E0 <= cp <= 0x17E9)
}

/// ASCII punctuation: the four runs of printable ASCII that are neither
/// letters, digits nor the space.
pub open spec fn ascii_punctuation_code(cp: u32) -> bool {
    (0x21 <= cp <= 0x2F) || (0x3A <= cp <= 0x40) || (0x5B <= cp <= 0x60) || (0x7B <= cp <= 0x7E)
}

/// ASCII whitespace: space, tab, line feed, form feed, carriage return.
pub open spec fn ascii_whitespace_code(cp: u32) -> bool {
    cp == 0x20 || cp == 0x09 || cp == 0x0A || cp == 0x0C || cp == 0x0D
}

/// Code points that are a token boundary by themselves.
pub open spec fn separator_code(cp: u32) -> bool {
    ||| 0x17D4 <= cp <= 0x17DA
    ||| cp == 0x17DB
    ||| ascii_punctuation_code(cp)
    ||| ascii_whitespace_code(cp)
    ||| cp == 0xA0
    ||| cp == 0x2DD
    ||| cp == 0xAB
    ||| cp == 0xBB
    ||| 0x2000 <= cp <= 0x206F
    ||| 0x20A0 <= cp <= 0x20CF
    ||| cp == 0xA3
    ||| cp == 0xA5
}

/// Khmer consonants.
pub open spec fn consonant_code(cp: u32) -> bool {
    0x1780 <= cp <= 0x17A2
}

/// Consonants and independent vowels: what can start a cluster.
pub open spec fn base_code(cp: u32) -> bool {
    0x1780 <= cp <= 0x17B3
}

/// Dependent vowels and signs that extend a cluster.
pub open spec fn cluster_mark_code(cp: u32) -> bool {
    (0x17B6 <= cp <= 0x17D1) || cp == 0x17D3 || cp == 0x17DD
}

/// Dependent vowels.
pub open spec fn dependent_vowel_code(cp: u32) -> bool {
    0x17B6 <= cp <= 0x17C5
}

/// Whether the code point lies in one of the two Khmer blocks.
pub fn khmer_code_exec(cp: u32) -> (r: bool)
    ensures
        r == khmer_code(cp),
{
    (cp >= 0x1780 && cp <= 0x17FF) || (cp >= 0x19E0 && cp <= 0x19FF)
}

/// Whether the code point is an ASCII or a Khmer digit.
pub fn digit_code_exec(cp: u32) -> (r: bool)
    ensures
        r == digit_code(cp),
{
    (cp >= 0x30 && cp <= 0x39) || (cp >= 0x17E0 && cp <= 0x17E9)
}

/// Whether the code point is a token boundary by itself.
pub fn separator_code_exec(cp: u32) -> (r: bool)
    ensures
        r == separator_code(cp),
{
    if cp >= 0x17D4 && cp <= 0x17DB {
        return true;
    }
    if cp < 0x80 {
        let punctuation = (cp >= 0x21 && cp <= 0x2F) || (cp >= 0x3A && cp <= 0x40) || (cp >= 0x5B
            && cp <= 0x60) || (cp >= 0x7B && cp <= 0x7E);
        let whitespace = cp == 0x20 || cp == 0x09 || cp == 0x0A || cp == 0x0C || cp == 0x0D;
        return punctuation || whitespace;
    }
    if cp == 0xA0 || cp == 0x2DD || cp == 0xAB || cp == 0xBB || cp == 0xA3 || cp == 0xA5 {
        return true;
    }
    (cp >= 0x2000 && cp <= 0x206F) || (cp >= 0x20A0 && cp <= 0x20CF)
}

/// Whether the code point is a consonant or an independent vowel.
pub fn base_code_exec(cp: u32) -> (r: bool)
    ensures
        r == base_code(cp),
{
    cp >= 0x1780 && cp <= 0x17B3
}

/// Whether `cp` lies in the Khmer block or the Khmer symbols block.
pub fn is_khmer_char(cp: char) -> (r: bool)
    ensures
        r == khmer_code(cp as u32),
{
    khmer_code_exec(cp as u32)
}

/// Whether `cp` is an ASCII digit or a Khmer digit.
pub fn is_digit_cp(cp: char) -> (r: bool)
    ensures
        r == digit_code(cp as u32),
{
    digit_code_exec(cp as u32)
}

/// Whether `cp` is a token boundary by itself: Khmer punctuation and
/// currency, ASCII punctuation and whitespace, and the punctuation and
/// currency signs listed with `separator_code`.
pub fn is_separator_cp(cp: char) -> (r: bool)
    ensures
        r == separator_code(cp as u32),
{
    separator_code_exec(cp as u32)
}

/// Whether `cp` can stand alone as a segment: a consonant or an
/// independent vowel.
pub fn is_valid_single_base_char(cp: char) -> (r: bool)
    ensures
        r == base_code(cp as u32),
{
    base_code_exec(cp as u32)
}

/// Index at which the run of subscripts, vowels and signs that starts at
/// index `k` of `s` ends. A subscript marker counts only together with the
/// consonant behind it.
pub open spec fn cluster_tail_end(s: Seq<char>, k: int) -> int
    decreases s.len() - k,
{
    if 0 <= k && k + 1 < s.len() && s[k] as u32 == COENG && consonant_code(s[k + 1] as u32) {
        cluster_tail_end(s, k + 2)
    } else if 0 <= k < s.len() && cluster_mark_code(s[k] as u32) {
        cluster_tail_end(s, k + 1)
    } else {
        k
    }
}

/// Number of characters of the orthographic cluster at the start of `s`:
/// one character where `s` does not start with a base.
pub open spec fn cluster_chars(s: Seq<char>) -> int {
    if s.len() == 0 {
        0
    } else if !base_code(s[0] as u32) {
        1
    } else {
        cluster_tail_end(s, 1)
    }
}

/// Byte length of the orthographic cluster at the start of `s`.
pub open spec fn cluster_len(s: Seq<char>) -> nat {
    byte_offset(s, cluster_chars(s))
}

/// The run of marks ends at or behind its start and within the text.
pub proof fn lemma_cluster_tail_end_bounds(s: Seq<char>, k: int)
    requires
        0 <= k <= s.len(),
    ensures
        k <= cluster_tail_end(s, k) <= s.len(),
    decreases s.len() - k,
{
    if k + 1 < s.len() && s[k] as u32 == COENG && consonant_code(s[k + 1] as u32) {
        lemma_cluster_tail_end_bounds(s, k + 2);
    } else if k < s.len() && cluster_mark_code(s[k] as u32) {
        lemma_cluster_tail_end_bounds(s, k + 1);
    }
}

/// A cluster lies within the text and, where the text is not empty, has
/// at least one character.
pub proof fn lemma_cluster_chars_bounds(s: Seq<char>)
    ensures
        0 <= cluster_chars(s) <= s.len(),
        s.len() > 0 ==> 1 <= cluster_chars(s),
{
    if s.len() > 0 && base_code(s[0] as u32) {
        lemma_cluster_tail_end_bounds(s, 1);
    }
}

/// Index at which the run of digits and digit groups that starts at index
/// `k` of `s` ends. A comma or a full stop counts only together with the
/// digit behind it.
pub open spec fn number_tail_end(s: Seq<char>, k: int) -> int
    decreases s.len() - k,
{
    if 0 <= k < s.len() && digit_code(s[k] as u32) {
        number_tail_end(s, k + 1)
    } else if 0 <= k && k + 1 < s.len() && (s[k] as u32 == COMMA || s[k] as u32 == FULL_STOP)
        && digit_code(s[k + 1] as u32) {
        number_tail_end(s, k + 2)
    } else {
        k
    }
}

/// Number of characters of the number at the start of `s`; 0 where `s` does
/// not start with a digit.
pub open spec fn number_chars(s: Seq<char>) -> int {
    if s.len() == 0 || !digit_code(s[0] as u32) {
        0
    } else {
        number_tail_end(s, 1)
    }
}

/// Byte length of the number at the start of `s`.
pub open spec fn number_len(s: Seq<char>) -> nat {
    byte_offset(s, number_chars(s))
}

/// The run of digits ends at or behind its start and within the text.
pub proof fn lemma_number_tail_end_bounds(s: Seq<char>, k: int)
    requires
        0 <= k <= s.len(),
    ensures
        k <= number_tail_end(s, k) <= s.len(),
    decreases s.len() - k,
{
    if k < s.len() && digit_code(s[k] as u32) {
        lemma_number_tail_end_bounds(s, k + 1);
    } else if k + 1 < s.len() && (s[k] as u32 == COMMA || s[k] as u32 == FULL_STOP) && digit_code(
        s[k + 1] as u32,
    ) {
        lemma_number_tail_end_bounds(s, k + 2);
    }
}

/// A number lies within the text and, where the text starts with a
/// digit, has at least one character.
pub proof fn lemma_number_chars_bounds(s: Seq<char>)
    ensures
        0 <= number_chars(s) <= s.len(),
        s.len() > 0 && digit_code(s[0] as u32) ==> 1 <= number_chars(s),
{
    if s.len() > 0 && digit_code(s[0] as u32) {
        lemma_number_tail_end_bounds(s, 1);
    }
}

/// `s` starts with a Khmer cluster that a full stop follows.
pub open spec fn acronym_start(s: Seq<char>) -> bool {
    &&& s.len() > 0
    &&& base_code(s[0] as u32)
    &&& cluster_chars(s) < s.len()
    &&& s[cluster_chars(s)] as u32 == FULL_STOP
}

/// Number of characters of the acronym at the start of `s`: the clusters,
/// each with its full stop, for as long as one follows another.
pub open spec fn acronym_chars(s: Seq<char>) -> int
    decreases s.len(),
{
    if acronym_start(s) && cluster_chars(s) >= 0 {
        cluster_chars(s) + 1 + acronym_chars(s.skip(cluster_chars(s) + 1))
    } else {
        0
    }
}

/// Byte length of the acronym at the start of `s`.
pub open spec fn acronym_len(s: Seq<char>) -> nat {
    byte_offset(s, acronym_chars(s))
}

/// An acronym lies within the text and, where one starts, has at least a
/// cluster and its full stop.
pub proof fn lemma_acronym_chars_bounds(s: Seq<char>)
    ensures
        0 <= acronym_chars(s) <= s.len(),
        acronym_start(s) ==> 2 <= acronym_chars(s),
    decreases s.len(),
{
    lemma_cluster_chars_bounds(s);
    if acronym_start(s) {
        lemma_acronym_chars_bounds(s.skip(cluster_chars(s) + 1));
    }
}

/// The byte offset of index `k + j` is that of `k` plus the offset of `j`
/// in what follows `k`.
pub proof fn lemma_byte_offset_skip(s: Seq<char>, k: int, j: int)
    requires
        0 <= k,
        0 <= j,
        k + j <= s.len(),
    ensures
        byte_offset(s, k + j) == byte_offset(s, k) + byte_offset(s.skip(k), j),
{
    assert(s.take(k + j) =~= s.take(k) + s.skip(k).take(j));
    lemma_utf8_len_concat(s.take(k), s.skip(k).take(j));
}

/// Byte length of the cluster that starts at byte `i`.
pub fn cluster_length_at(b: &[u8], i: usize) -> (len: usize)
    requires
        at_boundary(b@, i as int),
    ensures
        len == cluster_len(chars_from(b@, i as int)),
        i + len <= b.len(),
        at_boundary(b@, i + len),
        chars_from(b@, i + len) == chars_from(b@, i as int).skip(
            cluster_chars(chars_from(b@, i as int)),
        ),
        i < b.len() ==> len >= 1,
{
    let n = b.len();
    let ghost s = chars_from(b@, i as int);
    proof {
        lemma_chars_from_len(b@, i as int);
        lemma_byte_offset_zero(s);
        lemma_cluster_chars_bounds(s);
    }
    if i >= n {
        assert(s.skip(0) =~= s);
        return 0;
    }
    let (first, w) = decode_at(b, i);
    proof {
        lemma_byte_offset_step(s, 0);
        assert(s.drop_first() =~= s.skip(1));
    }
    if !base_code_exec(first) {
        return w;
    }
    let mut p: usize = i + w;
    let ghost mut k: int = 1;
    loop
        invariant
            n == b.len(),
            s == chars_from(b@, i as int),
            1 <= k <= s.len(),
            i < p <= n,
            at_boundary(b@, p as int),
            chars_from(b@, p as int) == s.skip(k),
            p == i + byte_offset(s, k),
            cluster_tail_end(s, k) == cluster_tail_end(s, 1),
        ensures
            1 <= k <= s.len(),
            i < p <= n,
            at_boundary(b@, p as int),
            chars_from(b@, p as int) == s.skip(k),
            p == i + byte_offset(s, k),
            k == cluster_tail_end(s, 1),
        decreases n - p,
    {
        proof {
            lemma_chars_from_len(b@, p as int);
        }
        if p >= n {
            break;
        }
        let (cp, cw) = decode_at(b, p);
        assert(cp == s[k] as u32);
        proof {
            lemma_byte_offset_step(s, k);
            assert(s.skip(k).drop_first() =~= s.skip(k + 1));
            lemma_chars_from_len(b@, p + cw);
        }
        if cp == COENG {
            if p + cw < n {
                let (sub, sw) = decode_at(b, p + cw);
                assert(sub == s[k + 1] as u32);
                if sub >= 0x1780 && sub <= 0x17A2 {
                    proof {
                        lemma_byte_offset_step(s, k + 1);
                        assert(s.skip(k + 1).drop_first() =~= s.skip(k + 2));
                        k = k + 2;
                    }
                    p = p + cw + sw;
                    continue;
                }
            }
            break;
        }
        if (cp >= 0x17B6 && cp <= 0x17D1) || cp == 0x17D3 || cp == 0x17DD {
            proof {
                k = k + 1;
            }
            p = p + cw;
            continue;
        }
        break;
    }
    p - i
}

/// Byte length of the number that starts at byte `i`; 0 where no digit
/// starts there.
pub fn number_length_at(b: &[u8], i: usize) -> (len: usize)
    requires
        at_boundary(b@, i as int),
    ensures
        len == number_len(chars_from(b@, i as int)),
        i + len <= b.len(),
        at_boundary(b@, i + len),
        chars_from(b@, i + len) == chars_from(b@, i as int).skip(
            number_chars(chars_from(b@, i as int)),
        ),
        chars_from(b@, i as int).len() > 0 && digit_code(chars_from(b@, i as int)[0] as u32)
            ==> len >= 1,
{
    let n = b.len();
    let ghost s = chars_from(b@, i as int);
    proof {
        lemma_chars_from_len(b@, i as int);
        lemma_byte_offset_zero(s);
        lemma_number_chars_bounds(s);
        assert(s.skip(0) =~= s);
    }
    if i >= n {
        return 0;
    }
    let (first, w) = decode_at(b, i);
    proof {
        lemma_byte_offset_step(s, 0);
        assert(s.drop_first() =~= s.skip(1));
    }
    if !digit_code_exec(first) {
        return 0;
    }
    let mut p: usize = i + w;
    let ghost mut k: int = 1;
    loop
        invariant
            n == b.len(),
            s == chars_from(b@, i as int),
            1 <= k <= s.len(),
            i < p <= n,
            at_boundary(b@, p as int),
            chars_from(b@, p as int) == s.skip(k),
            p == i + byte_offset(s, k),
            number_tail_end(s, k) == number_tail_end(s, 1),
        ensures
            1 <= k <= s.len(),
            i < p <= n,
            at_boundary(b@, p as int),
            chars_from(b@, p as int) == s.skip(k),
            p == i + byte_offset(s, k),
            k == number_tail_end(s, 1),
        decreases n - p,
    {
        proof {
            lemma_chars_from_len(b@, p as int);
        }
        if p >= n {
            break;
        }
        let (cp, cw) = decode_at(b, p);
        assert(cp == s[k] as u32);
        proof {
            lemma_byte_offset_step(s, k);
            assert(s.skip(k).drop_first() =~= s.skip(k + 1));
            lemma_chars_from_len(b@, p + cw);
        }
        if digit_code_exec(cp) {
            proof {
                k = k + 1;
            }
            p = p + cw;
            continue;
        }
        if cp == COMMA || cp == FULL_STOP {
            if p + cw < n {
                let (next, nw) = decode_at(b, p + cw);
                assert(next == s[k + 1] as u32);
                if digit_code_exec(next) {
                    proof {
                        lemma_byte_offset_step(s, k + 1);
                        assert(s.skip(k + 1).drop_first() =~= s.skip(k + 2));
                        k = k + 2;
                    }
                    p = p + cw + nw;
                    continue;
                }
            }
        }
        break;
    }
    p - i
}

/// Whether an acronym starts at byte `i`.
pub fn acronym_start_at(b: &[u8], i: usize) -> (r: bool)
    requires
        at_boundary(b@, i as int),
    ensures
        r == acronym_start(chars_from(b@, i as int)),
{
    let n = b.len();
    let ghost s = chars_from(b@, i as int);
    proof {
        lemma_chars_from_len(b@, i as int);
    }
    if i >= n {
        return false;
    }
    let (first, _w) = decode_at(b, i);
    if !base_code_exec(first) {
        return false;
    }
    let cl = cluster_length_at(b, i);
    proof {
        lemma_chars_from_len(b@, i + cl);
        lemma_cluster_chars_bounds(s);
    }
    if i + cl >= n {
        return false;
    }
    let (next, _nw) = decode_at(b, i + cl);
    assert(next == s[cluster_chars(s)] as u32);
    next == FULL_STOP
}

/// Byte length of the acronym that starts at byte `i`; 0 where none starts
/// there.
pub fn acronym_length_at(b: &[u8], i: usize) -> (len: usize)
    requires
        at_boundary(b@, i as int),
    ensures
        len == acronym_len(chars_from(b@, i as int)),
        i + len <= b.len(),
        at_boundary(b@, i + len),
        acronym_start(chars_from(b@, i as int)) ==> len >= 2,
{
    let n = b.len();
    let ghost s = chars_from(b@, i as int);
    let mut p: usize = i;
    let ghost mut k: int = 0;
    proof {
        lemma_byte_offset_zero(s);
        assert(s.skip(0) =~= s);
        lemma_acronym_chars_bounds(s);
    }
    loop
        invariant
            n == b.len(),
            s == chars_from(b@, i as int),
            0 <= k <= s.len(),
            i <= p <= n,
            at_boundary(b@, p as int),
            chars_from(b@, p as int) == s.skip(k),
            p == i + byte_offset(s, k),
            k + acronym_chars(s.skip(k)) == acronym_chars(s),
        ensures
            0 <= k <= s.len(),
            i <= p <= n,
            at_boundary(b@, p as int),
            p == i + byte_offset(s, k),
            k == acronym_chars(s),
        decreases n - p,
    {
        let ghost t = s.skip(k);
        if !acronym_start_at(b, p) {
            break;
        }
        let cl = cluster_length_at(b, p);
        proof {
            lemma_cluster_chars_bounds(t);
            let cc = cluster_chars(t);
            lemma_chars_from_len(b@, p + cl);
            lemma_decode_step(b@, p + cl);
            lemma_char_width_bounds(t[cc]);
            lemma_byte_offset_step(t, cc);
            lemma_byte_offset_skip(s, k, cc + 1);
            assert(t.skip(cc).drop_first() =~= t.skip(cc + 1));
            assert(t.skip(cc + 1) =~= s.skip(k + cc + 1));
            k = k + cc + 1;
        }
        p = p + cl + 1;
    }
    proof {
        if acronym_start(s) {
            lemma_byte_offset_monotonic(s, 2, k);
            lemma_byte_offset_monotonic(s, 0, 2);
            lemma_byte_offset_step(s, 0);
            lemma_byte_offset_step(s, 1);
            lemma_char_width_bounds(s[0]);
            lemma_char_width_bounds(s[1]);
        }
    }
    p - i
}

/// Byte length of the Khmer orthographic cluster at the start of `text`.
pub fn get_khmer_cluster_length(text: &str) -> (len: usize)
    ensures
        len == cluster_len(text@),
{
    proof {
        lemma_chars_from_start(text@);
    }
    cluster_length_at(text.as_bytes(), 0)
}

/// Byte length of the number at the start of `text`: one or more digits,
/// with a comma or a full stop between two digits.
pub fn get_number_length(text: &str) -> (len: usize)
    ensures
        len == number_len(text@),
{
    proof {
        lemma_chars_from_start(text@);
    }
    number_length_at(text.as_bytes(), 0)
}

/// Whether `text` starts with a Khmer cluster followed by a full stop.
pub fn is_acronym_start(text: &str) -> (r: bool)
    ensures
        r == acronym_start(text@),
{
    proof {
        lemma_chars_from_start(text@);
    }
    acronym_start_at(text.as_bytes(), 0)
}

/// Byte length of the acronym at the start of `text`, 0 where there is none.
pub fn get_acronym_length(text: &str) -> (len: usize)
    ensures
        len == acronym_len(text@),
{
    proof {
        lemma_chars_from_start(text@);
    }
    acronym_length_at(text.as_bytes(), 0)
}

/// One step of the hash: `h * 33 + byte`, wrapping at 32 bits.
pub open spec fn djb2_step(h: u32, byte: u8) -> u32 {
    ((h as int * 33 + byte as int) % 0x1_0000_0000) as u32
}

/// The hash `h` carried on over the bytes of `s`.
pub open spec fn djb2_extend(h: u32, s: Seq<u8>) -> u32
    decreases s.len(),
{
    if s.len() == 0 {
        h
    } else {
        djb2_step(djb2_extend(h, s.drop_last()), s.last())
    }
}

/// The djb2 hash of `s`, started at 5381.
pub open spec fn djb2(s: Seq<u8>) -> u32 {
    djb2_extend(5381, s)
}

/// Carrying a hash over `a` and then over `b` is carrying it over `a + b`.
pub proof fn lemma_djb2_extend_concat(h: u32, a: Seq<u8>, b: Seq<u8>)
    ensures
        djb2_extend(h, a + b) == djb2_extend(djb2_extend(h, a), b),
    decreases b.len(),
{
    if b.len() == 0 {
        assert(a + b =~= a);
    } else {
        lemma_djb2_extend_concat(h, a, b.drop_last());
        assert((a + b).drop_last() =~= a + b.drop_last());
        assert((a + b).last() == b.last());
    }
}

/// The hash of a concatenation is the hash of the first part carried on over
/// the second, so a hash can be accumulated piece by piece.
pub proof fn lemma_djb2_incremental(a: Seq<u8>, b: Seq<u8>)
    ensures
        djb2(a + b) == djb2_extend(djb2(a), b),
        b.len() > 0 ==> djb2(a + b) == djb2_step(djb2(a + b.drop_last()), b.last()),
{
    lemma_djb2_extend_concat(5381, a, b);
    if b.len() > 0 {
        assert((a + b).drop_last() =~= a + b.drop_last());
        assert((a + b).last() == b.last());
    }
}

/// One step of the hash on machine words.
pub fn djb2_step_exec(h: u32, byte: u8) -> (r: u32)
    ensures
        r == djb2_step(h, byte),
{
    assert((h << 5) as int == (h as int * 32) % 0x1_0000_0000) by (bit_vector);
    (h << 5).wrapping_add(h).wrapping_add(byte as u32)
}

/// The djb2 hash of `str`: from 5381, `h * 33 + byte` for each byte, wrapping
/// at 32 bits.
pub fn djb2_hash(str: &[u8]) -> (hash: u32)
    ensures
        hash == djb2(str@),
{
    let mut hash: u32 = 5381;
    let mut i: usize = 0;
    assert(str@.take(0) =~= Seq::<u8>::empty());
    while i < str.len()
        invariant
            0 <= i <= str.len(),
            hash == djb2(str@.take(i as int)),
        decreases str.len() - i,
    {
        assert(str@.take(i + 1).drop_last() =~= str@.take(i as int));
        hash = djb2_step_exec(hash, str[i]);
        i += 1;
    }
    assert(str@.take(i as int) =~= str@);
    hash
}

/// Whether the first `len` bytes of `a` and of `b` are the same.
pub fn fast_str_eq(a: &[u8], b: &[u8], len: usize) -> (r: bool)
    requires
        len <= a.len(),
        len <= b.len(),
    ensures
        r == (a@.take(len as int) == b@.take(len as int)),
{
    let mut i: usize = 0;
    while i < len
        invariant
            0 <= i <= len,
            len <= a.len(),
            len <= b.len(),
            forall|j: int| 0 <= j < i ==> a[j] == b[j],
        decreases len - i,
    {
        if a[i] != b[i] {
            assert(a@.take(len as int)[i as int] != b@.take(len as int)[i as int]);
            return false;
        }
        i += 1;
    }
    assert(a@.take(len as int) =~= b@.take(len as int));
    true
}

} // verus!
