//! Rewriting rules applied to a segmentation after decoding: signs and
//! stray characters that cannot stand alone are joined to a neighbour.

use crate::segments::{aligned, seg_chars, tiles};
use crate::text::{
    at_boundary, byte_offset, chars_between, chars_from, decode_at, lemma_between_count,
    lemma_byte_offset_step, lemma_byte_offset_zero, lemma_chars_between_empty,
    lemma_chars_from_len, lemma_chars_from_start,
};
use crate::utils::{
    base_code, base_code_exec, consonant_code, digit_code, digit_code_exec, separator_code,
    separator_code_exec,
};
use vstd::prelude::*;
use vstd::string::*;

verus! {

/// The first character of `c` is a separator.
pub open spec fn starts_with_separator(c: Seq<char>) -> bool {
    c.len() > 0 && separator_code(c[0] as u32)
}

/// `c` is one character that cannot stand alone: no base, no digit, no
/// separator.
pub open spec fn invalid_single(c: Seq<char>) -> bool {
    &&& c.len() == 1
    &&& !base_code(c[0] as u32)
    &&& !digit_code(c[0] as u32)
    &&& !separator_code(c[0] as u32)
}

/// KA or DA with the sign AHSDA: kept as it is.
pub open spec fn keeps_ahsda(c: Seq<char>) -> bool {
    c.len() == 2 && c[1] as u32 == 0x17CF && (c[0] as u32 == 0x1780 || c[0] as u32 == 0x178A)
}

/// The lone prefix QA.
pub open spec fn lone_qa(c: Seq<char>) -> bool {
    c.len() == 1 && c[0] as u32 == 0x17A2
}

/// A consonant with one of the signs that join it to the word before.
pub open spec fn joins_left(c: Seq<char>) -> bool {
    c.len() == 2 && consonant_code(c[0] as u32) && (c[1] as u32 == 0x17CB || c[1] as u32 == 0x17CC
        || c[1] as u32 == 0x17CE || c[1] as u32 == 0x17CF)
}

/// A consonant with SAMYOK SANNYA, which joins it to the word behind.
pub open spec fn joins_right(c: Seq<char>) -> bool {
    c.len() == 2 && consonant_code(c[0] as u32) && c[1] as u32 == 0x17D0
}

/// What the rules do with one segment.
pub enum Rewrite {
    /// Leave it and go to the next segment.
    Advance,
    /// Join the next segment to it and look at it again.
    MergeNext,
    /// Join it to the previous segment and look at that again.
    MergePrevious,
}

/// What the rules do with segment `i`: the first rule that fires decides.
pub open spec fn rewrite_at(b: Seq<u8>, segs: Seq<(usize, usize)>, i: int) -> Rewrite {
    let c = seg_chars(b, segs[i]);
    if keeps_ahsda(c) {
        Rewrite::Advance
    } else if lone_qa(c) && i + 1 < segs.len() && !starts_with_separator(
        seg_chars(b, segs[i + 1]),
    ) {
        Rewrite::MergeNext
    } else if joins_left(c) && i > 0 {
        Rewrite::MergePrevious
    } else if joins_right(c) && i + 1 < segs.len() {
        Rewrite::MergeNext
    } else if invalid_single(c) && i > 0 && !starts_with_separator(seg_chars(b, segs[i - 1])) {
        Rewrite::MergePrevious
    } else {
        Rewrite::Advance
    }
}

/// `segs` with segment `k + 1` joined to segment `k`.
pub open spec fn merge_at(segs: Seq<(usize, usize)>, k: int) -> Seq<(usize, usize)> {
    segs.update(k, (segs[k].0, segs[k + 1].1)).remove(k + 1)
}

/// The segmentation after the rules have gone over it from segment `i` on.
pub open spec fn rewrite_from(b: Seq<u8>, segs: Seq<(usize, usize)>, i: int) -> Seq<(usize, usize)>
    decreases segs.len(), segs.len() - i,
{
    if i < 0 || i >= segs.len() {
        segs
    } else {
        match rewrite_at(b, segs, i) {
            Rewrite::Advance => rewrite_from(b, segs, i + 1),
            Rewrite::MergeNext => if i + 1 < segs.len() {
                rewrite_from(b, merge_at(segs, i), i)
            } else {
                segs
            },
            Rewrite::MergePrevious => if i > 0 {
                rewrite_from(b, merge_at(segs, i - 1), i - 1)
            } else {
                segs
            },
        }
    }
}

/// The segmentation after the rules have gone over all of it.
pub open spec fn apply_rules(b: Seq<u8>, segs: Seq<(usize, usize)>) -> Seq<(usize, usize)> {
    rewrite_from(b, segs, 0)
}

/// Joining two neighbours keeps the segments aligned and, where they tiled
/// the text, tiling it.
pub proof fn lemma_merge_at(b: Seq<u8>, segs: Seq<(usize, usize)>, k: int, to: int)
    requires
        aligned(b, segs),
        0 <= k < segs.len() - 1,
    ensures
        merge_at(segs, k).len() == segs.len() - 1,
        aligned(b, merge_at(segs, k)),
        tiles(segs, to) ==> tiles(merge_at(segs, k), to),
{
    let m = merge_at(segs, k);
    assert(m.len() == segs.len() - 1);
    assert forall|j: int| 0 <= j < m.len() implies {
        &&& (#[trigger] m[j]).0 <= m[j].1
        &&& at_boundary(b, m[j].0 as int)
        &&& at_boundary(b, m[j].1 as int)
    } by {
        if j < k {
            assert(m[j] == segs[j]);
        } else if j == k {
            assert(m[j] == (segs[k].0, segs[k + 1].1));
            assert(segs[k].1 <= segs[k + 1].0);
        } else {
            assert(m[j] == segs[j + 1]);
        }
    }
    assert forall|j: int| 0 <= j < m.len() - 1 implies (#[trigger] m[j]).1 <= m[j + 1].0 by {
        if j + 1 < k {
            assert(m[j] == segs[j] && m[j + 1] == segs[j + 1]);
        } else if j + 1 == k {
            assert(m[j] == segs[j]);
            assert(m[j + 1].0 == segs[k].0);
        } else if j == k {
            assert(m[j].1 == segs[k + 1].1);
            assert(m[j + 1] == segs[j + 2]);
            assert(segs[k + 1].1 <= segs[k + 2].0);
        } else {
            assert(m[j] == segs[j + 1] && m[j + 1] == segs[j + 2]);
            assert(segs[j + 1].1 <= segs[j + 2].0);
        }
    }
    if tiles(segs, to) {
        assert forall|j: int| 0 <= j < m.len() implies (#[trigger] m[j]).0 < m[j].1 by {
            if j < k {
                assert(m[j] == segs[j]);
            } else if j == k {
                assert(segs[k].0 < segs[k].1);
                assert(segs[k].1 == segs[k + 1].0);
                assert(segs[k + 1].0 < segs[k + 1].1);
            } else {
                assert(m[j] == segs[j + 1]);
            }
        }
        assert forall|j: int| 0 <= j < m.len() - 1 implies (#[trigger] m[j]).1 == m[j + 1].0 by {
            if j + 1 < k {
                assert(m[j] == segs[j] && m[j + 1] == segs[j + 1]);
            } else if j + 1 == k {
                assert(m[j] == segs[j]);
                assert(segs[j].1 == segs[j + 1].0);
            } else if j == k {
                assert(m[j + 1] == segs[j + 2]);
                assert(segs[k + 1].1 == segs[k + 2].0);
            } else {
                assert(m[j] == segs[j + 1] && m[j + 1] == segs[j + 2]);
                assert(segs[j + 1].1 == segs[j + 2].0);
            }
        }
        if k == 0 {
            assert(m[0].0 == segs[0].0);
        } else {
            assert(m[0] == segs[0]);
        }
        if k == m.len() - 1 {
            assert(m.last().1 == segs[k + 1].1);
        } else {
            assert(m.last() == segs.last());
        }
    }
}

/// From any segment on, the rules never add a segment, keep an aligned
/// segmentation aligned, and keep one that tiles the text tiling it.
pub proof fn lemma_rewrite_from(b: Seq<u8>, segs: Seq<(usize, usize)>, i: int, to: int)
    requires
        aligned(b, segs),
    ensures
        rewrite_from(b, segs, i).len() <= segs.len(),
        aligned(b, rewrite_from(b, segs, i)),
        tiles(segs, to) ==> tiles(rewrite_from(b, segs, i), to),
    decreases segs.len(), segs.len() - i,
{
    if i < 0 || i >= segs.len() {
    } else {
        match rewrite_at(b, segs, i) {
            Rewrite::Advance => {
                lemma_rewrite_from(b, segs, i + 1, to);
            },
            Rewrite::MergeNext => {
                if i + 1 < segs.len() {
                    lemma_merge_at(b, segs, i, to);
                    lemma_rewrite_from(b, merge_at(segs, i), i, to);
                }
            },
            Rewrite::MergePrevious => {
                if i > 0 {
                    lemma_merge_at(b, segs, i - 1, to);
                    lemma_rewrite_from(b, merge_at(segs, i - 1), i - 1, to);
                }
            },
        }
    }
}

/// The rules never add a segment, keep an aligned segmentation aligned, and
/// keep one that tiles the text tiling it.
pub proof fn lemma_apply_rules(b: Seq<u8>, segs: Seq<(usize, usize)>)
    requires
        aligned(b, segs),
    ensures
        apply_rules(b, segs).len() <= segs.len(),
        aligned(b, apply_rules(b, segs)),
        forall|to: int| tiles(segs, to) ==> tiles(apply_rules(b, segs), to),
{
    lemma_rewrite_from(b, segs, 0, 0);
    assert forall|to: int| tiles(segs, to) implies tiles(apply_rules(b, segs), to) by {
        lemma_rewrite_from(b, segs, 0, to);
    }
}

/// How many characters a segment has, up to three, and its first two.
pub struct Shape {
    pub count: usize,
    pub first: u32,
    pub second: u32,
}

/// Reads the shape of the segment `b[start..end]`.
pub fn shape_of(b: &[u8], start: usize, end: usize) -> (r: Shape)
    requires
        at_boundary(b@, start as int),
        at_boundary(b@, end as int),
        start <= end,
    ensures
        r.count <= 3,
        r.count < 3 ==> r.count == chars_between(b@, start as int, end as int).len(),
        r.count == 3 ==> chars_between(b@, start as int, end as int).len() >= 3,
        r.count >= 1 ==> r.first == chars_between(b@, start as int, end as int)[0] as u32,
        r.count >= 2 ==> r.second == chars_between(b@, start as int, end as int)[1] as u32,
{
    let ghost s = chars_from(b@, start as int);
    proof {
        lemma_byte_offset_zero(s);
        lemma_chars_from_len(b@, start as int);
        lemma_chars_from_len(b@, end as int);
        crate::text::lemma_chars_between(b@, start as int, end as int);
    }
    let ghost total = chars_between(b@, start as int, end as int).len() as int;
    if start == end {
        proof {
            lemma_chars_between_empty(b@, start as int);
        }
        return Shape { count: 0, first: 0, second: 0 };
    }
    let (first, w0) = decode_at(b, start);
    proof {
        lemma_byte_offset_step(s, 0);
        if total < 1 {
            lemma_between_count(b@, start as int, end as int, total);
        }
        crate::text::lemma_byte_offset_monotonic(s, 1, total);
    }
    if start + w0 == end {
        proof {
            lemma_between_count(b@, start as int, end as int, 1);
        }
        return Shape { count: 1, first, second: 0 };
    }
    proof {
        assert(s.drop_first() =~= s.skip(1));
        lemma_chars_from_len(b@, start + w0);
        assert(total >= 2) by {
            if total == 1 {
                lemma_between_count(b@, start as int, end as int, 1);
            }
        }
        crate::text::lemma_byte_offset_monotonic(s, 2, total);
        lemma_byte_offset_step(s, 1);
    }
    let (second, w1) = decode_at(b, start + w0);
    assert(second == s[1] as u32);
    if start + w0 + w1 == end {
        proof {
            lemma_between_count(b@, start as int, end as int, 2);
        }
        return Shape { count: 2, first, second };
    }
    proof {
        if total == 2 {
            lemma_between_count(b@, start as int, end as int, 2);
        }
    }
    Shape { count: 3, first, second }
}

/// Whether the first character of `s` is a separator.
pub fn is_separator(s: &str) -> (r: bool)
    ensures
        r == starts_with_separator(s@),
{
    let b = s.as_bytes();
    proof {
        lemma_chars_from_start(s@);
        lemma_chars_from_len(b@, 0);
    }
    if b.len() == 0 {
        return false;
    }
    let (c, _w) = decode_at(b, 0);
    separator_code_exec(c)
}

/// Whether `s` is one character that cannot stand alone.
pub fn is_invalid_single(s: &str) -> (r: bool)
    ensures
        r == invalid_single(s@),
{
    let b = s.as_bytes();
    proof {
        lemma_chars_from_start(s@);
        lemma_chars_from_len(b@, 0);
        lemma_chars_from_len(b@, b@.len() as int);
        assert(b@.subrange(0, b@.len() as int) =~= b@);
        vstd::utf8::encode_utf8_decode_utf8(s@);
    }
    let shape = shape_of(b, 0, b.len());
    shape.count == 1 && !base_code_exec(shape.first) && !digit_code_exec(shape.first)
        && !separator_code_exec(shape.first)
}

/// Which rewriting segment `i` gets.
fn rewrite_exec(b: &[u8], segments: &Vec<(usize, usize)>, i: usize) -> (r: Rewrite)
    requires
        aligned(b@, segments@),
        i < segments.len(),
    ensures
        r == rewrite_at(b@, segments@, i as int),
{
    let (start, end) = segments[i];
    let shape = shape_of(b, start, end);
    let two = shape.count == 2;
    let consonant = shape.first >= 0x1780 && shape.first <= 0x17A2;
    if two && shape.second == 0x17CF && (shape.first == 0x1780 || shape.first == 0x178A) {
        return Rewrite::Advance;
    }
    if shape.count == 1 && shape.first == 0x17A2 && i + 1 < segments.len() {
        let (next_start, next_end) = segments[i + 1];
        let next = shape_of(b, next_start, next_end);
        if !(next.count >= 1 && separator_code_exec(next.first)) {
            return Rewrite::MergeNext;
        }
    }
    if two && consonant && (shape.second == 0x17CB || shape.second == 0x17CC || shape.second
        == 0x17CE || shape.second == 0x17CF) && i > 0 {
        return Rewrite::MergePrevious;
    }
    if two && consonant && shape.second == 0x17D0 && i + 1 < segments.len() {
        return Rewrite::MergeNext;
    }
    if shape.count == 1 && !base_code_exec(shape.first) && !digit_code_exec(shape.first)
        && !separator_code_exec(shape.first) && i > 0 {
        let (prev_start, prev_end) = segments[i - 1];
        let prev = shape_of(b, prev_start, prev_end);
        if !(prev.count >= 1 && separator_code_exec(prev.first)) {
            return Rewrite::MergePrevious;
        }
    }
    Rewrite::Advance
}

/// Joins segment `k + 1` to segment `k`.
fn merge_neighbours(segments: &mut Vec<(usize, usize)>, k: usize)
    requires
        k + 1 < old(segments).len(),
    ensures
        final(segments)@ == merge_at(old(segments)@, k as int),
{
    let (start, _end) = segments[k];
    let (_next_start, next_end) = segments[k + 1];
    segments.set(k, (start, next_end));
    segments.remove(k + 1);
}

/// The rules over the segments of the bytes `b`.
pub fn apply_to_bytes(b: &[u8], segments: &mut Vec<(usize, usize)>)
    requires
        aligned(b@, old(segments)@),
    ensures
        final(segments)@ == apply_rules(b@, old(segments)@),
        final(segments)@.len() <= old(segments)@.len(),
        aligned(b@, final(segments)@),
        forall|to: int| tiles(old(segments)@, to) ==> tiles(final(segments)@, to),
{
    let mut i: usize = 0;
    proof {
        lemma_apply_rules(b@, segments@);
    }
    while i < segments.len()
        invariant
            aligned(b@, segments@),
            rewrite_from(b@, segments@, i as int) == apply_rules(b@, old(segments)@),
        decreases segments.len(), segments.len() - i,
    {
        match rewrite_exec(b, segments, i) {
            Rewrite::Advance => {
                i += 1;
            },
            Rewrite::MergeNext => {
                proof {
                    lemma_merge_at(b@, segments@, i as int, 0);
                }
                merge_neighbours(segments, i);
            },
            Rewrite::MergePrevious => {
                proof {
                    lemma_merge_at(b@, segments@, i - 1, 0);
                }
                merge_neighbours(segments, i - 1);
                i -= 1;
            },
        }
    }
}

/// The rule engine. It holds no state.
pub struct RuleEngine;

impl RuleEngine {
    /// The rule engine.
    pub fn new() -> (r: Self) {
        RuleEngine
    }

    /// Applies the rules to `segments`, byte ranges of `text`, in place:
    /// from the first segment on, the first rule that fires joins the
    /// segment to a neighbour, and the joined segment is looked at again.
    pub fn apply(&self, text: &str, segments: &mut Vec<(usize, usize)>)
        requires
            aligned(text.spec_bytes(), old(segments)@),
        ensures
            final(segments)@ == apply_rules(text.spec_bytes(), old(segments)@),
            final(segments)@.len() <= old(segments)@.len(),
            aligned(text.spec_bytes(), final(segments)@),
            forall|to: int| tiles(old(segments)@, to) ==> tiles(final(segments)@, to),
    {
        apply_to_bytes(text.as_bytes(), segments)
    }
}

} // verus!
