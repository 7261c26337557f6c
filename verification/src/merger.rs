//! Merging of unknowns: after decoding, each segment is checked against
//! what the decoder knows, and neighbouring segments that it does not know
//! are joined into one.

use crate::kdict::KDict;
use crate::rule_engine::shape_of;
use crate::segments::{aligned, seg_chars};
use crate::text::{
    at_boundary, chars_between, chars_from, lemma_chars_between, suffix, utf8_len,
};
use crate::utils::{
    acronym_len, acronym_length_at, acronym_start, acronym_start_at, base_code, base_code_exec,
    digit_code, digit_code_exec, number_len, number_length_at, separator_code,
    separator_code_exec,
};
use vstd::prelude::*;
use vstd::utf8::*;

verus! {

/// The decoder knows the segment with the characters `c`: one separator,
/// digit or base; a number; an acronym, where acronyms are detected; or a
/// word of the dictionary.
pub open spec fn known(d: &KDict, acronym: bool, c: Seq<char>) -> bool {
    ||| c.len() == 1 && (separator_code(c[0] as u32) || digit_code(c[0] as u32) || base_code(
        c[0] as u32,
    ))
    ||| number_len(c) == utf8_len(c)
    ||| acronym && acronym_start(c) && acronym_len(c) == utf8_len(c)
    ||| d.lookup_spec(encode_utf8(c)) is Some
}

/// The run of unknowns gathered so far, as zero or one segment.
pub open spec fn pending_segment(pending: Option<(usize, usize)>) -> Seq<(usize, usize)> {
    match pending {
        Some(u) => seq![u],
        None => Seq::empty(),
    }
}

/// The run of unknowns with the segment `seg` joined to its end.
pub open spec fn extend_pending(pending: Option<(usize, usize)>, seg: (usize, usize)) -> (
    usize,
    usize,
) {
    match pending {
        Some(u) => (u.0, seg.1),
        None => seg,
    }
}

/// The segments from index `i` on with each run of unknowns joined, behind
/// the run gathered so far.
pub open spec fn merge_from(
    d: &KDict,
    acronym: bool,
    b: Seq<u8>,
    segs: Seq<(usize, usize)>,
    i: int,
    pending: Option<(usize, usize)>,
) -> Seq<(usize, usize)>
    decreases segs.len() - i,
{
    if i < 0 || i >= segs.len() {
        pending_segment(pending)
    } else if known(d, acronym, seg_chars(b, segs[i])) {
        pending_segment(pending).push(segs[i]) + merge_from(d, acronym, b, segs, i + 1, None)
    } else {
        merge_from(d, acronym, b, segs, i + 1, Some(extend_pending(pending, segs[i])))
    }
}

/// The segments with each run of neighbouring unknowns joined into one.
pub open spec fn merge_unknown(d: &KDict, acronym: bool, b: Seq<u8>, segs: Seq<(usize, usize)>)
    -> Seq<(usize, usize)> {
    merge_from(d, acronym, b, segs, 0, None)
}

/// Whether the decoder knows the segment `b[start..end]`.
pub fn is_known(d: &KDict, acronym: bool, b: &[u8], start: usize, end: usize) -> (r: bool)
    requires
        at_boundary(b@, start as int),
        at_boundary(b@, end as int),
        start <= end,
    ensures
        r == known(d, acronym, chars_between(b@, start as int, end as int)),
{
    let ghost c = chars_between(b@, start as int, end as int);
    let shape = shape_of(b, start, end);
    if shape.count == 1 && (separator_code_exec(shape.first) || digit_code_exec(shape.first)
        || base_code_exec(shape.first)) {
        return true;
    }
    let piece = &b[start..end];
    proof {
        lemma_chars_between(b@, start as int, end as int);
        assert(piece@ == b@.subrange(start as int, end as int));
        assert(suffix(piece@, 0) =~= piece@);
        assert(chars_from(piece@, 0) == c);
    }
    if number_length_at(piece, 0) == piece.len() {
        return true;
    }
    if acronym && acronym_start_at(piece, 0) && acronym_length_at(piece, 0) == piece.len() {
        return true;
    }
    d.lookup(piece).is_some()
}

/// Joins each run of neighbouring unknown segments into one segment.
pub fn merge_unknown_segments(
    d: &KDict,
    acronym: bool,
    b: &[u8],
    segments: &Vec<(usize, usize)>,
) -> (out: Vec<(usize, usize)>)
    requires
        aligned(b@, segments@),
    ensures
        out@ == merge_unknown(d, acronym, b@, segments@),
{
    let mut out: Vec<(usize, usize)> = Vec::new();
    let mut pending: Option<(usize, usize)> = None;
    let mut i: usize = 0;
    assert(out@ + merge_unknown(d, acronym, b@, segments@) =~= merge_unknown(
        d,
        acronym,
        b@,
        segments@,
    ));
    while i < segments.len()
        invariant
            0 <= i <= segments.len(),
            aligned(b@, segments@),
            out@ + merge_from(d, acronym, b@, segments@, i as int, pending) == merge_unknown(
                d,
                acronym,
                b@,
                segments@,
            ),
        decreases segments.len() - i,
    {
        let (start, end) = segments[i];
        let ghost before = out@;
        let ghost rest = merge_from(d, acronym, b@, segments@, i + 1, None);
        if is_known(d, acronym, b, start, end) {
            match pending {
                Some(u) => {
                    out.push(u);
                },
                None => {},
            }
            out.push((start, end));
            proof {
                assert(out@ =~= before + pending_segment(pending).push(segments@[i as int]));
                assert(out@ + rest =~= before + (pending_segment(pending).push(segments@[i as int])
                    + rest));
            }
            pending = None;
        } else {
            pending = match pending {
                Some(u) => Some((u.0, end)),
                None => Some((start, end)),
            };
        }
        i += 1;
    }
    let ghost before = out@;
    match pending {
        Some(u) => {
            out.push(u);
        },
        None => {},
    }
    assert(out@ =~= before + pending_segment(pending));
    out
}

} // verus!
