//! Segments: byte ranges of a text, from a start up to an end.

use crate::text::{at_boundary, chars_between};
use vstd::prelude::*;

verus! {

/// The characters of the segment `seg` of the text `b`.
pub open spec fn seg_chars(b: Seq<u8>, seg: (usize, usize)) -> Seq<char> {
    chars_between(b, seg.0 as int, seg.1 as int)
}

/// Every segment starts and ends on a character boundary, start before end
/// or at it, and no segment starts before the one in front of it ends.
pub open spec fn aligned(b: Seq<u8>, segs: Seq<(usize, usize)>) -> bool {
    &&& forall|k: int|
        0 <= k < segs.len() ==> {
            &&& (#[trigger] segs[k]).0 <= segs[k].1
            &&& at_boundary(b, segs[k].0 as int)
            &&& at_boundary(b, segs[k].1 as int)
        }
    &&& forall|k: int| 0 <= k < segs.len() - 1 ==> (#[trigger] segs[k]).1 <= segs[k + 1].0
}

/// The segments cut the bytes from 0 to `to` into consecutive non-empty
/// pieces.
pub open spec fn tiles(segs: Seq<(usize, usize)>, to: int) -> bool {
    &&& segs.len() > 0
    &&& segs[0].0 == 0
    &&& segs.last().1 == to
    &&& forall|k: int| 0 <= k < segs.len() ==> (#[trigger] segs[k]).0 < segs[k].1
    &&& forall|k: int| 0 <= k < segs.len() - 1 ==> (#[trigger] segs[k]).1 == segs[k + 1].0
}

} // verus!
