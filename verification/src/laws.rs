//! What holds of the stages of the segmenter, whatever the text and the
//! dictionary.

use crate::cost::{add_spec, lt_spec, INFINITY, ZERO};
use crate::optimality::{
    is_way, lemma_word_in_one_step, lemma_word_not_cut, way_cost, way_end,
};
use crate::decoder::{
    decode_table, initial_table, lemma_tables_agree, lemma_decode_table_ok, lemma_path_covers, lemma_run_ok,
    lemma_step_ok, path, run_from, step, table_ok, DpCell,
};
use crate::kdict::KDict;
use crate::khmer_segmenter::{join, joined, KhmerSegmenter, SegmenterConfig};
use crate::merger::{extend_pending, known, merge_from, merge_unknown, pending_segment};
use crate::rule_engine::{apply_rules, lemma_rewrite_from, rewrite_from};
use crate::segments::{aligned, seg_chars, tiles};
use crate::text::{
    at_boundary, chars_between, chars_from, lemma_chars_between, lemma_chars_from_len,
    lemma_chars_from_start, lemma_decode_step, utf8_len, width_at,
};
use crate::utils::dependent_vowel_code;
use vstd::prelude::*;
use vstd::utf8::*;

verus! {

/// The run of unknowns gathered so far is a segment between boundaries that
/// ends before segment `i` starts.
pub open spec fn pending_fits(
    b: Seq<u8>,
    segs: Seq<(usize, usize)>,
    i: int,
    pending: Option<(usize, usize)>,
) -> bool {
    match pending {
        Some(u) => {
            &&& u.0 <= u.1
            &&& at_boundary(b, u.0 as int)
            &&& at_boundary(b, u.1 as int)
            &&& i < segs.len() ==> u.1 <= segs[i].0
        },
        None => true,
    }
}

/// Merging from segment `i` on gives aligned segments, no more than there
/// were, that start where the gathered run, or else segment `i`, starts.
pub proof fn lemma_merge_from_aligned(
    d: &KDict,
    acronym: bool,
    b: Seq<u8>,
    segs: Seq<(usize, usize)>,
    i: int,
    pending: Option<(usize, usize)>,
)
    requires
        aligned(b, segs),
        0 <= i <= segs.len(),
        pending_fits(b, segs, i, pending),
    ensures
        aligned(b, merge_from(d, acronym, b, segs, i, pending)),
        merge_from(d, acronym, b, segs, i, pending).len() <= segs.len() - i + 1,
        pending is None ==> merge_from(d, acronym, b, segs, i, pending).len() <= segs.len() - i,
        pending is Some || i < segs.len() ==> merge_from(d, acronym, b, segs, i, pending).len()
            > 0 && merge_from(d, acronym, b, segs, i, pending)[0].0 == (match pending {
            Some(u) => u.0,
            None => segs[i].0,
        }),
    decreases segs.len() - i,
{
    let r = merge_from(d, acronym, b, segs, i, pending);
    if i >= segs.len() {
    } else if known(d, acronym, seg_chars(b, segs[i])) {
        lemma_merge_from_aligned(d, acronym, b, segs, i + 1, None);
        let head = pending_segment(pending).push(segs[i]);
        let rest = merge_from(d, acronym, b, segs, i + 1, None);
        assert(r == head + rest);
        assert forall|k: int| 0 <= k < r.len() implies {
            &&& (#[trigger] r[k]).0 <= r[k].1
            &&& at_boundary(b, r[k].0 as int)
            &&& at_boundary(b, r[k].1 as int)
        } by {
            if k < head.len() {
                assert(r[k] == head[k]);
            } else {
                assert(r[k] == rest[k - head.len()]);
            }
        }
        assert forall|k: int| 0 <= k < r.len() - 1 implies (#[trigger] r[k]).1 <= r[k + 1].0 by {
            if k + 1 < head.len() {
                assert(r[k] == head[k] && r[k + 1] == head[k + 1]);
            } else if k + 1 == head.len() {
                assert(r[k] == segs[i]);
                assert(r[k + 1] == rest[0]);
                assert(segs[i].1 <= segs[i + 1].0);
            } else {
                assert(r[k] == rest[k - head.len()]);
                assert(r[k + 1] == rest[k + 1 - head.len()]);
            }
        }
    } else {
        let next = Some(extend_pending(pending, segs[i]));
        assert(pending_fits(b, segs, i + 1, next)) by {
            if i + 1 < segs.len() {
                assert(segs[i].1 <= segs[i + 1].0);
            }
        }
        lemma_merge_from_aligned(d, acronym, b, segs, i + 1, next);
    }
}

/// `r` is a chain of consecutive non-empty segments from `from` to `to`.
pub open spec fn chain(r: Seq<(usize, usize)>, from: int, to: int) -> bool {
    &&& r.len() > 0
    &&& r[0].0 == from
    &&& r.last().1 == to
    &&& forall|k: int| 0 <= k < r.len() ==> (#[trigger] r[k]).0 < r[k].1
    &&& forall|k: int| 0 <= k < r.len() - 1 ==> (#[trigger] r[k]).1 == r[k + 1].0
}

/// Where the segments tile the text, merging from segment `i` on gives a
/// chain from the start of the gathered run, or else of segment `i`, to the
/// end of the text.
pub proof fn lemma_merge_from_chain(
    d: &KDict,
    acronym: bool,
    b: Seq<u8>,
    segs: Seq<(usize, usize)>,
    i: int,
    pending: Option<(usize, usize)>,
    to: int,
)
    requires
        tiles(segs, to),
        0 <= i <= segs.len(),
        pending is Some || i < segs.len(),
        match pending {
            Some(u) => u.0 < u.1 && u.1 == (if i < segs.len() {
                segs[i].0 as int
            } else {
                to
            }),
            None => true,
        },
    ensures
        chain(
            merge_from(d, acronym, b, segs, i, pending),
            match pending {
                Some(u) => u.0 as int,
                None => segs[i].0 as int,
            },
            to,
        ),
    decreases segs.len() - i,
{
    let r = merge_from(d, acronym, b, segs, i, pending);
    if i >= segs.len() {
    } else if known(d, acronym, seg_chars(b, segs[i])) {
        let head = pending_segment(pending).push(segs[i]);
        let rest = merge_from(d, acronym, b, segs, i + 1, None);
        assert(r == head + rest);
        if i + 1 < segs.len() {
            lemma_merge_from_chain(d, acronym, b, segs, i + 1, None, to);
            assert(segs[i].1 == segs[i + 1].0);
            assert(r.last() == rest.last());
        } else {
            assert(rest =~= Seq::<(usize, usize)>::empty());
            assert(segs[i] == segs.last());
            assert(r.last() == segs[i]);
        }
        assert(r[0] == head[0]);
        assert forall|k: int| 0 <= k < r.len() implies (#[trigger] r[k]).0 < r[k].1 by {
            if k < head.len() {
                assert(r[k] == head[k]);
            } else {
                assert(r[k] == rest[k - head.len()]);
            }
        }
        assert forall|k: int| 0 <= k < r.len() - 1 implies (#[trigger] r[k]).1 == r[k + 1].0 by {
            if k + 1 < head.len() {
                assert(r[k] == head[k] && r[k + 1] == head[k + 1]);
            } else if k + 1 == head.len() {
                assert(r[k] == segs[i]);
                assert(r[k + 1] == rest[0]);
            } else {
                assert(r[k] == rest[k - head.len()]);
                assert(r[k + 1] == rest[k + 1 - head.len()]);
            }
        }
    } else {
        let next = Some(extend_pending(pending, segs[i]));
        if i + 1 < segs.len() {
            assert(segs[i].1 == segs[i + 1].0);
        } else {
            assert(segs[i] == segs.last());
        }
        lemma_merge_from_chain(d, acronym, b, segs, i + 1, next, to);
    }
}

/// Merging keeps aligned segments aligned and never adds one; segments that
/// tile the text still tile it afterwards.
pub proof fn lemma_merge_keeps(
    d: &KDict,
    acronym: bool,
    b: Seq<u8>,
    segs: Seq<(usize, usize)>,
    to: int,
)
    requires
        aligned(b, segs),
    ensures
        aligned(b, merge_unknown(d, acronym, b, segs)),
        merge_unknown(d, acronym, b, segs).len() <= segs.len(),
        tiles(segs, to) ==> tiles(merge_unknown(d, acronym, b, segs), to),
{
    lemma_merge_from_aligned(d, acronym, b, segs, 0, None);
    if tiles(segs, to) {
        lemma_merge_from_chain(d, acronym, b, segs, 0, None, to);
    }
}

/// Of every two neighbours, the decoder knows one.
pub open spec fn settled(d: &KDict, acronym: bool, b: Seq<u8>, segs: Seq<(usize, usize)>) -> bool {
    forall|k: int|
        0 <= k < segs.len() - 1 ==> known(d, acronym, seg_chars(b, #[trigger] segs[k])) || known(
            d,
            acronym,
            seg_chars(b, segs[k + 1]),
        )
}

/// What merging gives never holds two unknown neighbours.
pub proof fn lemma_merge_from_settled(
    d: &KDict,
    acronym: bool,
    b: Seq<u8>,
    segs: Seq<(usize, usize)>,
    i: int,
    pending: Option<(usize, usize)>,
)
    requires
        0 <= i <= segs.len(),
    ensures
        settled(d, acronym, b, merge_from(d, acronym, b, segs, i, pending)),
        pending is None && merge_from(d, acronym, b, segs, i, pending).len() > 0 && i < segs.len()
            && known(d, acronym, seg_chars(b, segs[i])) ==> merge_from(
            d,
            acronym,
            b,
            segs,
            i,
            pending,
        )[0] == segs[i],
    decreases segs.len() - i,
{
    let r = merge_from(d, acronym, b, segs, i, pending);
    if i >= segs.len() {
    } else if known(d, acronym, seg_chars(b, segs[i])) {
        lemma_merge_from_settled(d, acronym, b, segs, i + 1, None);
        let head = pending_segment(pending).push(segs[i]);
        let rest = merge_from(d, acronym, b, segs, i + 1, None);
        assert(r == head + rest);
        assert forall|k: int| 0 <= k < r.len() - 1 implies known(
            d,
            acronym,
            seg_chars(b, #[trigger] r[k]),
        ) || known(d, acronym, seg_chars(b, r[k + 1])) by {
            if k + 1 < head.len() {
                assert(r[k + 1] == segs[i]);
            } else if k + 1 == head.len() {
                assert(r[k] == segs[i]);
            } else {
                assert(r[k] == rest[k - head.len()]);
                assert(r[k + 1] == rest[k - head.len() + 1]);
            }
        }
    } else {
        lemma_merge_from_settled(
            d,
            acronym,
            b,
            segs,
            i + 1,
            Some(extend_pending(pending, segs[i])),
        );
    }
}

/// Where no two unknown segments are neighbours, merging changes nothing.
pub proof fn lemma_merge_from_settled_is_identity(
    d: &KDict,
    acronym: bool,
    b: Seq<u8>,
    segs: Seq<(usize, usize)>,
    i: int,
)
    requires
        settled(d, acronym, b, segs),
        0 <= i <= segs.len(),
    ensures
        merge_from(d, acronym, b, segs, i, None) == segs.skip(i),
    decreases segs.len() - i,
{
    let r = merge_from(d, acronym, b, segs, i, None);
    if i >= segs.len() {
        assert(r =~= segs.skip(i));
    } else if known(d, acronym, seg_chars(b, segs[i])) {
        lemma_merge_from_settled_is_identity(d, acronym, b, segs, i + 1);
        assert(pending_segment(None).push(segs[i]) =~= seq![segs[i]]);
        assert(r =~= segs.skip(i));
    } else {
        let run = Some(extend_pending(None, segs[i]));
        assert(run == Some(segs[i]));
        if i + 1 >= segs.len() {
            assert(merge_from(d, acronym, b, segs, i + 1, run) =~= seq![segs[i]]);
            assert(r =~= segs.skip(i));
        } else {
            assert(known(d, acronym, seg_chars(b, segs[i + 1])));
            lemma_merge_from_settled_is_identity(d, acronym, b, segs, i + 2);
            let head = pending_segment(run).push(segs[i + 1]);
            assert(head =~= seq![segs[i], segs[i + 1]]);
            assert(r == merge_from(d, acronym, b, segs, i + 1, run));
            assert(merge_from(d, acronym, b, segs, i + 1, run) == head + merge_from(
                d,
                acronym,
                b,
                segs,
                i + 2,
                None,
            ));
            assert(head + segs.skip(i + 2) =~= segs.skip(i));
        }
    }
}

/// Merging of unknowns is idempotent: merging what a merge gave changes
/// nothing.
pub proof fn lemma_merge_idempotent(
    d: &KDict,
    acronym: bool,
    b: Seq<u8>,
    segs: Seq<(usize, usize)>,
)
    ensures
        merge_unknown(d, acronym, b, merge_unknown(d, acronym, b, segs)) == merge_unknown(
            d,
            acronym,
            b,
            segs,
        ),
{
    let once = merge_unknown(d, acronym, b, segs);
    lemma_merge_from_settled(d, acronym, b, segs, 0, None);
    lemma_merge_from_settled_is_identity(d, acronym, b, once, 0);
    assert(once.skip(0) =~= once);
}

/// Joined without a separator, the first `k` segments of a tiling give the
/// text up to where the last of them ends.
pub proof fn lemma_joined_prefix(b: Seq<u8>, segs: Seq<(usize, usize)>, to: int, k: int)
    requires
        at_boundary(b, 0),
        aligned(b, segs),
        tiles(segs, to),
        1 <= k <= segs.len(),
    ensures
        joined(b, segs, Seq::empty(), k) == chars_between(b, 0, segs[k - 1].1 as int),
    decreases k,
{
    let none = Seq::<char>::empty();
    if k == 1 {
    } else {
        lemma_joined_prefix(b, segs, to, k - 1);
        let mid = segs[k - 2].1 as int;
        let end = segs[k - 1].1 as int;
        assert(segs[k - 2].1 == segs[k - 1].0);
        lemma_chars_between(b, 0, mid);
        lemma_chars_between(b, mid, end);
        lemma_chars_between(b, 0, end);
        let whole = chars_from(b, 0);
        let left = chars_between(b, 0, mid);
        let right = chars_between(b, mid, end);
        let rest = chars_from(b, end);
        assert(whole == left + (right + rest));
        assert(left + (right + rest) =~= (left + right) + rest);
        assert(whole == chars_between(b, 0, end) + rest);
        let both = chars_between(b, 0, end);
        assert(both.len() == (left + right).len());
        assert(both =~= left + right) by {
            assert forall|t: int| 0 <= t < both.len() implies both[t] == (left + right)[t] by {
                assert(whole[t] == (both + rest)[t]);
                assert(whole[t] == ((left + right) + rest)[t]);
            }
        }
        assert(joined(b, segs, none, k) =~= left + right);
    }
}

/// The segments of a tiling, joined with nothing between them, give the
/// text back.
pub proof fn lemma_join_partition(b: Seq<u8>, segs: Seq<(usize, usize)>)
    requires
        at_boundary(b, 0),
        aligned(b, segs),
        tiles(segs, b.len() as int),
    ensures
        join(b, segs, Seq::empty()) == chars_from(b, 0),
{
    lemma_joined_prefix(b, segs, b.len() as int, segs.len() as int);
    lemma_chars_between(b, 0, b.len() as int);
    lemma_chars_from_len(b, b.len() as int);
    assert(chars_between(b, 0, b.len() as int) + Seq::<char>::empty() =~= chars_between(
        b,
        0,
        b.len() as int,
    ));
}

/// The segments that the segmenter finds cut the text, from its first byte
/// to its last, into consecutive non-empty pieces that start and end on
/// character boundaries.
pub proof fn lemma_segmentation_tiles(seg: KhmerSegmenter, text: Seq<char>)
    requires
        utf8_len(text) <= usize::MAX,
    ensures
        match seg.segmentation(text) {
            Some(segs) => aligned(encode_utf8(text), segs) && tiles(segs, utf8_len(text) as int),
            None => true,
        },
{
    let b = encode_utf8(text);
    let cfg = seg.config();
    lemma_chars_from_start(text);
    match seg.dictionary() {
        None => {},
        Some(d) => {
            let dp = decode_table(&d, cfg.enable_repair_mode, cfg.enable_acronym_detection, b);
            lemma_decode_table_ok(&d, cfg.enable_repair_mode, cfg.enable_acronym_detection, b);
            if text.len() == 0 || dp[b.len() as int].prev is None {
            } else {
                lemma_chars_from_len(b, 0);
                let found = path(dp, b.len() as int);
                lemma_path_covers(b, dp, b.len() as int);
                let ruled = apply_rules(b, found);
                lemma_rewrite_from(b, found, 0, b.len() as int);
                lemma_merge_keeps(&d, cfg.enable_acronym_detection, b, ruled, b.len() as int);
            }
        },
    }
}

/// Segmenting only puts separators into the prepared text: with the empty
/// separator, what comes out is the prepared text itself.
pub proof fn lemma_segments_partition(seg: KhmerSegmenter, raw: Seq<char>)
    requires
        utf8_len(seg.prepared(raw)) <= usize::MAX,
    ensures
        seg.segmented(raw, Seq::empty()) == seg.prepared(raw),
{
    let text = seg.prepared(raw);
    lemma_segmentation_tiles(seg, text);
    lemma_chars_from_start(text);
    match seg.segmentation(text) {
        Some(segs) => {
            lemma_join_partition(encode_utf8(text), segs);
        },
        None => {},
    }
}

/// A dependent vowel stands at position `i`, and the decoder, run without
/// repair mode, reaches that position: the vowel starts a segment there
/// with nothing to lean on.
pub open spec fn stray_vowel_at(d: &KDict, acronym: bool, b: Seq<u8>, i: int) -> bool {
    &&& at_boundary(b, i)
    &&& 0 <= i < b.len()
    &&& dependent_vowel_code(chars_from(b, i)[0] as u32)
    &&& decode_table(d, false, acronym, b)[i].cost != INFINITY
}

/// Where the decoder without repair mode, run on from position `i`, ends
/// with a table in which no reached position holds a dependent vowel, the
/// decoder with repair mode ends with the same table.
pub proof fn lemma_repair_idle_from(
    d: &KDict,
    acronym: bool,
    b: Seq<u8>,
    dp: Seq<DpCell>,
    i: int,
    end: Seq<DpCell>,
)
    requires
        table_ok(b, dp),
        at_boundary(b, i),
        0 <= i,
        end == run_from(d, false, acronym, b, dp, i),
        forall|j: int|
            i <= j < b.len() && at_boundary(b, j) && dependent_vowel_code(
                chars_from(b, j)[0] as u32,
            ) ==> (#[trigger] end[j]).cost == INFINITY,
    ensures
        run_from(d, true, acronym, b, dp, i) == end,
    decreases b.len() - i,
{
    if i >= b.len() {
        lemma_chars_from_len(b, i);
    } else {
        lemma_decode_step(b, i);
        let next = i + width_at(b, i);
        let off = step(d, false, acronym, b, dp, i);
        lemma_step_ok(d, false, acronym, b, dp, i);
        lemma_run_ok(d, false, acronym, b, off, next);
        assert(end[i] == dp[i]);
        assert(step(d, true, acronym, b, dp, i) == off);
        lemma_repair_idle_from(d, acronym, b, off, next, end);
    }
}

/// Repair mode on and off give the same table, and so the same segments,
/// for a text in which no dependent vowel stands at the start of a segment.
pub proof fn lemma_repair_mode_idle(d: &KDict, acronym: bool, b: Seq<u8>)
    requires
        at_boundary(b, 0),
        b.len() <= usize::MAX,
        forall|i: int| !stray_vowel_at(d, acronym, b, i),
    ensures
        decode_table(d, true, acronym, b) == decode_table(d, false, acronym, b),
{
    let end = decode_table(d, false, acronym, b);
    assert forall|j: int|
        0 <= j < b.len() && at_boundary(b, j) && dependent_vowel_code(
            chars_from(b, j)[0] as u32,
        ) implies (#[trigger] end[j]).cost == INFINITY by {
        assert(!stray_vowel_at(d, acronym, b, j));
    }
    lemma_repair_idle_from(d, acronym, b, initial_table(b.len()), 0, end);
}

/// Two segmenters that differ in repair mode alone return the same for a
/// text in which no dependent vowel stands at the start of a segment.
pub proof fn lemma_repair_mode_same_output(
    on: KhmerSegmenter,
    off: KhmerSegmenter,
    raw: Seq<char>,
    sep: Seq<char>,
)
    requires
        on.dictionary() == off.dictionary(),
        on.config().enable_repair_mode,
        !off.config().enable_repair_mode,
        on.config() == (SegmenterConfig { enable_repair_mode: true, ..off.config() }),
        utf8_len(off.prepared(raw)) <= usize::MAX,
        match off.dictionary() {
            Some(d) => forall|i: int|
                !stray_vowel_at(
                    &d,
                    off.config().enable_acronym_detection,
                    encode_utf8(off.prepared(raw)),
                    i,
                ),
            None => true,
        },
    ensures
        on.segmented(raw, sep) == off.segmented(raw, sep),
{
    let text = off.prepared(raw);
    assert(on.prepared(raw) == text);
    lemma_chars_from_start(text);
    match off.dictionary() {
        Some(d) => {
            lemma_repair_mode_idle(
                &d,
                off.config().enable_acronym_detection,
                encode_utf8(text),
            );
        },
        None => {},
    }
}

/// A text that the decoder takes in one step from its start to its end, or
/// whose end it does not reach, comes back without a separator in it.
pub proof fn lemma_one_step_unsegmented(seg: KhmerSegmenter, raw: Seq<char>, sep: Seq<char>)
    requires
        utf8_len(seg.prepared(raw)) <= usize::MAX,
        match seg.dictionary() {
            Some(d) => {
                let end = decode_table(
                    &d,
                    seg.config().enable_repair_mode,
                    seg.config().enable_acronym_detection,
                    encode_utf8(seg.prepared(raw)),
                )[utf8_len(seg.prepared(raw)) as int];
                end.prev is None || end.prev == Some(0usize)
            },
            None => true,
        },
    ensures
        seg.segmented(raw, sep) == seg.prepared(raw),
{
    let text = seg.prepared(raw);
    let b = encode_utf8(text);
    let n = b.len() as int;
    let cfg = seg.config();
    lemma_chars_from_start(text);
    lemma_chars_from_len(b, 0);
    if seg.dictionary() is Some && text.len() > 0 {
        let d = seg.dictionary()->0;
        let dp = decode_table(&d, cfg.enable_repair_mode, cfg.enable_acronym_detection, b);
        lemma_decode_table_ok(&d, cfg.enable_repair_mode, cfg.enable_acronym_detection, b);
        if dp[n].prev == Some(0usize) {
            let whole = (0usize, n as usize);
            let one = Seq::<(usize, usize)>::empty().push(whole);
            assert(path(dp, 0) =~= Seq::<(usize, usize)>::empty());
            assert(path(dp, n) =~= one);
            assert(rewrite_from(b, one, 1) == one);
            assert(apply_rules(b, one) == one);
            assert(merge_from(&d, cfg.enable_acronym_detection, b, one, 1, None) =~= Seq::<
                (usize, usize),
            >::empty());
            assert(merge_from(&d, cfg.enable_acronym_detection, b, one, 1, Some(whole)) =~= one);
            assert(pending_segment(None).push(whole) =~= one);
            assert(merge_unknown(&d, cfg.enable_acronym_detection, b, one) =~= one);
            assert(seg.segmentation(text) == Some(one));
            assert(join(b, one, sep) == seg_chars(b, whole));
            assert(b.subrange(0, n) =~= b);
            encode_utf8_decode_utf8(text);
        }
    }
}

/// A word of the dictionary, given alone, comes back whole: without a
/// separator in it, unless a way of several steps through it costs less
/// than the word itself. Left out are the word whose cost is infinite or
/// not a number, and, in repair mode, the word that starts with a dependent
/// vowel: for these the decoder does not consult the dictionary.
pub proof fn lemma_dictionary_word_whole(
    seg: KhmerSegmenter,
    raw: Seq<char>,
    sep: Seq<char>,
    c: u32,
)
    requires
        seg.dictionary() is Some,
        utf8_len(seg.prepared(raw)) <= usize::MAX,
        utf8_len(seg.prepared(raw)) <= seg.dictionary()->0.spec_header().max_word_length,
        seg.dictionary()->0.lookup_spec(encode_utf8(seg.prepared(raw))) == Some(c),
        lt_spec(add_spec(ZERO, c), INFINITY),
        seg.prepared(raw).len() > 0 ==> !(seg.config().enable_repair_mode
            && dependent_vowel_code(seg.prepared(raw)[0] as u32)),
        forall|steps: Seq<(int, u32)>|
            steps.len() >= 2 && #[trigger] is_way(
                &seg.dictionary()->0,
                seg.config().enable_repair_mode,
                seg.config().enable_acronym_detection,
                encode_utf8(seg.prepared(raw)),
                0,
                steps,
            ) && way_end(0, steps) == utf8_len(seg.prepared(raw)) ==> !lt_spec(
                way_cost(ZERO, steps),
                add_spec(ZERO, c),
            ),
    ensures
        seg.segmented(raw, sep) == seg.prepared(raw),
{
    let text = seg.prepared(raw);
    let b = encode_utf8(text);
    lemma_chars_from_start(text);
    lemma_chars_from_len(b, 0);
    if text.len() > 0 {
        lemma_word_in_one_step(
            &seg.dictionary()->0,
            seg.config().enable_repair_mode,
            seg.config().enable_acronym_detection,
            b,
            c,
        );
        lemma_one_step_unsegmented(seg, raw, sep);
    }
}

/// A word of the dictionary, given alone, comes back whole where it costs
/// less as one word than every way of several steps through it. Nothing
/// is asked of the cost itself: a word whose cost is infinite or not a
/// number costs less than nothing. In repair mode the word must not start
/// with a dependent vowel, for which the decoder does not consult the
/// dictionary.
pub proof fn lemma_dictionary_word_alone(
    seg: KhmerSegmenter,
    raw: Seq<char>,
    sep: Seq<char>,
    c: u32,
)
    requires
        seg.dictionary() is Some,
        utf8_len(seg.prepared(raw)) <= usize::MAX,
        utf8_len(seg.prepared(raw)) <= seg.dictionary()->0.spec_header().max_word_length,
        seg.dictionary()->0.lookup_spec(encode_utf8(seg.prepared(raw))) == Some(c),
        seg.prepared(raw).len() > 0 ==> !(seg.config().enable_repair_mode
            && dependent_vowel_code(seg.prepared(raw)[0] as u32)),
        forall|steps: Seq<(int, u32)>|
            steps.len() >= 2 && #[trigger] is_way(
                &seg.dictionary()->0,
                seg.config().enable_repair_mode,
                seg.config().enable_acronym_detection,
                encode_utf8(seg.prepared(raw)),
                0,
                steps,
            ) && way_end(0, steps) == utf8_len(seg.prepared(raw)) ==> lt_spec(
                add_spec(ZERO, c),
                way_cost(ZERO, steps),
            ),
    ensures
        seg.segmented(raw, sep) == seg.prepared(raw),
{
    let text = seg.prepared(raw);
    let b = encode_utf8(text);
    lemma_chars_from_start(text);
    lemma_chars_from_len(b, 0);
    if text.len() > 0 {
        lemma_word_not_cut(
            &seg.dictionary()->0,
            seg.config().enable_repair_mode,
            seg.config().enable_acronym_detection,
            b,
            c,
        );
    }
    lemma_one_step_unsegmented(seg, raw, sep);
}

/// Dictionaries that agree hold the same segments for known and merge
/// alike.
pub proof fn lemma_merge_agrees(
    d1: &KDict,
    d2: &KDict,
    acronym: bool,
    b: Seq<u8>,
    segs: Seq<(usize, usize)>,
    i: int,
    pending: Option<(usize, usize)>,
)
    requires
        d1.agrees_with(d2),
    ensures
        merge_from(d1, acronym, b, segs, i, pending) == merge_from(
            d2,
            acronym,
            b,
            segs,
            i,
            pending,
        ),
    decreases segs.len() - i,
{
    if 0 <= i < segs.len() {
        let c = seg_chars(b, segs[i]);
        assert(d1.lookup_spec(encode_utf8(c)) == d2.lookup_spec(encode_utf8(c)));
        assert(known(d1, acronym, c) == known(d2, acronym, c));
        lemma_merge_agrees(d1, d2, acronym, b, segs, i + 1, None);
        lemma_merge_agrees(
            d1,
            d2,
            acronym,
            b,
            segs,
            i + 1,
            Some(extend_pending(pending, segs[i])),
        );
    }
}

/// Two segmenters with the same configuration, over dictionaries that give
/// every word the same cost or none and agree on the costs of unknowns and
/// acronyms and on the longest word, return the same for every text.
pub proof fn lemma_same_words_same_output(
    one: KhmerSegmenter,
    other: KhmerSegmenter,
    raw: Seq<char>,
    sep: Seq<char>,
)
    requires
        one.config() == other.config(),
        one.dictionary() is Some,
        other.dictionary() is Some,
        one.dictionary()->0.agrees_with(&other.dictionary()->0),
    ensures
        one.segmented(raw, sep) == other.segmented(raw, sep),
{
    let text = one.prepared(raw);
    let b = encode_utf8(text);
    let cfg = one.config();
    let d1 = one.dictionary()->0;
    let d2 = other.dictionary()->0;
    lemma_tables_agree(&d1, &d2, cfg.enable_repair_mode, cfg.enable_acronym_detection, b);
    let dp = decode_table(&d1, cfg.enable_repair_mode, cfg.enable_acronym_detection, b);
    let ruled = apply_rules(b, path(dp, b.len() as int));
    lemma_merge_agrees(&d1, &d2, cfg.enable_acronym_detection, b, ruled, 0, None);
}

/// How colliding words share out the slots of the table plays no part in
/// what the segmenter returns: two segmenters with the same configuration,
/// over dictionaries that are laid out for probing, store the same words at
/// the same costs and have the same costs for unknowns and acronyms and the
/// same longest word, return the same for every text.
pub proof fn lemma_layout_plays_no_part(
    one: KhmerSegmenter,
    other: KhmerSegmenter,
    raw: Seq<char>,
    sep: Seq<char>,
)
    requires
        one.config() == other.config(),
        one.dictionary() is Some,
        other.dictionary() is Some,
        one.dictionary()->0.wf(),
        other.dictionary()->0.wf(),
        one.dictionary()->0.laid_out(),
        other.dictionary()->0.laid_out(),
        forall|word: Seq<u8>, c: u32|
            #[trigger] one.dictionary()->0.holds(word, c) == other.dictionary()->0.holds(word, c),
        one.dictionary()->0.spec_header().default_cost
            == other.dictionary()->0.spec_header().default_cost,
        one.dictionary()->0.spec_header().unknown_cost
            == other.dictionary()->0.spec_header().unknown_cost,
        one.dictionary()->0.spec_header().max_word_length
            == other.dictionary()->0.spec_header().max_word_length,
    ensures
        one.segmented(raw, sep) == other.segmented(raw, sep),
{
    let d1 = one.dictionary()->0;
    let d2 = other.dictionary()->0;
    d1.lemma_layouts_agree(&d2);
    lemma_same_words_same_output(one, other, raw, sep);
}

} // verus!
