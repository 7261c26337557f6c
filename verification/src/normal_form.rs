//! When normalising twice is normalising once.
//!
//! The second pass reads its own result as it read the text, cluster by
//! cluster, unless a subscript marker that carries nothing has come to
//! stand before a base: read again, it carries that base, and two clusters
//! become one. The result stays as it is where the joined cluster is in
//! canonical order already. The first pass leaves a text alone that holds no
//! zero-width character and no vowel in two-character spelling; a normal
//! form never holds the former. Together they make the normal form of a
//! text its own normal form, for the texts that these two accidents spare.

use crate::normalization::{
    arranged, by_priority, carrying_part, char_type, flushed, fuse, fuse_from,
    lemma_parts_chars_concat, lemma_parts_chars_single, lone_part, normalize, part_chars,
    parts_chars, priority, reorder, reorder_from, select, zero_width, Part, BASE, COENG, OTHER,
};
use vstd::prelude::*;

verus! {

/// The part is what the second pass makes of its first character: a
/// subscript marker, with the base it carries if it carries one, or one
/// character alone.
pub open spec fn part_ok(p: Part) -> bool {
    &&& p.kind == char_type(p.c1 as u32)
    &&& p.kind != OTHER
    &&& match p.c2 {
        Some(b) => p.kind == COENG && char_type(b as u32) == BASE,
        None => true,
    }
}

/// A cluster as the second pass gathers it: a base or a subscript marker
/// first, and no base behind it.
pub open spec fn clean(cl: Seq<Part>) -> bool {
    forall|j: int|
        0 <= j < cl.len() ==> {
            &&& part_ok(#[trigger] cl[j])
            &&& (j == 0 ==> cl[j].kind == BASE || cl[j].kind == COENG)
            &&& (j > 0 ==> cl[j].kind != BASE)
        }
}

/// The last part of the run is a subscript marker that carries nothing.
pub open spec fn ends_bare(ps: Seq<Part>) -> bool {
    ps.len() > 0 && ps.last().kind == COENG && ps.last().c2 is None
}

/// A flush puts the run out as it stands: its canonical order shows the
/// same characters.
pub open spec fn in_order(h: Seq<Part>) -> bool {
    flushed(h) == parts_chars(h)
}

/// The cluster that a second reading holds after the characters of the
/// cluster `a`, in canonical order, when it held `h` before them. A base at
/// the head of `a` ends `h`, unless `h` ends with a subscript marker that
/// carries nothing: that marker then carries the base, and the two clusters
/// become one.
pub open spec fn reread(h: Seq<Part>, a: Seq<Part>) -> Seq<Part> {
    if a.len() > 0 && a[0].kind == BASE {
        if ends_bare(h) {
            h.drop_last().push(carrying_part(h.last().c1, a[0].c1)) + a.skip(1)
        } else {
            a
        }
    } else {
        h + a
    }
}

/// Where the characters of `a` make a second reading put out `h`, it puts
/// `h` out as it stands.
pub open spec fn reread_keeps(h: Seq<Part>, a: Seq<Part>) -> bool {
    a.len() > 0 && a[0].kind == BASE && !ends_bare(h) ==> in_order(h)
}

/// From index `k` on, with the cluster `cl` in hand, a second reading of
/// what the second pass gives changes no order. `h` is the cluster that the
/// second reading holds when it comes to the characters of `cl`. A second
/// reading gathers the same clusters as the first, except where a cluster
/// ends, in canonical order, with a subscript marker that carries nothing
/// and a base follows: there it joins two clusters, and the text is steady
/// only if the joined cluster is in canonical order as it stands.
pub open spec fn steady_from(s: Seq<char>, k: int, cl: Seq<Part>, h: Seq<Part>) -> bool
    decreases s.len() - k,
{
    let a = arranged(cl);
    if k < 0 || k >= s.len() {
        reread_keeps(h, a) && in_order(reread(h, a))
    } else {
        let c = s[k];
        let kind = char_type(c as u32);
        if kind == BASE {
            reread_keeps(h, a) && steady_from(
                s,
                k + 1,
                Seq::empty().push(lone_part(c)),
                reread(h, a),
            )
        } else if kind == COENG {
            if k + 1 < s.len() && char_type(s[k + 1] as u32) == BASE {
                steady_from(s, k + 2, cl.push(carrying_part(c, s[k + 1])), h)
            } else {
                steady_from(s, k + 1, cl.push(lone_part(c)), h)
            }
        } else if kind != OTHER {
            if cl.len() > 0 {
                steady_from(s, k + 1, cl.push(lone_part(c)), h)
            } else {
                steady_from(s, k + 1, cl, h)
            }
        } else {
            reread_keeps(h, a) && in_order(reread(h, a)) && steady_from(
                s,
                k + 1,
                Seq::empty(),
                Seq::empty(),
            )
        }
    }
}

/// A second reading of what the second pass makes of `s` changes no order.
pub open spec fn steady(s: Seq<char>) -> bool {
    steady_from(s, 0, Seq::empty(), Seq::empty())
}

/// What a second reading gives for `y` with the cluster `h` in hand. Where
/// `h` ends with a subscript marker that carries nothing, the marker is
/// still to be read: whether it carries a base is for `y` to say.
pub open spec fn resume(y: Seq<char>, h: Seq<Part>) -> Seq<char> {
    if ends_bare(h) {
        reorder_from(seq![h.last().c1] + y, 0, h.drop_last())
    } else {
        reorder_from(y, 0, h)
    }
}

/// Every part of the run is in order, and none is a base.
pub open spec fn tail_ok(t: Seq<Part>) -> bool {
    forall|j: int| 0 <= j < t.len() ==> part_ok(#[trigger] t[j]) && t[j].kind != BASE
}

/// Every part of the run is in order.
pub open spec fn parts_ok(g: Seq<Part>) -> bool {
    forall|j: int| 0 <= j < g.len() ==> part_ok(#[trigger] g[j])
}

/// Every subscript marker of `s` stands directly before a base.
pub open spec fn carried(s: Seq<char>) -> bool {
    forall|k: int|
        0 <= k < s.len() && char_type(#[trigger] s[k] as u32) == COENG ==> k + 1 < s.len()
            && char_type(s[k + 1] as u32) == BASE
}

/// `s` holds no zero-width character.
pub open spec fn plain(s: Seq<char>) -> bool {
    forall|k: int| 0 <= k < s.len() ==> !zero_width(#[trigger] s[k] as u32)
}

/// `s` holds no vowel in two-character spelling: no E directly before II
/// or AA.
pub open spec fn unsplit(s: Seq<char>) -> bool {
    forall|k: int|
        0 <= k < s.len() - 1 ==> !(#[trigger] s[k] as u32 == 0x17C1 && (s[k + 1] as u32 == 0x17B8
            || s[k + 1] as u32 == 0x17B6))
}

/// No part of the run holds a zero-width character.
pub open spec fn plain_parts(ps: Seq<Part>) -> bool {
    forall|j: int|
        0 <= j < ps.len() ==> !zero_width((#[trigger] ps[j]).c1 as u32) && match ps[j].c2 {
            Some(b) => !zero_width(b as u32),
            None => true,
        }
}

/// The first pass leaves alone what holds nothing for it to drop or fuse.
pub proof fn lemma_fuse_from_fused(s: Seq<char>, k: int)
    requires
        plain(s),
        unsplit(s),
        0 <= k <= s.len(),
    ensures
        fuse_from(s, k) == s.skip(k),
    decreases s.len() - k,
{
    if k < s.len() {
        lemma_fuse_from_fused(s, k + 1);
        assert(!zero_width(s[k] as u32));
        assert(seq![s[k]] + s.skip(k + 1) =~= s.skip(k));
    } else {
        assert(s.skip(k) =~= Seq::<char>::empty());
    }
}

/// What the first pass gives holds no zero-width character.
pub proof fn lemma_fuse_from_plain(s: Seq<char>, k: int)
    ensures
        plain(fuse_from(s, k)),
    decreases s.len() - k,
{
    if 0 <= k < s.len() {
        lemma_fuse_from_plain(s, k + 1);
        if k + 1 < s.len() {
            lemma_fuse_from_plain(s, k + 2);
        }
        let out = fuse_from(s, k);
        assert forall|t: int| 0 <= t < out.len() implies !zero_width(#[trigger] out[t] as u32) by {
            if zero_width(s[k] as u32) {
            } else if s[k] as u32 == 0x17C1 && k + 1 < s.len() && (s[k + 1] as u32 == 0x17B8
                || s[k + 1] as u32 == 0x17B6) {
                if t > 0 {
                    assert(out[t] == fuse_from(s, k + 2)[t - 1]);
                }
            } else {
                if t > 0 {
                    assert(out[t] == fuse_from(s, k + 1)[t - 1]);
                }
            }
        }
    }
}

/// Going on from index `k + j` of a text is going on from index `j` of what
/// stands from `k` on.
pub proof fn lemma_reorder_shift(x: Seq<char>, k: int, j: int, cl: Seq<Part>)
    requires
        0 <= k <= x.len(),
        0 <= j,
    ensures
        reorder_from(x, k + j, cl) == reorder_from(x.skip(k), j, cl),
    decreases x.len() - k - j,
{
    let y = x.skip(k);
    if k + j >= x.len() {
    } else {
        let c = x[k + j];
        assert(y[j] == c);
        let kind = char_type(c as u32);
        if kind == BASE {
            lemma_reorder_shift(x, k, j + 1, Seq::empty().push(lone_part(c)));
        } else if kind == COENG {
            if k + j + 1 < x.len() && char_type(x[k + j + 1] as u32) == BASE {
                assert(y[j + 1] == x[k + j + 1]);
                lemma_reorder_shift(x, k, j + 2, cl.push(carrying_part(c, x[k + j + 1])));
            } else {
                if j + 1 < y.len() {
                    assert(y[j + 1] == x[k + j + 1]);
                }
                lemma_reorder_shift(x, k, j + 1, cl.push(lone_part(c)));
            }
        } else if kind != OTHER {
            if cl.len() > 0 {
                lemma_reorder_shift(x, k, j + 1, cl.push(lone_part(c)));
            } else {
                lemma_reorder_shift(x, k, j + 1, cl);
            }
        } else {
            lemma_reorder_shift(x, k, j + 1, Seq::empty());
        }
    }
}

/// Nothing is selected from nothing, and nothing put out for it.
pub proof fn lemma_select_empty(p: i32)
    ensures
        select(Seq::empty(), p) == Seq::<Part>::empty(),
        by_priority(Seq::empty()) == Seq::<Part>::empty(),
        flushed(Seq::empty()) == Seq::<char>::empty(),
{
    let e = Seq::<Part>::empty();
    assert(select(e, 10) =~= e);
    assert(select(e, 15) =~= e);
    assert(select(e, 20) =~= e);
    assert(select(e, 30) =~= e);
    assert(select(e, 40) =~= e);
    assert(select(e, 50) =~= e);
    assert(select(e, 100) =~= e);
    assert(select(e, p) =~= e);
    assert(by_priority(e) =~= e);
    assert(arranged(e) =~= e);
    assert(parts_chars(e) =~= Seq::<char>::empty());
}

/// The parts of priority `p` of two runs are those of the one and those of
/// the other.
pub proof fn lemma_select_concat(a: Seq<Part>, b: Seq<Part>, p: i32)
    ensures
        select(a + b, p) == select(a, p) + select(b, p),
    decreases b.len(),
{
    if b.len() == 0 {
        assert(a + b =~= a);
        assert(select(b, p) =~= Seq::<Part>::empty());
        assert(select(a, p) + select(b, p) =~= select(a, p));
    } else {
        lemma_select_concat(a, b.drop_last(), p);
        assert((a + b).drop_last() =~= a + b.drop_last());
        assert((a + b).last() == b.last());
        if priority(b.last()) == p {
            assert(select(a + b, p) =~= select(a, p) + select(b, p));
        }
    }
}

/// Every selected part has the priority asked for and comes from the run.
pub proof fn lemma_select_members(ps: Seq<Part>, p: i32)
    ensures
        select(ps, p).len() <= ps.len(),
        forall|j: int|
            0 <= j < select(ps, p).len() ==> priority(#[trigger] select(ps, p)[j]) == p
                && ps.contains(select(ps, p)[j]),
    decreases ps.len(),
{
    if ps.len() > 0 {
        let front = ps.drop_last();
        lemma_select_members(front, p);
        let sel = select(ps, p);
        assert forall|j: int| 0 <= j < sel.len() implies priority(#[trigger] sel[j]) == p
            && ps.contains(sel[j]) by {
            if j < select(front, p).len() {
                let x = select(front, p)[j];
                assert(sel[j] == x);
                assert(front.contains(x));
                let t = choose|t: int| 0 <= t < front.len() && front[t] == x;
                assert(ps[t] == x);
            } else {
                assert(sel[j] == ps.last());
                assert(ps[ps.len() - 1] == ps.last());
            }
        }
    }
}

/// Selecting from a run in which every part has priority `p`: all of it
/// for `p`, nothing for another priority.
pub proof fn lemma_select_uniform(ps: Seq<Part>, p: i32, q: i32)
    requires
        forall|j: int| 0 <= j < ps.len() ==> priority(#[trigger] ps[j]) == p,
    ensures
        select(ps, q) == (if p == q {
            ps
        } else {
            Seq::empty()
        }),
    decreases ps.len(),
{
    if ps.len() == 0 {
        assert(select(ps, q) =~= Seq::<Part>::empty());
        assert(ps =~= Seq::<Part>::empty());
    } else {
        lemma_select_uniform(ps.drop_last(), p, q);
        assert(priority(ps.last()) == p);
        if p == q {
            assert(ps.drop_last().push(ps.last()) =~= ps);
        }
    }
}

/// Sorting by priority keeps, for each priority, the parts that have it.
pub proof fn lemma_select_sorted(ps: Seq<Part>, q: i32)
    ensures
        select(by_priority(ps), q) == (if q == 10 || q == 15 || q == 20 || q == 30 || q == 40
            || q == 50 || q == 100 {
            select(ps, q)
        } else {
            Seq::empty()
        }),
{
    let s10 = select(ps, 10);
    let s15 = select(ps, 15);
    let s20 = select(ps, 20);
    let s30 = select(ps, 30);
    let s40 = select(ps, 40);
    let s50 = select(ps, 50);
    let s100 = select(ps, 100);
    lemma_select_members(ps, 10);
    lemma_select_members(ps, 15);
    lemma_select_members(ps, 20);
    lemma_select_members(ps, 30);
    lemma_select_members(ps, 40);
    lemma_select_members(ps, 50);
    lemma_select_members(ps, 100);
    lemma_select_uniform(s10, 10, q);
    lemma_select_uniform(s15, 15, q);
    lemma_select_uniform(s20, 20, q);
    lemma_select_uniform(s30, 30, q);
    lemma_select_uniform(s40, 40, q);
    lemma_select_uniform(s50, 50, q);
    lemma_select_uniform(s100, 100, q);
    lemma_select_concat(s10, s15, q);
    lemma_select_concat(s10 + s15, s20, q);
    lemma_select_concat(s10 + s15 + s20, s30, q);
    lemma_select_concat(s10 + s15 + s20 + s30, s40, q);
    lemma_select_concat(s10 + s15 + s20 + s30 + s40, s50, q);
    lemma_select_concat(s10 + s15 + s20 + s30 + s40 + s50, s100, q);
    let e = Seq::<Part>::empty();
    assert(select(by_priority(ps), q) =~= select(s10, q) + select(s15, q) + select(s20, q)
        + select(s30, q) + select(s40, q) + select(s50, q) + select(s100, q));
    assert(e + e =~= e);
    if q == 10 {
        assert(s10 + e + e + e + e + e + e =~= s10);
    } else if q == 15 {
        assert(e + s15 + e + e + e + e + e =~= s15);
    } else if q == 20 {
        assert(e + e + s20 + e + e + e + e =~= s20);
    } else if q == 30 {
        assert(e + e + e + s30 + e + e + e =~= s30);
    } else if q == 40 {
        assert(e + e + e + e + s40 + e + e =~= s40);
    } else if q == 50 {
        assert(e + e + e + e + e + s50 + e =~= s50);
    } else if q == 100 {
        assert(e + e + e + e + e + e + s100 =~= s100);
    } else {
        assert(e + e + e + e + e + e + e =~= e);
    }
}

/// Sorting what is sorted changes nothing.
pub proof fn lemma_by_priority_idempotent(ps: Seq<Part>)
    ensures
        by_priority(by_priority(ps)) == by_priority(ps),
{
    lemma_select_sorted(ps, 10);
    lemma_select_sorted(ps, 15);
    lemma_select_sorted(ps, 20);
    lemma_select_sorted(ps, 30);
    lemma_select_sorted(ps, 40);
    lemma_select_sorted(ps, 50);
    lemma_select_sorted(ps, 100);
}

/// A run holds at least one part of a priority that one of its parts has.
pub proof fn lemma_select_finds(ps: Seq<Part>, j: int)
    requires
        0 <= j < ps.len(),
    ensures
        select(ps, priority(ps[j])).len() > 0,
    decreases ps.len(),
{
    let p = priority(ps[j]);
    if j == ps.len() - 1 {
        assert(ps.last() == ps[j]);
    } else {
        assert(ps.drop_last()[j] == ps[j]);
        lemma_select_finds(ps.drop_last(), j);
    }
}

/// Every part of the sorted run is a part of the run.
pub proof fn lemma_by_priority_members(ps: Seq<Part>)
    ensures
        forall|j: int| 0 <= j < by_priority(ps).len() ==> ps.contains(#[trigger] by_priority(ps)[j]),
{
    let s10 = select(ps, 10);
    let s15 = select(ps, 15);
    let s20 = select(ps, 20);
    let s30 = select(ps, 30);
    let s40 = select(ps, 40);
    let s50 = select(ps, 50);
    let s100 = select(ps, 100);
    lemma_select_members(ps, 10);
    lemma_select_members(ps, 15);
    lemma_select_members(ps, 20);
    lemma_select_members(ps, 30);
    lemma_select_members(ps, 40);
    lemma_select_members(ps, 50);
    lemma_select_members(ps, 100);
    let bp = by_priority(ps);
    assert forall|j: int| 0 <= j < bp.len() implies ps.contains(#[trigger] bp[j]) by {
        let a = s10.len();
        let b = a + s15.len();
        let c = b + s20.len();
        let d = c + s30.len();
        let e = d + s40.len();
        let f = e + s50.len();
        if j < a {
            assert(bp[j] == s10[j]);
        } else if j < b {
            assert(bp[j] == s15[j - a]);
        } else if j < c {
            assert(bp[j] == s20[j - b]);
        } else if j < d {
            assert(bp[j] == s30[j - c]);
        } else if j < e {
            assert(bp[j] == s40[j - d]);
        } else if j < f {
            assert(bp[j] == s50[j - e]);
        } else {
            assert(bp[j] == s100[j - f]);
        }
    }
}

/// The characters of parts without zero-width characters hold none.
pub proof fn lemma_parts_chars_plain(ps: Seq<Part>)
    requires
        plain_parts(ps),
    ensures
        plain(parts_chars(ps)),
    decreases ps.len(),
{
    if ps.len() > 0 {
        let front = ps.drop_last();
        assert(plain_parts(front)) by {
            assert forall|j: int| 0 <= j < front.len() implies !zero_width(
                (#[trigger] front[j]).c1 as u32,
            ) && match front[j].c2 {
                Some(b) => !zero_width(b as u32),
                None => true,
            } by {
                assert(front[j] == ps[j]);
            }
        }
        lemma_parts_chars_plain(front);
        let last = ps.last();
        assert(last == ps[ps.len() - 1]);
        let out = parts_chars(ps);
        assert forall|t: int| 0 <= t < out.len() implies !zero_width(#[trigger] out[t] as u32) by {
            let head = parts_chars(front);
            if t < head.len() {
                assert(out[t] == head[t]);
            } else {
                assert(out[t] == part_chars(last)[t - head.len()]);
            }
        }
    }
}

/// What a cluster without zero-width characters gives holds none.
pub proof fn lemma_flushed_plain(cl: Seq<Part>)
    requires
        plain_parts(cl),
    ensures
        plain(flushed(cl)),
{
    let a = arranged(cl);
    assert(plain_parts(a)) by {
        assert forall|j: int| 0 <= j < a.len() implies !zero_width((#[trigger] a[j]).c1 as u32)
            && match a[j].c2 {
            Some(b) => !zero_width(b as u32),
            None => true,
        } by {
            if cl.len() > 0 && cl[0].kind == BASE {
                let rest = cl.skip(1);
                lemma_by_priority_members(rest);
                if j > 0 {
                    let x = by_priority(rest)[j - 1];
                    assert(a[j] == x);
                    assert(rest.contains(x));
                    let t = choose|t: int| 0 <= t < rest.len() && rest[t] == x;
                    assert(rest[t] == cl[t + 1]);
                } else {
                    assert(a[j] == cl[0]);
                }
            } else {
                lemma_by_priority_members(cl);
                let x = a[j];
                assert(cl.contains(x));
                let t = choose|t: int| 0 <= t < cl.len() && cl[t] == x;
                assert(cl[t] == x);
            }
        }
    }
    lemma_parts_chars_plain(a);
}

/// The second pass brings no zero-width character into a text.
pub proof fn lemma_reorder_plain(s: Seq<char>, k: int, cl: Seq<Part>)
    requires
        plain(s),
        plain_parts(cl),
        0 <= k,
    ensures
        plain(reorder_from(s, k, cl)),
    decreases s.len() - k,
{
    let out = reorder_from(s, k, cl);
    lemma_flushed_plain(cl);
    let head = flushed(cl);
    if k >= s.len() {
    } else {
        let c = s[k];
        let kind = char_type(c as u32);
        assert(!zero_width(c as u32));
        if kind == BASE {
            let next = Seq::<Part>::empty().push(lone_part(c));
            lemma_reorder_plain(s, k + 1, next);
            let rest = reorder_from(s, k + 1, next);
            assert forall|t: int| 0 <= t < out.len() implies !zero_width(
                #[trigger] out[t] as u32,
            ) by {
                if t < head.len() {
                    assert(out[t] == head[t]);
                } else {
                    assert(out[t] == rest[t - head.len()]);
                }
            }
        } else if kind == COENG {
            if k + 1 < s.len() && char_type(s[k + 1] as u32) == BASE {
                assert(!zero_width(s[k + 1] as u32));
                let next = cl.push(carrying_part(c, s[k + 1]));
                assert(plain_parts(next)) by {
                    assert forall|j: int| 0 <= j < next.len() implies !zero_width(
                        (#[trigger] next[j]).c1 as u32,
                    ) && match next[j].c2 {
                        Some(b) => !zero_width(b as u32),
                        None => true,
                    } by {
                        if j < cl.len() {
                            assert(next[j] == cl[j]);
                        }
                    }
                }
                lemma_reorder_plain(s, k + 2, next);
            } else {
                let next = cl.push(lone_part(c));
                assert(plain_parts(next)) by {
                    assert forall|j: int| 0 <= j < next.len() implies !zero_width(
                        (#[trigger] next[j]).c1 as u32,
                    ) && match next[j].c2 {
                        Some(b) => !zero_width(b as u32),
                        None => true,
                    } by {
                        if j < cl.len() {
                            assert(next[j] == cl[j]);
                        }
                    }
                }
                lemma_reorder_plain(s, k + 1, next);
            }
        } else if kind != OTHER {
            if cl.len() > 0 {
                let next = cl.push(lone_part(c));
                assert(plain_parts(next)) by {
                    assert forall|j: int| 0 <= j < next.len() implies !zero_width(
                        (#[trigger] next[j]).c1 as u32,
                    ) && match next[j].c2 {
                        Some(b) => !zero_width(b as u32),
                        None => true,
                    } by {
                        if j < cl.len() {
                            assert(next[j] == cl[j]);
                        }
                    }
                }
                lemma_reorder_plain(s, k + 1, next);
            } else {
                lemma_reorder_plain(s, k + 1, cl);
                let rest = reorder_from(s, k + 1, cl);
                assert forall|t: int| 0 <= t < out.len() implies !zero_width(
                    #[trigger] out[t] as u32,
                ) by {
                    if t > 0 {
                        assert(out[t] == rest[t - 1]);
                    }
                }
            }
        } else {
            lemma_reorder_plain(s, k + 1, Seq::empty());
            let rest = reorder_from(s, k + 1, Seq::empty());
            assert forall|t: int| 0 <= t < out.len() implies !zero_width(
                #[trigger] out[t] as u32,
            ) by {
                if t < head.len() {
                    assert(out[t] == head[t]);
                } else if t == head.len() {
                    assert(out[t] == c);
                } else {
                    assert(out[t] == rest[t - head.len() - 1]);
                }
            }
        }
    }
}

/// A normal form holds no zero-width character.
pub proof fn lemma_normalize_plain(t: Seq<char>)
    ensures
        plain(normalize(t)),
{
    lemma_fuse_from_plain(t, 0);
    lemma_reorder_plain(fuse(t), 0, Seq::empty());
}

/// Sorting a run of parts without bases gives such a run; and where the run
/// starts with a subscript marker, so does the sorted run.
pub proof fn lemma_by_priority_clean(ps: Seq<Part>)
    requires
        forall|j: int| 0 <= j < ps.len() ==> part_ok(#[trigger] ps[j]) && ps[j].kind != BASE,
    ensures
        forall|j: int|
            0 <= j < by_priority(ps).len() ==> part_ok(#[trigger] by_priority(ps)[j])
                && by_priority(ps)[j].kind != BASE,
        ps.len() > 0 && ps[0].kind == COENG ==> by_priority(ps).len() > 0 && by_priority(
            ps,
        )[0].kind == COENG,
{
    let s10 = select(ps, 10);
    let s15 = select(ps, 15);
    let s20 = select(ps, 20);
    lemma_select_members(ps, 10);
    lemma_select_members(ps, 15);
    lemma_select_members(ps, 20);
    lemma_by_priority_members(ps);
    let bp = by_priority(ps);
    assert forall|j: int| 0 <= j < bp.len() implies part_ok(#[trigger] bp[j]) && bp[j].kind
        != BASE by {
        assert(ps.contains(bp[j]));
        let t = choose|t: int| 0 <= t < ps.len() && ps[t] == bp[j];
        assert(part_ok(ps[t]));
    }
    if ps.len() > 0 && ps[0].kind == COENG {
        lemma_select_finds(ps, 0);
        if s10.len() > 0 {
            assert(bp[0] == s10[0]);
            assert(priority(s10[0]) == 10);
        } else if s15.len() > 0 {
            assert(bp[0] == s15[0]);
            assert(priority(s15[0]) == 15);
        } else {
            assert(s20.len() > 0);
            assert(bp[0] == s20[0]);
            assert(priority(s20[0]) == 20);
        }
    }
}

/// The canonical order of a clean cluster is clean, starts as the cluster
/// starts, and is its own canonical order.
pub proof fn lemma_arranged_clean(cl: Seq<Part>)
    requires
        clean(cl),
    ensures
        clean(arranged(cl)),
        arranged(arranged(cl)) == arranged(cl),
        flushed(arranged(cl)) == flushed(cl),
{
    if cl.len() > 0 && cl[0].kind == BASE {
        let rest = cl.skip(1);
        assert forall|j: int| 0 <= j < rest.len() implies part_ok(#[trigger] rest[j])
            && rest[j].kind != BASE by {
            assert(rest[j] == cl[j + 1]);
        }
        lemma_by_priority_clean(rest);
        lemma_by_priority_idempotent(rest);
        let a = arranged(cl);
        assert(a == seq![cl[0]] + by_priority(rest));
        assert(a[0] == cl[0]);
        assert(a.skip(1) =~= by_priority(rest));
        assert forall|j: int| 0 <= j < a.len() implies {
            &&& part_ok(#[trigger] a[j])
            &&& (j == 0 ==> a[j].kind == BASE || a[j].kind == COENG)
            &&& (j > 0 ==> a[j].kind != BASE)
        } by {
            if j > 0 {
                assert(a[j] == by_priority(rest)[j - 1]);
            }
        }
    } else {
        assert forall|j: int| 0 <= j < cl.len() implies part_ok(#[trigger] cl[j]) && cl[j].kind
            != BASE by {
            if j == 0 {
            }
        }
        lemma_by_priority_clean(cl);
        lemma_by_priority_idempotent(cl);
        let a = arranged(cl);
        assert(a == by_priority(cl));
        if cl.len() == 0 {
            lemma_select_empty(10);
        }
        if a.len() > 0 {
            assert(a[0].kind != BASE);
            if cl.len() > 0 {
                assert(cl[0].kind == COENG);
            } else {
                lemma_select_empty(10);
            }
        }
    }
}

/// The normal form of the empty text is empty.
pub proof fn lemma_normalize_empty()
    ensures
        normalize(Seq::empty()) == Seq::<char>::empty(),
{
    lemma_select_empty(10);
    assert(fuse(Seq::empty()) =~= Seq::<char>::empty());
}

/// The characters of a run of parts start with the first character of its
/// first part.
pub proof fn lemma_parts_chars_first(ps: Seq<Part>)
    requires
        ps.len() > 0,
    ensures
        parts_chars(ps).len() > 0,
        parts_chars(ps)[0] == ps[0].c1,
{
    let p = ps[0];
    assert(ps =~= seq![p] + ps.skip(1));
    lemma_parts_chars_single(p);
    lemma_parts_chars_concat(seq![p], ps.skip(1));
    assert(part_chars(p)[0] == p.c1);
}

/// The characters of a run with one more part are those of the run and
/// those of the part.
pub proof fn lemma_parts_chars_push(ps: Seq<Part>, p: Part)
    ensures
        parts_chars(ps.push(p)) == parts_chars(ps) + part_chars(p),
{
    assert(ps.push(p).drop_last() =~= ps);
    assert(ps.push(p).last() == p);
}

/// Before a character that is no base, and at the end, a subscript marker
/// carries nothing: to have it yet to read is to hold it.
pub proof fn lemma_resume_plain(y: Seq<char>, g: Seq<Part>)
    requires
        parts_ok(g),
        y.len() == 0 || char_type(y[0] as u32) != BASE,
    ensures
        resume(y, g) == reorder_from(y, 0, g),
{
    if ends_bare(g) {
        let m = g.last().c1;
        let x = seq![m] + y;
        assert(g.last() == g[g.len() - 1]);
        assert(part_ok(g.last()));
        assert(x[0] == m);
        assert(char_type(m as u32) == COENG);
        if x.len() > 1 {
            assert(x[1] == y[0]);
        }
        assert(lone_part(m) == g.last());
        assert(g.drop_last().push(g.last()) =~= g);
        assert(reorder_from(x, 0, g.drop_last()) == reorder_from(
            x,
            1,
            g.drop_last().push(lone_part(m)),
        ));
        lemma_reorder_shift(x, 1, 0, g);
        assert(x.skip(1) =~= y);
    }
}

/// Reading the characters of parts that are no bases gathers those parts:
/// with `g` in hand, reading them and then `y` is reading `y` with all of
/// them in hand.
pub proof fn lemma_resume_absorbs(g: Seq<Part>, t: Seq<Part>, y: Seq<char>)
    requires
        parts_ok(g),
        tail_ok(t),
        g.len() == 0 ==> t.len() == 0 || t[0].kind == COENG,
    ensures
        resume(parts_chars(t) + y, g) == resume(y, g + t),
    decreases t.len(),
{
    if t.len() == 0 {
        assert(parts_chars(t) =~= Seq::<char>::empty());
        assert(parts_chars(t) + y =~= y);
        assert(g + t =~= g);
    } else {
        let p = t[0];
        let later = t.skip(1);
        let follow = parts_chars(later) + y;
        let x = parts_chars(t) + y;
        assert(t =~= seq![p] + later);
        lemma_parts_chars_single(p);
        lemma_parts_chars_concat(seq![p], later);
        assert(x =~= part_chars(p) + follow);
        assert(part_ok(p));
        assert(x[0] == p.c1);
        lemma_resume_plain(x, g);
        let more = g.push(p);
        assert(parts_ok(more)) by {
            assert forall|j: int| 0 <= j < more.len() implies part_ok(#[trigger] more[j]) by {
                if j < g.len() {
                    assert(more[j] == g[j]);
                }
            }
        }
        assert(tail_ok(later)) by {
            assert forall|j: int| 0 <= j < later.len() implies part_ok(#[trigger] later[j])
                && later[j].kind != BASE by {
                assert(later[j] == t[j + 1]);
            }
        }
        assert(more + later =~= g + t);
        assert(more.last() == p);
        assert(more.drop_last() =~= g);
        lemma_resume_absorbs(more, later, y);
        if p.kind == COENG && p.c2 is Some {
            let b = p.c2->0;
            assert(part_chars(p) =~= seq![p.c1, b]);
            assert(x[1] == b);
            assert(carrying_part(p.c1, b) == p);
            assert(x.skip(2) =~= follow);
            lemma_reorder_shift(x, 2, 0, more);
            assert(reorder_from(x, 0, g) == reorder_from(x, 2, g.push(carrying_part(p.c1, b))));
        } else if p.kind == COENG {
            assert(part_chars(p) =~= seq![p.c1]);
            assert(x =~= seq![more.last().c1] + follow);
        } else {
            assert(g.len() > 0);
            assert(lone_part(p.c1) == p);
            assert(part_chars(p) =~= seq![p.c1]);
            assert(x.skip(1) =~= follow);
            lemma_reorder_shift(x, 1, 0, more);
            assert(reorder_from(x, 0, g) == reorder_from(x, 1, g.push(lone_part(p.c1))));
        }
    }
}

/// What a second reading puts out when it comes to the characters of the
/// cluster `a` with `h` in hand: `h`, where a base at the head of `a` ends
/// it.
pub open spec fn put_out(h: Seq<Part>, a: Seq<Part>) -> Seq<char> {
    if a.len() > 0 && a[0].kind == BASE && !ends_bare(h) {
        parts_chars(h)
    } else {
        Seq::empty()
    }
}

/// A second reading that comes, with `h` in hand, to the characters of a
/// clean cluster `a` holds `reread(h, a)` behind them, has put out `h` where
/// it had to, and has lost no character on the way.
pub proof fn lemma_reread(h: Seq<Part>, a: Seq<Part>, y: Seq<char>)
    requires
        clean(h),
        clean(a),
        a.len() > 0 && a[0].kind != BASE ==> h.len() == 0,
        reread_keeps(h, a),
    ensures
        clean(reread(h, a)),
        resume(parts_chars(a) + y, h) == put_out(h, a) + resume(y, reread(h, a)),
        parts_chars(h) + parts_chars(a) == put_out(h, a) + parts_chars(reread(h, a)),
{
    let none = Seq::<Part>::empty();
    let x = parts_chars(a) + y;
    if a.len() == 0 {
        assert(h + a =~= h);
        assert(parts_chars(a) =~= Seq::<char>::empty());
        assert(x =~= y);
        assert(put_out(h, a) + resume(y, h) =~= resume(y, h));
        assert(parts_chars(h) + parts_chars(a) =~= put_out(h, a) + parts_chars(h));
    } else if a[0].kind != BASE {
        assert(h =~= none);
        assert(h + a =~= a);
        assert(tail_ok(a)) by {
            assert forall|j: int| 0 <= j < a.len() implies part_ok(#[trigger] a[j]) && a[j].kind
                != BASE by {
                if j == 0 {
                }
            }
        }
        lemma_resume_absorbs(none, a, y);
        assert(none + a =~= a);
        assert(parts_chars(h) =~= Seq::<char>::empty());
        assert(put_out(h, a) + resume(y, a) =~= resume(y, a));
        assert(parts_chars(h) + parts_chars(a) =~= put_out(h, a) + parts_chars(a));
    } else {
        let first = a[0];
        let later = a.skip(1);
        let follow = parts_chars(later) + y;
        assert(part_ok(first));
        assert(first.c2 is None);
        assert(a =~= seq![first] + later);
        lemma_parts_chars_single(first);
        lemma_parts_chars_concat(seq![first], later);
        assert(part_chars(first) =~= seq![first.c1]);
        assert(x =~= seq![first.c1] + follow);
        assert(tail_ok(later)) by {
            assert forall|j: int| 0 <= j < later.len() implies part_ok(#[trigger] later[j])
                && later[j].kind != BASE by {
                assert(later[j] == a[j + 1]);
            }
        }
        if ends_bare(h) {
            let m = h.last().c1;
            let front = h.drop_last();
            assert(h.last() == h[h.len() - 1]);
            assert(part_ok(h.last()));
            let joined = carrying_part(m, first.c1);
            let g = front.push(joined);
            let z = seq![m] + x;
            assert(z[0] == m);
            assert(z[1] == first.c1);
            assert(reorder_from(z, 0, front) == reorder_from(z, 2, g));
            lemma_reorder_shift(z, 2, 0, g);
            assert(z.skip(2) =~= follow);
            assert(parts_ok(g)) by {
                assert forall|j: int| 0 <= j < g.len() implies part_ok(#[trigger] g[j]) by {
                    if j < front.len() {
                        assert(g[j] == h[j]);
                    }
                }
            }
            assert(g.last() == joined);
            assert(!ends_bare(g));
            lemma_resume_absorbs(g, later, y);
            assert(put_out(h, a) + resume(y, g + later) =~= resume(y, g + later));
            // no character is lost
            lemma_parts_chars_push(front, h.last());
            assert(front.push(h.last()) =~= h);
            assert(part_chars(h.last()) =~= seq![m]);
            lemma_parts_chars_push(front, joined);
            assert(part_chars(joined) =~= seq![m, first.c1]);
            lemma_parts_chars_concat(g, later);
            assert(parts_chars(h) + parts_chars(a) =~= put_out(h, a) + parts_chars(g + later));
            // the joined cluster is clean
            let r = g + later;
            assert forall|j: int| 0 <= j < r.len() implies {
                &&& part_ok(#[trigger] r[j])
                &&& (j == 0 ==> r[j].kind == BASE || r[j].kind == COENG)
                &&& (j > 0 ==> r[j].kind != BASE)
            } by {
                if j < front.len() {
                    assert(r[j] == h[j]);
                } else if j == front.len() {
                    assert(r[j] == joined);
                } else {
                    assert(r[j] == later[j - g.len()]);
                }
            }
        } else {
            let start = none.push(first);
            assert(lone_part(first.c1) == first);
            assert(x[0] == first.c1);
            assert(reorder_from(x, 0, h) == flushed(h) + reorder_from(
                x,
                1,
                Seq::empty().push(lone_part(first.c1)),
            ));
            lemma_reorder_shift(x, 1, 0, start);
            assert(x.skip(1) =~= follow);
            assert(parts_ok(start));
            assert(!ends_bare(start));
            lemma_resume_absorbs(start, later, y);
            assert(start + later =~= a);
        }
    }
}

/// Putting one more part behind a clean cluster, a mark or a subscript, or
/// a first part that is a subscript, leaves it clean.
pub proof fn lemma_clean_push(cl: Seq<Part>, p: Part)
    requires
        clean(cl),
        part_ok(p),
        p.kind != BASE,
        cl.len() == 0 ==> p.kind == COENG,
    ensures
        clean(cl.push(p)),
{
    let next = cl.push(p);
    assert forall|j: int| 0 <= j < next.len() implies {
        &&& part_ok(#[trigger] next[j])
        &&& (j == 0 ==> next[j].kind == BASE || next[j].kind == COENG)
        &&& (j > 0 ==> next[j].kind != BASE)
    } by {
        if j < cl.len() {
            assert(next[j] == cl[j]);
        }
    }
}

/// The canonical order of a cluster that a base leads starts with that
/// base.
pub proof fn lemma_arranged_head(cl: Seq<Part>)
    requires
        clean(cl),
    ensures
        cl.len() > 0 && cl[0].kind == BASE ==> arranged(cl).len() > 0 && arranged(cl)[0] == cl[0],
        arranged(cl).len() > 0 && arranged(cl)[0].kind == BASE ==> cl.len() > 0 && cl[0].kind
            == BASE,
{
    lemma_arranged_clean(cl);
    if cl.len() > 0 && cl[0].kind == BASE {
        assert(arranged(cl) == seq![cl[0]] + by_priority(cl.skip(1)));
        assert(arranged(cl)[0] == cl[0]);
    } else if arranged(cl).len() > 0 {
        assert forall|j: int| 0 <= j < cl.len() implies part_ok(#[trigger] cl[j]) && cl[j].kind
            != BASE by {
            if j == 0 {
            }
        }
        lemma_by_priority_clean(cl);
    }
}

/// What the second pass gives for a steady text from index `k` on, with a
/// clean cluster in hand, is left alone by a second reading that comes to
/// it with the cluster `h` in hand: the second reading puts out what it
/// holds and then what it reads.
pub proof fn lemma_reorder_settles(s: Seq<char>, k: int, cl: Seq<Part>, h: Seq<Part>)
    requires
        steady_from(s, k, cl, h),
        clean(cl),
        clean(h),
        cl.len() == 0 || cl[0].kind != BASE ==> h.len() == 0,
        0 <= k,
    ensures
        resume(reorder_from(s, k, cl), h) == parts_chars(h) + reorder_from(s, k, cl),
    decreases s.len() - k,
{
    let none = Seq::<Part>::empty();
    let no_chars = Seq::<char>::empty();
    let out = reorder_from(s, k, cl);
    let a = arranged(cl);
    lemma_arranged_clean(cl);
    lemma_arranged_head(cl);
    lemma_select_empty(10);
    let held = reread(h, a);
    if k >= s.len() {
        lemma_reread(h, a, no_chars);
        assert(parts_chars(a) + no_chars =~= parts_chars(a));
        lemma_resume_plain(no_chars, held);
        assert(reorder_from(no_chars, 0, held) == flushed(held));
        assert(put_out(h, a) + parts_chars(held) =~= parts_chars(h) + out);
    } else {
        let c = s[k];
        let kind = char_type(c as u32);
        if kind == BASE {
            let start = none.push(lone_part(c));
            let y = reorder_from(s, k + 1, start);
            assert(out == flushed(cl) + y);
            assert(clean(start));
            lemma_reread(h, a, y);
            lemma_reorder_settles(s, k + 1, start, held);
            assert(put_out(h, a) + (parts_chars(held) + y) =~= (put_out(h, a) + parts_chars(held))
                + y);
            assert((parts_chars(h) + parts_chars(a)) + y =~= parts_chars(h) + out);
        } else if kind == COENG {
            if k + 1 < s.len() && char_type(s[k + 1] as u32) == BASE {
                lemma_clean_push(cl, carrying_part(c, s[k + 1]));
                lemma_reorder_settles(s, k + 2, cl.push(carrying_part(c, s[k + 1])), h);
            } else {
                lemma_clean_push(cl, lone_part(c));
                lemma_reorder_settles(s, k + 1, cl.push(lone_part(c)), h);
            }
        } else if kind != OTHER {
            if cl.len() > 0 {
                lemma_clean_push(cl, lone_part(c));
                lemma_reorder_settles(s, k + 1, cl.push(lone_part(c)), h);
            } else {
                assert(cl =~= none);
                assert(h =~= none);
                let z = reorder_from(s, k + 1, none);
                lemma_reorder_settles(s, k + 1, none, none);
                let y = seq![c] + z;
                assert(out == y);
                assert(y[0] == c);
                assert(y.skip(1) =~= z);
                lemma_reorder_shift(y, 1, 0, none);
                assert(reorder_from(y, 0, none) == seq![c] + reorder_from(y, 1, none));
                assert(parts_chars(none) =~= no_chars);
                assert(no_chars + z =~= z);
                assert(parts_chars(h) + out =~= out);
            }
        } else {
            let z = reorder_from(s, k + 1, none);
            lemma_reorder_settles(s, k + 1, none, none);
            let y = seq![c] + z;
            assert(out == flushed(cl) + seq![c] + z);
            assert(out =~= parts_chars(a) + y);
            assert(y[0] == c);
            assert(y.skip(1) =~= z);
            lemma_reread(h, a, y);
            lemma_resume_plain(y, held);
            lemma_reorder_shift(y, 1, 0, none);
            assert(reorder_from(y, 0, held) == flushed(held) + seq![c] + reorder_from(y, 1, none));
            assert(parts_chars(none) =~= no_chars);
            assert(no_chars + z =~= z);
            assert(put_out(h, a) + (parts_chars(held) + seq![c] + z) =~= (put_out(h, a)
                + parts_chars(held)) + y);
            assert((parts_chars(h) + parts_chars(a)) + y =~= parts_chars(h) + out);
        }
    }
}

/// The second pass is idempotent on a steady text.
pub proof fn lemma_reorder_idempotent(s: Seq<char>)
    requires
        steady(s),
    ensures
        reorder(reorder(s)) == reorder(s),
{
    let none = Seq::<Part>::empty();
    lemma_reorder_settles(s, 0, none, none);
    lemma_select_empty(10);
    assert(parts_chars(none) =~= Seq::<char>::empty());
    assert(parts_chars(none) + reorder(s) =~= reorder(s));
}

/// No part of the run is a subscript marker that carries nothing.
pub open spec fn all_carry(ps: Seq<Part>) -> bool {
    forall|j: int| 0 <= j < ps.len() ==> !((#[trigger] ps[j]).kind == COENG && ps[j].c2 is None)
}

/// The canonical order of a cluster in which every subscript marker carries
/// a base is such a cluster.
pub proof fn lemma_arranged_all_carry(cl: Seq<Part>)
    requires
        all_carry(cl),
    ensures
        all_carry(arranged(cl)),
{
    let a = arranged(cl);
    assert forall|j: int| 0 <= j < a.len() implies !((#[trigger] a[j]).kind == COENG
        && a[j].c2 is None) by {
        if cl.len() > 0 && cl[0].kind == BASE {
            let rest = cl.skip(1);
            lemma_by_priority_members(rest);
            if j > 0 {
                let x = by_priority(rest)[j - 1];
                assert(a[j] == x);
                assert(rest.contains(x));
                let t = choose|t: int| 0 <= t < rest.len() && rest[t] == x;
                assert(rest[t] == cl[t + 1]);
            } else {
                assert(a[j] == cl[0]);
            }
        } else {
            lemma_by_priority_members(cl);
            let x = a[j];
            assert(cl.contains(x));
            let t = choose|t: int| 0 <= t < cl.len() && cl[t] == x;
            assert(cl[t] == x);
        }
    }
}

/// A text in which every subscript marker carries a base is steady.
pub proof fn lemma_carried_steady_from(s: Seq<char>, k: int, cl: Seq<Part>, h: Seq<Part>)
    requires
        carried(s),
        clean(cl),
        all_carry(cl),
        all_carry(h),
        in_order(h),
        cl.len() == 0 || cl[0].kind != BASE ==> h.len() == 0,
        0 <= k,
    ensures
        steady_from(s, k, cl, h),
    decreases s.len() - k,
{
    let none = Seq::<Part>::empty();
    let a = arranged(cl);
    lemma_arranged_clean(cl);
    lemma_arranged_head(cl);
    lemma_arranged_all_carry(cl);
    lemma_select_empty(10);
    let held = reread(h, a);
    assert(!ends_bare(h)) by {
        if h.len() > 0 {
            assert(h.last() == h[h.len() - 1]);
        }
    }
    assert(held =~= a) by {
        if !(a.len() > 0 && a[0].kind == BASE) {
            if a.len() > 0 {
                assert(h =~= none);
            } else {
                if cl.len() > 0 && cl[0].kind == BASE {
                } else {
                    assert(h =~= none);
                }
            }
        }
    }
    assert(in_order(a));
    assert(parts_chars(none) =~= Seq::<char>::empty());
    assert(in_order(none));
    if k < s.len() {
        let c = s[k];
        let kind = char_type(c as u32);
        if kind == BASE {
            let start = none.push(lone_part(c));
            assert(clean(start));
            assert(all_carry(start));
            lemma_carried_steady_from(s, k + 1, start, a);
        } else if kind == COENG {
            let p = carrying_part(c, s[k + 1]);
            let next = cl.push(p);
            lemma_clean_push(cl, p);
            assert(all_carry(next)) by {
                assert forall|j: int| 0 <= j < next.len() implies !((#[trigger] next[j]).kind
                    == COENG && next[j].c2 is None) by {
                    if j < cl.len() {
                        assert(next[j] == cl[j]);
                    }
                }
            }
            lemma_carried_steady_from(s, k + 2, next, h);
        } else if kind != OTHER {
            if cl.len() > 0 {
                let next = cl.push(lone_part(c));
                lemma_clean_push(cl, lone_part(c));
                assert(all_carry(next)) by {
                    assert forall|j: int| 0 <= j < next.len() implies !((#[trigger] next[j]).kind
                        == COENG && next[j].c2 is None) by {
                        if j < cl.len() {
                            assert(next[j] == cl[j]);
                        }
                    }
                }
                lemma_carried_steady_from(s, k + 1, next, h);
            } else {
                lemma_carried_steady_from(s, k + 1, cl, h);
            }
        } else {
            lemma_carried_steady_from(s, k + 1, none, none);
        }
    }
}

/// Normalisation is idempotent on a text that is steady once the first
/// pass is through, and whose normal form holds no vowel in two-character
/// spelling.
pub proof fn lemma_normalize_idempotent(t: Seq<char>)
    requires
        steady(fuse(t)),
        unsplit(normalize(t)),
    ensures
        normalize(normalize(t)) == normalize(t),
{
    let u = normalize(t);
    lemma_normalize_plain(t);
    lemma_fuse_from_fused(u, 0);
    assert(u.skip(0) =~= u);
    lemma_reorder_idempotent(fuse(t));
}

/// Normalisation is idempotent on a text in which, once the first pass is
/// through, every subscript marker carries a base, and whose normal form
/// holds no vowel in two-character spelling.
pub proof fn lemma_normalize_idempotent_carried(t: Seq<char>)
    requires
        carried(fuse(t)),
        unsplit(normalize(t)),
    ensures
        normalize(normalize(t)) == normalize(t),
{
    let none = Seq::<Part>::empty();
    lemma_select_empty(10);
    assert(parts_chars(none) =~= Seq::<char>::empty());
    lemma_carried_steady_from(fuse(t), 0, none, none);
    lemma_normalize_idempotent(t);
}

} // verus!
