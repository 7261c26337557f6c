//! Canonical form of Khmer text: zero-width characters are dropped, vowels
//! written as two characters are fused, and the marks of each cluster are
//! put into one fixed order.

use crate::text::{
    at_boundary, chars_between, chars_from, decode_at, lemma_between_count,
    lemma_boundary_is_char_boundary, lemma_byte_offset_step, lemma_byte_offset_zero,
    lemma_chars_between, lemma_chars_from_len, lemma_chars_from_start, lemma_decode_step,
    width_at,
};
use crate::utils::base_code;
use vstd::prelude::*;
use vstd::string::*;
use vstd::utf8::*;

verus! {

/// Neither base nor mark.
pub const OTHER: i32 = 0;

/// Consonant or independent vowel.
pub const BASE: i32 = 1;

/// The subscript marker.
pub const COENG: i32 = 2;

/// Register shifter.
pub const REGISTER: i32 = 3;

/// Dependent vowel.
pub const VOWEL: i32 = 4;

/// Sign.
pub const SIGN: i32 = 5;

/// The class of a code point for the ordering of marks.
pub open spec fn char_type(cp: u32) -> i32 {
    if base_code(cp) {
        BASE
    } else if cp == 0x17D2 {
        COENG
    } else if cp == 0x17C9 || cp == 0x17CA {
        REGISTER
    } else if 0x17B6 <= cp <= 0x17C5 {
        VOWEL
    } else if (0x17C6 <= cp <= 0x17D1) || cp == 0x17D3 || cp == 0x17DD {
        SIGN
    } else {
        OTHER
    }
}

/// The class of a code point.
pub fn char_type_exec(cp: u32) -> (t: i32)
    ensures
        t == char_type(cp),
{
    if cp >= 0x1780 && cp <= 0x17B3 {
        BASE
    } else if cp == 0x17D2 {
        COENG
    } else if cp == 0x17C9 || cp == 0x17CA {
        REGISTER
    } else if cp >= 0x17B6 && cp <= 0x17C5 {
        VOWEL
    } else if (cp >= 0x17C6 && cp <= 0x17D1) || cp == 0x17D3 || cp == 0x17DD {
        SIGN
    } else {
        OTHER
    }
}

/// The class of a character.
pub fn get_char_type_norm(c: char) -> (t: i32)
    ensures
        t == char_type(c as u32),
{
    char_type_exec(c as u32)
}

/// A zero-width space, non-joiner or joiner.
pub open spec fn zero_width(cp: u32) -> bool {
    cp == 0x200B || cp == 0x200C || cp == 0x200D
}

/// The text from index `k` on without zero-width characters and with the
/// two-character spellings of OE and AU fused.
pub open spec fn fuse_from(s: Seq<char>, k: int) -> Seq<char>
    decreases s.len() - k,
{
    if k < 0 || k >= s.len() {
        Seq::empty()
    } else if zero_width(s[k] as u32) {
        fuse_from(s, k + 1)
    } else if s[k] as u32 == 0x17C1 && k + 1 < s.len() && s[k + 1] as u32 == 0x17B8 {
        seq!['\u{17BE}'] + fuse_from(s, k + 2)
    } else if s[k] as u32 == 0x17C1 && k + 1 < s.len() && s[k + 1] as u32 == 0x17B6 {
        seq!['\u{17C4}'] + fuse_from(s, k + 2)
    } else {
        seq![s[k]] + fuse_from(s, k + 1)
    }
}

/// The first pass over a whole text.
pub open spec fn fuse(s: Seq<char>) -> Seq<char> {
    fuse_from(s, 0)
}

/// One part of a cluster: a character, and for a subscript marker the base
/// that it carries, if it carries one.
pub struct Part {
    pub c1: char,
    pub c2: Option<char>,
    pub kind: i32,
}

/// The characters of a part.
pub open spec fn part_chars(p: Part) -> Seq<char> {
    match p.c2 {
        Some(c) => seq![p.c1, c],
        None => seq![p.c1],
    }
}

/// The characters of a run of parts.
pub open spec fn parts_chars(ps: Seq<Part>) -> Seq<char>
    decreases ps.len(),
{
    if ps.len() == 0 {
        Seq::empty()
    } else {
        parts_chars(ps.drop_last()) + part_chars(ps.last())
    }
}

/// The rank of a part within its cluster: subscripts first, the subscript
/// RO behind the others and a marker that carries nothing between them;
/// then register shifters, vowels and signs.
pub open spec fn priority(p: Part) -> i32 {
    if p.kind == COENG {
        match p.c2 {
            Some(c) => if c as u32 == 0x179A {
                20
            } else {
                10
            },
            None => 15,
        }
    } else if p.kind == REGISTER {
        30
    } else if p.kind == VOWEL {
        40
    } else if p.kind == SIGN {
        50
    } else {
        100
    }
}

/// The parts of `ps` that have priority `p`, in the order in which they
/// stand.
pub open spec fn select(ps: Seq<Part>, p: i32) -> Seq<Part>
    decreases ps.len(),
{
    if ps.len() == 0 {
        Seq::empty()
    } else if priority(ps.last()) == p {
        select(ps.drop_last(), p).push(ps.last())
    } else {
        select(ps.drop_last(), p)
    }
}

/// `ps` sorted by priority, parts of equal priority in their old order.
pub open spec fn by_priority(ps: Seq<Part>) -> Seq<Part> {
    select(ps, 10) + select(ps, 15) + select(ps, 20) + select(ps, 30) + select(ps, 40) + select(
        ps,
        50,
    ) + select(ps, 100)
}

/// The parts of a cluster in canonical order: a leading base stays in
/// front, the rest is sorted by priority.
pub open spec fn arranged(cluster: Seq<Part>) -> Seq<Part> {
    if cluster.len() > 0 && cluster[0].kind == BASE {
        seq![cluster[0]] + by_priority(cluster.skip(1))
    } else {
        by_priority(cluster)
    }
}

/// The characters that a finished cluster gives.
pub open spec fn flushed(cluster: Seq<Part>) -> Seq<char> {
    parts_chars(arranged(cluster))
}

/// The part that a character makes alone.
pub open spec fn lone_part(c: char) -> Part {
    Part { c1: c, c2: None, kind: char_type(c as u32) }
}

/// The part that a subscript marker makes with the base behind it.
pub open spec fn carrying_part(c: char, b: char) -> Part {
    Part { c1: c, c2: Some(b), kind: char_type(c as u32) }
}

/// The second pass from index `k` on, with the parts of the cluster that is
/// being gathered: a base starts a new cluster, a subscript marker takes the
/// base behind it along, other marks join the cluster if there is one, and
/// anything else ends it.
pub open spec fn reorder_from(s: Seq<char>, k: int, cluster: Seq<Part>) -> Seq<char>
    decreases s.len() - k,
{
    if k < 0 || k >= s.len() {
        flushed(cluster)
    } else {
        let c = s[k];
        let kind = char_type(c as u32);
        if kind == BASE {
            flushed(cluster) + reorder_from(s, k + 1, Seq::empty().push(lone_part(c)))
        } else if kind == COENG {
            if k + 1 < s.len() && char_type(s[k + 1] as u32) == BASE {
                reorder_from(s, k + 2, cluster.push(carrying_part(c, s[k + 1])))
            } else {
                reorder_from(s, k + 1, cluster.push(lone_part(c)))
            }
        } else if kind != OTHER {
            if cluster.len() > 0 {
                reorder_from(s, k + 1, cluster.push(lone_part(c)))
            } else {
                seq![c] + reorder_from(s, k + 1, cluster)
            }
        } else {
            flushed(cluster) + seq![c] + reorder_from(s, k + 1, Seq::empty())
        }
    }
}

/// The second pass over a whole text.
pub open spec fn reorder(s: Seq<char>) -> Seq<char> {
    reorder_from(s, 0, Seq::empty())
}

/// The canonical form of `s`.
pub open spec fn normalize(s: Seq<char>) -> Seq<char> {
    reorder(fuse(s))
}

/// One character on its way to the output: its code point and, where it is
/// taken over from the input, the bytes of the input that hold it. A width
/// of 0 marks a fused vowel, which the input does not hold.
#[derive(Clone, Copy, Debug)]
pub struct Glyph {
    pub code: u32,
    pub at: usize,
    pub width: usize,
}

/// The character that a glyph stands for.
pub open spec fn glyph_char(g: Glyph) -> char {
    g.code as char
}

/// The glyph says what the input `b` holds at its place, or is one of the
/// two fused vowels.
pub open spec fn glyph_ok(b: Seq<u8>, g: Glyph) -> bool {
    if g.width == 0 {
        g.code == 0x17BE || g.code == 0x17C4
    } else {
        &&& at_boundary(b, g.at as int)
        &&& g.at < b.len()
        &&& g.width == width_at(b, g.at as int)
        &&& chars_from(b, g.at as int)[0] as u32 == g.code
    }
}

/// The characters that a run of glyphs stands for.
pub open spec fn glyph_chars(gs: Seq<Glyph>) -> Seq<char> {
    Seq::new(gs.len(), |i: int| glyph_char(gs[i]))
}

/// Every glyph of the run is in order.
pub open spec fn glyphs_ok(b: Seq<u8>, gs: Seq<Glyph>) -> bool {
    forall|i: int| 0 <= i < gs.len() ==> glyph_ok(b, #[trigger] gs[i])
}

/// A glyph that is in order stands for the character whose code point it
/// holds.
pub proof fn lemma_glyph_code(b: Seq<u8>, g: Glyph)
    requires
        glyph_ok(b, g),
    ensures
        glyph_char(g) as u32 == g.code,
        g.width > 0 ==> glyph_char(g) == chars_from(b, g.at as int)[0],
{
    if g.width > 0 {
        let c = chars_from(b, g.at as int)[0];
        char_u32_cast(c, g.code);
    }
}

/// The first pass: the glyphs of `text` without zero-width characters and
/// with OE and AU fused.
fn fuse_pass(text: &str) -> (out: Vec<Glyph>)
    ensures
        glyph_chars(out@) == fuse(text@),
        glyphs_ok(text.spec_bytes(), out@),
{
    let b = text.as_bytes();
    let n = b.len();
    let ghost s = text@;
    proof {
        lemma_chars_from_start(s);
    }
    let mut out: Vec<Glyph> = Vec::new();
    let mut p: usize = 0;
    let ghost mut k: int = 0;
    assert(s.skip(0) =~= s);
    assert(glyph_chars(out@) =~= Seq::<char>::empty());
    while p < n
        invariant
            n == b.len(),
            b@ == text.spec_bytes(),
            s == chars_from(b@, 0),
            0 <= p <= n,
            0 <= k <= s.len(),
            at_boundary(b@, p as int),
            chars_from(b@, p as int) == s.skip(k),
            glyphs_ok(b@, out@),
            glyph_chars(out@) + fuse_from(s, k) == fuse(s),
        decreases n - p,
    {
        let (c, w) = decode_at(b, p);
        let ghost before = out@;
        proof {
            lemma_chars_from_len(b@, p as int);
            lemma_chars_from_len(b@, p + w);
            assert(s.skip(k).drop_first() =~= s.skip(k + 1));
            assert(c == s[k] as u32);
        }
        if c == 0x200B || c == 0x200C || c == 0x200D {
            p = p + w;
            proof {
                k = k + 1;
            }
            continue;
        }
        if c == 0x17C1 && p + w < n {
            let (next, nw) = decode_at(b, p + w);
            proof {
                assert(next == s[k + 1] as u32);
                lemma_chars_from_len(b@, p + w + nw);
                assert(s.skip(k + 1).drop_first() =~= s.skip(k + 2));
            }
            if next == 0x17B8 || next == 0x17B6 {
                let code: u32 = if next == 0x17B8 {
                    0x17BE
                } else {
                    0x17C4
                };
                let g = Glyph { code, at: 0, width: 0 };
                out.push(g);
                proof {
                    assert(glyph_char(g) == (if next == 0x17B8 {
                        '\u{17BE}'
                    } else {
                        '\u{17C4}'
                    }));
                    assert(glyph_chars(out@) =~= glyph_chars(before) + seq![glyph_char(g)]);
                    k = k + 2;
                }
                p = p + w + nw;
                continue;
            }
        }
        let g = Glyph { code: c, at: p, width: w };
        out.push(g);
        proof {
            lemma_glyph_code(b@, g);
            assert(glyph_chars(out@) =~= glyph_chars(before) + seq![s[k]]);
            k = k + 1;
        }
        p = p + w;
    }
    proof {
        lemma_chars_from_len(b@, p as int);
        assert(glyph_chars(out@) + Seq::<char>::empty() =~= glyph_chars(out@));
    }
    out
}

/// One part of a cluster as the second pass holds it.
#[derive(Clone, Copy, Debug)]
pub struct ClsPart {
    pub c1: Glyph,
    pub c2: Option<Glyph>,
    pub type_: i32,
}

/// The part that `p` stands for.
pub open spec fn part_of(p: ClsPart) -> Part {
    Part {
        c1: glyph_char(p.c1),
        c2: match p.c2 {
            Some(g) => Some(glyph_char(g)),
            None => None,
        },
        kind: p.type_,
    }
}

/// The parts that a gathered cluster stands for.
pub open spec fn parts_of(c: Seq<ClsPart>) -> Seq<Part> {
    Seq::new(c.len(), |i: int| part_of(c[i]))
}

/// The glyphs of the part are in order.
pub open spec fn cls_ok(b: Seq<u8>, p: ClsPart) -> bool {
    &&& glyph_ok(b, p.c1)
    &&& match p.c2 {
        Some(g) => glyph_ok(b, g),
        None => true,
    }
}

/// Every part of the cluster is in order.
pub open spec fn cluster_ok(b: Seq<u8>, c: Seq<ClsPart>) -> bool {
    forall|i: int| 0 <= i < c.len() ==> cls_ok(b, #[trigger] c[i])
}

/// The rank of a part within its cluster.
fn get_prio(p: &ClsPart, Ghost(b): Ghost<Seq<u8>>) -> (r: i32)
    requires
        cls_ok(b, *p),
    ensures
        r == priority(part_of(*p)),
{
    if p.type_ == COENG {
        match p.c2 {
            Some(sub) => {
                proof {
                    lemma_glyph_code(b, sub);
                }
                if sub.code == 0x179A {
                    20
                } else {
                    10
                }
            },
            None => 15,
        }
    } else if p.type_ == REGISTER {
        30
    } else if p.type_ == VOWEL {
        40
    } else if p.type_ == SIGN {
        50
    } else {
        100
    }
}

/// The characters of two runs of parts are those of the one and those of
/// the other.
pub proof fn lemma_parts_chars_concat(a: Seq<Part>, b: Seq<Part>)
    ensures
        parts_chars(a + b) == parts_chars(a) + parts_chars(b),
    decreases b.len(),
{
    if b.len() == 0 {
        assert(a + b =~= a);
        assert(parts_chars(a) + parts_chars(b) =~= parts_chars(a));
    } else {
        lemma_parts_chars_concat(a, b.drop_last());
        assert((a + b).drop_last() =~= a + b.drop_last());
        assert((a + b).last() == b.last());
        assert(parts_chars(a + b) =~= parts_chars(a) + parts_chars(b));
    }
}

/// The characters of a run of one part are those of the part.
pub proof fn lemma_parts_chars_single(p: Part)
    ensures
        parts_chars(seq![p]) == part_chars(p),
{
    let s = seq![p];
    assert(s.drop_last() =~= Seq::<Part>::empty());
    assert(parts_chars(s.drop_last()) =~= Seq::<char>::empty());
    assert(parts_chars(s) =~= part_chars(p));
}

/// Puts the glyphs of one part behind `out`.
fn push_part(out: &mut Vec<Glyph>, part: &ClsPart, Ghost(b): Ghost<Seq<u8>>)
    requires
        cls_ok(b, *part),
        glyphs_ok(b, old(out)@),
    ensures
        glyph_chars(final(out)@) == glyph_chars(old(out)@) + part_chars(part_of(*part)),
        glyphs_ok(b, final(out)@),
{
    out.push(part.c1);
    match part.c2 {
        Some(g) => {
            out.push(g);
        },
        None => {},
    }
    assert(glyph_chars(out@) =~= glyph_chars(old(out)@) + part_chars(part_of(*part)));
}

/// Puts behind `out` the parts of `cluster` from `start` on that have
/// priority `p`.
fn emit_priority(
    out: &mut Vec<Glyph>,
    cluster: &Vec<ClsPart>,
    start: usize,
    p: i32,
    Ghost(b): Ghost<Seq<u8>>,
)
    requires
        start <= cluster.len(),
        cluster_ok(b, cluster@),
        glyphs_ok(b, old(out)@),
    ensures
        glyph_chars(final(out)@) == glyph_chars(old(out)@) + parts_chars(
            select(parts_of(cluster@).skip(start as int), p),
        ),
        glyphs_ok(b, final(out)@),
{
    let ghost tail = parts_of(cluster@).skip(start as int);
    let mut j: usize = start;
    assert(tail.take(0) =~= Seq::<Part>::empty());
    assert(glyph_chars(out@) + Seq::<char>::empty() =~= glyph_chars(out@));
    while j < cluster.len()
        invariant
            start <= j <= cluster.len(),
            cluster_ok(b, cluster@),
            glyphs_ok(b, out@),
            tail == parts_of(cluster@).skip(start as int),
            glyph_chars(out@) == glyph_chars(old(out)@) + parts_chars(
                select(tail.take(j - start), p),
            ),
        decreases cluster.len() - j,
    {
        let part = cluster[j];
        let ghost before = glyph_chars(out@);
        let ghost seen = tail.take(j - start);
        proof {
            assert(tail.take(j + 1 - start).drop_last() =~= seen);
            assert(tail.take(j + 1 - start).last() == part_of(part));
        }
        if get_prio(&part, Ghost(b)) == p {
            push_part(out, &part, Ghost(b));
            proof {
                let chosen = select(seen, p);
                assert(chosen.push(part_of(part)).drop_last() =~= chosen);
                assert(glyph_chars(out@) =~= glyph_chars(old(out)@) + parts_chars(
                    chosen.push(part_of(part)),
                ));
            }
        }
        j += 1;
    }
    assert(tail.take(j - start) =~= tail);
}

/// The characters of a run sorted by priority are those of its parts of
/// each priority, one priority after the other.
pub proof fn lemma_by_priority_chars(ps: Seq<Part>)
    ensures
        parts_chars(by_priority(ps)) == parts_chars(select(ps, 10)) + parts_chars(select(ps, 15))
            + parts_chars(select(ps, 20)) + parts_chars(select(ps, 30)) + parts_chars(
            select(ps, 40),
        ) + parts_chars(select(ps, 50)) + parts_chars(select(ps, 100)),
{
    let s10 = select(ps, 10);
    let s15 = select(ps, 15);
    let s20 = select(ps, 20);
    let s30 = select(ps, 30);
    let s40 = select(ps, 40);
    let s50 = select(ps, 50);
    let s100 = select(ps, 100);
    lemma_parts_chars_concat(s10, s15);
    lemma_parts_chars_concat(s10 + s15, s20);
    lemma_parts_chars_concat(s10 + s15 + s20, s30);
    lemma_parts_chars_concat(s10 + s15 + s20 + s30, s40);
    lemma_parts_chars_concat(s10 + s15 + s20 + s30 + s40, s50);
    lemma_parts_chars_concat(s10 + s15 + s20 + s30 + s40 + s50, s100);
}

/// Puts behind `out` the parts of `cluster` from `start` on, sorted by
/// priority.
fn emit_sorted(out: &mut Vec<Glyph>, cluster: &Vec<ClsPart>, start: usize, Ghost(b): Ghost<Seq<u8>>)
    requires
        start <= cluster.len(),
        cluster_ok(b, cluster@),
        glyphs_ok(b, old(out)@),
    ensures
        glyph_chars(final(out)@) == glyph_chars(old(out)@) + parts_chars(
            by_priority(parts_of(cluster@).skip(start as int)),
        ),
        glyphs_ok(b, final(out)@),
{
    let ghost tail = parts_of(cluster@).skip(start as int);
    let ghost head = glyph_chars(out@);
    emit_priority(out, cluster, start, 10, Ghost(b));
    emit_priority(out, cluster, start, 15, Ghost(b));
    emit_priority(out, cluster, start, 20, Ghost(b));
    emit_priority(out, cluster, start, 30, Ghost(b));
    emit_priority(out, cluster, start, 40, Ghost(b));
    emit_priority(out, cluster, start, 50, Ghost(b));
    emit_priority(out, cluster, start, 100, Ghost(b));
    proof {
        lemma_by_priority_chars(tail);
        assert(glyph_chars(out@) =~= head + parts_chars(by_priority(tail)));
    }
}

/// Puts the gathered cluster behind `out` in canonical order and empties
/// it.
fn flush_cluster(out: &mut Vec<Glyph>, cluster: &mut Vec<ClsPart>, Ghost(b): Ghost<Seq<u8>>)
    requires
        cluster_ok(b, old(cluster)@),
        glyphs_ok(b, old(out)@),
    ensures
        glyph_chars(final(out)@) == glyph_chars(old(out)@) + flushed(parts_of(old(cluster)@)),
        glyphs_ok(b, final(out)@),
        final(cluster)@.len() == 0,
{
    let ghost parts = parts_of(cluster@);
    if cluster.len() > 0 && cluster[0].type_ == BASE {
        let first = cluster[0];
        push_part(out, &first, Ghost(b));
        emit_sorted(out, cluster, 1, Ghost(b));
        proof {
            let tail = parts.skip(1);
            lemma_parts_chars_single(parts[0]);
            lemma_parts_chars_concat(seq![parts[0]], by_priority(tail));
            assert(glyph_chars(out@) =~= glyph_chars(old(out)@) + flushed(parts));
        }
    } else {
        emit_sorted(out, cluster, 0, Ghost(b));
        proof {
            assert(parts.skip(0) =~= parts);
        }
    }
    cluster.clear();
}

/// The second pass: the glyphs of each cluster in canonical order.
fn reorder_pass(glyphs: &Vec<Glyph>, Ghost(b): Ghost<Seq<u8>>) -> (out: Vec<Glyph>)
    requires
        glyphs_ok(b, glyphs@),
    ensures
        glyph_chars(out@) == reorder(glyph_chars(glyphs@)),
        glyphs_ok(b, out@),
{
    let ghost s = glyph_chars(glyphs@);
    let n = glyphs.len();
    let mut out: Vec<Glyph> = Vec::new();
    let mut cluster: Vec<ClsPart> = Vec::new();
    let mut k: usize = 0;
    assert(parts_of(cluster@) =~= Seq::<Part>::empty());
    assert(glyph_chars(out@) + reorder(s) =~= reorder(s));
    while k < n
        invariant
            n == glyphs.len(),
            s == glyph_chars(glyphs@),
            0 <= k <= n,
            glyphs_ok(b, glyphs@),
            glyphs_ok(b, out@),
            cluster_ok(b, cluster@),
            glyph_chars(out@) + reorder_from(s, k as int, parts_of(cluster@)) == reorder(s),
        decreases n - k,
    {
        let g = glyphs[k];
        let kind = char_type_exec(g.code);
        let ghost before = glyph_chars(out@);
        let ghost gathered = parts_of(cluster@);
        proof {
            lemma_glyph_code(b, g);
            assert(s[k as int] == glyph_char(g));
        }
        if kind == BASE {
            flush_cluster(&mut out, &mut cluster, Ghost(b));
            let part = ClsPart { c1: g, c2: None, type_: kind };
            cluster.push(part);
            proof {
                assert(part_of(part) == lone_part(s[k as int]));
                assert(parts_of(cluster@) =~= Seq::<Part>::empty().push(lone_part(s[k as int])));
                assert(glyph_chars(out@) + reorder_from(s, k + 1, parts_of(cluster@)) =~= before
                    + reorder_from(s, k as int, gathered));
            }
            k += 1;
        } else if kind == COENG {
            let mut carried: Option<Glyph> = None;
            if k + 1 < n {
                let next = glyphs[k + 1];
                proof {
                    lemma_glyph_code(b, next);
                    assert(s[k + 1] == glyph_char(next));
                }
                if char_type_exec(next.code) == BASE {
                    carried = Some(next);
                }
            }
            let part = ClsPart { c1: g, c2: carried, type_: kind };
            cluster.push(part);
            proof {
                assert(parts_of(cluster@) =~= gathered.push(part_of(part)));
            }
            if carried.is_some() {
                k += 2;
            } else {
                k += 1;
            }
        } else if kind != OTHER {
            if cluster.len() > 0 {
                let part = ClsPart { c1: g, c2: None, type_: kind };
                cluster.push(part);
                proof {
                    assert(parts_of(cluster@) =~= gathered.push(part_of(part)));
                }
            } else {
                out.push(g);
                proof {
                    assert(glyph_chars(out@) =~= before + seq![s[k as int]]);
                    assert(glyph_chars(out@) + reorder_from(s, k + 1, parts_of(cluster@))
                        =~= before + reorder_from(s, k as int, gathered));
                }
            }
            k += 1;
        } else {
            flush_cluster(&mut out, &mut cluster, Ghost(b));
            let ghost middle = glyph_chars(out@);
            out.push(g);
            proof {
                assert(parts_of(cluster@) =~= Seq::<Part>::empty());
                assert(glyph_chars(out@) =~= middle + seq![s[k as int]]);
                assert(glyph_chars(out@) + reorder_from(s, k + 1, parts_of(cluster@)) =~= before
                    + reorder_from(s, k as int, gathered));
            }
            k += 1;
        }
    }
    let ghost before = glyph_chars(out@);
    let ghost gathered = parts_of(cluster@);
    flush_cluster(&mut out, &mut cluster, Ghost(b));
    out
}

/// The part of `text` between two of its character boundaries.
pub fn slice_of<'a>(text: &'a str, start: usize, end: usize) -> (r: &'a str)
    requires
        at_boundary(text.spec_bytes(), start as int),
        at_boundary(text.spec_bytes(), end as int),
        start <= end,
    ensures
        r@ == chars_between(text.spec_bytes(), start as int, end as int),
        r.spec_bytes() == text.spec_bytes().subrange(start as int, end as int),
{
    let ghost b = text.spec_bytes();
    proof {
        encode_utf8_valid_utf8(text@);
        lemma_boundary_is_char_boundary(b, end as int);
        lemma_chars_from_start(text@);
        lemma_chars_between(b, 0, end as int);
        lemma_chars_between(b, start as int, end as int);
    }
    let (head, _tail) = text.split_at(end);
    proof {
        let hb = head.spec_bytes();
        assert(hb =~= b.subrange(0, end as int));
        assert(hb.subrange(start as int, hb.len() as int) =~= b.subrange(start as int, end as int));
        assert(at_boundary(hb, start as int));
        lemma_boundary_is_char_boundary(hb, start as int);
    }
    let (_before, piece) = head.split_at(start);
    proof {
        assert(piece.spec_bytes() =~= b.subrange(start as int, end as int));
        encode_utf8_decode_utf8(piece@);
    }
    piece
}

/// The string that a run of glyphs of `text` stands for.
fn emit_string(text: &str, glyphs: &Vec<Glyph>) -> (out: String)
    requires
        glyphs_ok(text.spec_bytes(), glyphs@),
    ensures
        out@ == glyph_chars(glyphs@),
{
    let ghost b = text.spec_bytes();
    let n = text.as_bytes().len();
    let mut out = String::new();
    let mut k: usize = 0;
    while k < glyphs.len()
        invariant
            0 <= k <= glyphs.len(),
            b == text.spec_bytes(),
            n == b.len(),
            glyphs_ok(b, glyphs@),
            out@ == glyph_chars(glyphs@).take(k as int),
        decreases glyphs.len() - k,
    {
        let g = glyphs[k];
        let ghost before = out@;
        if g.width == 0 {
            if g.code == 0x17BE {
                proof {
                    reveal_strlit("\u{17BE}");
                }
                out.append("\u{17BE}");
                assert(out@ =~= before + seq![glyph_char(g)]);
            } else {
                proof {
                    reveal_strlit("\u{17C4}");
                }
                out.append("\u{17C4}");
                assert(out@ =~= before + seq![glyph_char(g)]);
            }
        } else {
            proof {
                lemma_decode_step(b, g.at as int);
                lemma_glyph_code(b, g);
                let s = chars_from(b, g.at as int);
                lemma_byte_offset_zero(s);
                lemma_byte_offset_step(s, 0);
                lemma_between_count(b, g.at as int, g.at + g.width, 1);
                assert(s.take(1) =~= seq![glyph_char(g)]);
            }
            let piece = slice_of(text, g.at, g.at + g.width);
            out.append(piece);
            assert(out@ =~= before + seq![glyph_char(g)]);
        }
        proof {
            assert(glyph_chars(glyphs@).take(k + 1) =~= glyph_chars(glyphs@).take(k as int)
                + seq![glyph_char(g)]);
        }
        k += 1;
    }
    assert(glyph_chars(glyphs@).take(k as int) =~= glyph_chars(glyphs@));
    out
}

/// The canonical form of `text`: zero-width characters dropped, OE and AU
/// fused, and the marks of each cluster in canonical order.
pub fn khmer_normalize(text: &str) -> (out: String)
    ensures
        out@ == normalize(text@),
{
    let fused = fuse_pass(text);
    let ordered = reorder_pass(&fused, Ghost(text.spec_bytes()));
    emit_string(text, &ordered)
}

} // verus!
