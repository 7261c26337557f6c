//! What makes the decoder's finished table a table of cheapest ways: every
//! cost in it is the cost of a way that the transitions allow, and no
//! transition from a reached position would lower any cost in it.

use crate::cost::{
    add_spec, is_nan, lemma_add_monotonic, lt_spec, rank, FIFTY, INFINITY, ONE, TENTH, ZERO,
};
use crate::decoder::{
    decode_table, dict_walk, initial_table, lemma_decode_table_ok, lemma_targets, reached, relax,
    run_from, step, table_ok, unknown_cost, unknown_len, DpCell,
};
use crate::kdict::KDict;
use crate::text::{
    at_boundary, chars_from, lemma_chars_from_len, lemma_decode_step, suffix, width_at,
};
use crate::utils::{
    acronym_len, acronym_start, dependent_vowel_code, digit_code, number_len, separator_code,
};
use vstd::prelude::*;
use vstd::utf8::*;

verus! {

/// The bytes from `i` up to `j` are whole characters, at least one and no
/// more bytes than the longest word of the dictionary has.
pub open spec fn word_end(d: &KDict, b: Seq<u8>, i: int, j: int) -> bool {
    i < j <= b.len() && at_boundary(b, j) && j - i <= d.spec_header().max_word_length
}

/// The decoder has a transition from position `i` to position `j` at the
/// cost `c`.
pub open spec fn proposes(
    d: &KDict,
    repair: bool,
    acronym: bool,
    b: Seq<u8>,
    i: int,
    j: int,
    c: u32,
) -> bool {
    let s = chars_from(b, i);
    let first = s[0] as u32;
    let w = width_at(b, i);
    if repair && dependent_vowel_code(first) {
        j == i + w && c == add_spec(d.spec_header().unknown_cost, FIFTY)
    } else {
        ||| digit_code(first) && j == i + number_len(s) && c == ONE
        ||| !digit_code(first) && separator_code(first) && j == i + w && c == TENTH
        ||| acronym && acronym_start(s) && j == i + acronym_len(s) && c
            == d.spec_header().default_cost
        ||| word_end(d, b, i, j) && d.lookup_spec(b.subrange(i, j)) == Some(c)
        ||| j == i + unknown_len(b, i) && c == unknown_cost(d, b, i)
    }
}

/// No cost in the table is not-a-number.
pub open spec fn no_nan(dp: Seq<DpCell>) -> bool {
    forall|k: int| 0 <= k < dp.len() ==> !is_nan((#[trigger] dp[k]).cost)
}

/// Every cost of `new` is that of `old` or less.
pub open spec fn lowered(old: Seq<DpCell>, new: Seq<DpCell>) -> bool {
    &&& old.len() == new.len()
    &&& forall|k: int|
        0 <= k < old.len() ==> (#[trigger] new[k]).cost == old[k].cost || lt_spec(
            new[k].cost,
            old[k].cost,
        )
}

/// No transition from a reached position before `i` would lower the cost
/// of the position it leads to.
pub open spec fn closed(
    d: &KDict,
    repair: bool,
    acronym: bool,
    b: Seq<u8>,
    dp: Seq<DpCell>,
    i: int,
) -> bool {
    forall|from: int, j: int, c: u32|
        0 <= from < i && from < b.len() && at_boundary(b, from) && dp[from].cost != INFINITY && 0
            <= j < dp.len() && #[trigger] proposes(d, repair, acronym, b, from, j, c)
            ==> !lt_spec(add_spec(dp[from].cost, c), dp[j].cost)
}

/// Every position with a predecessor has it before `bound`, and has the
/// cost of the predecessor plus that of a transition from there.
pub open spec fn realized(
    d: &KDict,
    repair: bool,
    acronym: bool,
    b: Seq<u8>,
    dp: Seq<DpCell>,
    bound: int,
) -> bool {
    forall|j: int|
        0 <= j < dp.len() && (#[trigger] dp[j]).prev is Some ==> {
            let p = dp[j].prev->0 as int;
            &&& 0 <= p < bound
            &&& p < j
            &&& exists|c: u32|
                #[trigger] proposes(d, repair, acronym, b, p, j, c) && dp[j].cost == add_spec(
                    dp[p].cost,
                    c,
                )
        }
}

/// What is not less than a cost of the old table is not less than the cost
/// that took its place.
pub proof fn lemma_lowered_keeps(old: Seq<DpCell>, new: Seq<DpCell>, k: int, v: u32)
    requires
        lowered(old, new),
        no_nan(old),
        0 <= k < old.len(),
        !lt_spec(v, old[k].cost),
    ensures
        !lt_spec(v, new[k].cost),
{
    assert(new[k].cost == old[k].cost || lt_spec(new[k].cost, old[k].cost));
    assert(!is_nan(old[k].cost));
}

/// Lowering twice is lowering.
pub proof fn lemma_lowered_chain(a: Seq<DpCell>, m: Seq<DpCell>, z: Seq<DpCell>)
    requires
        lowered(a, m),
        lowered(m, z),
    ensures
        lowered(a, z),
{
    assert forall|k: int| 0 <= k < a.len() implies (#[trigger] z[k]).cost == a[k].cost || lt_spec(
        z[k].cost,
        a[k].cost,
    ) by {
        assert(m[k].cost == a[k].cost || lt_spec(m[k].cost, a[k].cost));
        assert(z[k].cost == m[k].cost || lt_spec(z[k].cost, m[k].cost));
    }
}

/// What the table is like while the transitions from position `i` are
/// made: `i` is reached, every transition from before `i` is settled, and
/// every predecessor is `i` or before it.
pub open spec fn at_work(
    d: &KDict,
    repair: bool,
    acronym: bool,
    b: Seq<u8>,
    dp: Seq<DpCell>,
    i: int,
) -> bool {
    &&& dp.len() == b.len() + 1
    &&& b.len() <= usize::MAX
    &&& 0 <= i < b.len()
    &&& at_boundary(b, i)
    &&& no_nan(dp)
    &&& closed(d, repair, acronym, b, dp, i)
    &&& realized(d, repair, acronym, b, dp, i + 1)
}

/// One transition from position `i`: the table stays as it must be, no
/// cost goes up, and the transition is settled.
pub proof fn lemma_relax_settles(
    d: &KDict,
    repair: bool,
    acronym: bool,
    b: Seq<u8>,
    dp: Seq<DpCell>,
    i: int,
    j: int,
    c: u32,
)
    requires
        at_work(d, repair, acronym, b, dp, i),
        dp[i].cost != INFINITY,
        i < j,
        proposes(d, repair, acronym, b, i, j, c),
    ensures
        at_work(d, repair, acronym, b, relax(dp, i, j, c), i),
        lowered(dp, relax(dp, i, j, c)),
        forall|k: int| 0 <= k < j && k < dp.len() ==> relax(dp, i, j, c)[k] == dp[k],
        j < dp.len() ==> !lt_spec(add_spec(dp[i].cost, c), relax(dp, i, j, c)[j].cost),
{
    let n = relax(dp, i, j, c);
    let v = add_spec(dp[i].cost, c);
    if n == dp {
        assert(lowered(dp, n));
    } else {
        assert(lt_spec(v, dp[j].cost));
        assert(n == dp.update(j, DpCell { cost: v, prev: Some(i as usize) }));
        assert(no_nan(n)) by {
            assert forall|k: int| 0 <= k < n.len() implies !is_nan((#[trigger] n[k]).cost) by {
                if k != j {
                    assert(n[k] == dp[k]);
                }
            }
        }
        assert(lowered(dp, n)) by {
            assert forall|k: int| 0 <= k < dp.len() implies (#[trigger] n[k]).cost == dp[k].cost
                || lt_spec(n[k].cost, dp[k].cost) by {
                if k != j {
                    assert(n[k] == dp[k]);
                }
            }
        }
        assert(closed(d, repair, acronym, b, n, i)) by {
            assert forall|from: int, t: int, e: u32|
                0 <= from < i && from < b.len() && at_boundary(b, from) && n[from].cost
                    != INFINITY && 0 <= t < n.len() && #[trigger] proposes(
                    d,
                    repair,
                    acronym,
                    b,
                    from,
                    t,
                    e,
                ) implies !lt_spec(add_spec(n[from].cost, e), n[t].cost) by {
                assert(n[from] == dp[from]);
                lemma_lowered_keeps(dp, n, t, add_spec(dp[from].cost, e));
            }
        }
        assert(realized(d, repair, acronym, b, n, i + 1)) by {
            assert forall|t: int| 0 <= t < n.len() && (#[trigger] n[t]).prev is Some implies {
                let p = n[t].prev->0 as int;
                &&& 0 <= p < i + 1
                &&& p < t
                &&& exists|e: u32|
                    #[trigger] proposes(d, repair, acronym, b, p, t, e) && n[t].cost == add_spec(
                        n[p].cost,
                        e,
                    )
            } by {
                if t == j {
                    assert(n[i] == dp[i]);
                    assert(proposes(d, repair, acronym, b, i, j, c) && n[j].cost == add_spec(
                        n[i].cost,
                        c,
                    ));
                } else {
                    assert(n[t] == dp[t]);
                    let p = dp[t].prev->0 as int;
                    assert(p < i + 1);
                    assert(n[p] == dp[p]);
                    let e = choose|e: u32|
                        #[trigger] proposes(d, repair, acronym, b, p, t, e) && dp[t].cost
                            == add_spec(dp[p].cost, e);
                    assert(proposes(d, repair, acronym, b, p, t, e) && n[t].cost == add_spec(
                        n[p].cost,
                        e,
                    ));
                }
            }
        }
    }
}

/// Strictly inside a character there is no boundary.
pub proof fn lemma_inside_character(b: Seq<u8>, p: int, j: int)
    requires
        at_boundary(b, p),
        p < b.len(),
        p < j < p + width_at(b, p),
    ensures
        !at_boundary(b, j),
{
    lemma_decode_step(b, p);
    let s = suffix(b, p);
    assert(valid_first_scalar(s));
    assert(is_continuation_byte(s[j - p]));
    if at_boundary(b, j) {
        let t = suffix(b, j);
        assert(t.len() > 0);
        assert(valid_first_scalar(t));
        assert(t[0] == s[j - p]);
    }
}

/// The dictionary's transitions from position `i`, from the prefix that
/// ends at `p` on: the table stays as it must be, no cost goes up, and
/// every word that starts at `i` and ends behind `p` is settled.
pub proof fn lemma_dict_walk_settles(
    d: &KDict,
    repair: bool,
    acronym: bool,
    b: Seq<u8>,
    dp: Seq<DpCell>,
    i: int,
    p: int,
)
    requires
        at_work(d, repair, acronym, b, dp, i),
        dp[i].cost != INFINITY,
        !(repair && dependent_vowel_code(chars_from(b, i)[0] as u32)),
        i <= p,
        at_boundary(b, p),
    ensures
        at_work(d, repair, acronym, b, dict_walk(d, b, dp, i, p), i),
        lowered(dp, dict_walk(d, b, dp, i, p)),
        dict_walk(d, b, dp, i, p)[i] == dp[i],
        forall|j: int|
            p < j && #[trigger] word_end(d, b, i, j) ==> match d.lookup_spec(b.subrange(i, j)) {
                Some(c) => !lt_spec(add_spec(dp[i].cost, c), dict_walk(d, b, dp, i, p)[j].cost),
                None => true,
            },
    decreases b.len() - p,
{
    let out = dict_walk(d, b, dp, i, p);
    let q = p + width_at(b, p);
    if p >= b.len() {
        lemma_chars_from_len(b, p);
        assert(lowered(dp, out));
    } else {
        lemma_decode_step(b, p);
        assert forall|j: int| p < j < q implies !at_boundary(b, j) by {
            lemma_inside_character(b, p, j);
        }
        if q - i > d.spec_header().max_word_length {
            assert(lowered(dp, out));
        } else {
            let found = match d.lookup_spec(b.subrange(i, q)) {
                Some(c) => relax(dp, i, q, c),
                None => dp,
            };
            match d.lookup_spec(b.subrange(i, q)) {
                Some(c) => {
                    assert(word_end(d, b, i, q));
                    lemma_relax_settles(d, repair, acronym, b, dp, i, q, c);
                },
                None => {
                    assert(lowered(dp, found));
                },
            }
            lemma_dict_walk_settles(d, repair, acronym, b, found, i, q);
            lemma_lowered_chain(dp, found, out);
            assert forall|j: int| p < j && #[trigger] word_end(d, b, i, j) implies match d.lookup_spec(
                b.subrange(i, j),
            ) {
                Some(c) => !lt_spec(add_spec(dp[i].cost, c), out[j].cost),
                None => true,
            } by {
                match d.lookup_spec(b.subrange(i, j)) {
                    Some(c) => {
                        if j == q {
                            lemma_lowered_keeps(found, out, j, add_spec(dp[i].cost, c));
                        }
                    },
                    None => {},
                }
            }
        }
    }
}

/// After the transitions from position `i`, every transition from `i` or
/// before it is settled.
pub proof fn lemma_step_settles(
    d: &KDict,
    repair: bool,
    acronym: bool,
    b: Seq<u8>,
    dp: Seq<DpCell>,
    i: int,
)
    requires
        at_work(d, repair, acronym, b, dp, i),
    ensures
        no_nan(step(d, repair, acronym, b, dp, i)),
        step(d, repair, acronym, b, dp, i).len() == dp.len(),
        closed(d, repair, acronym, b, step(d, repair, acronym, b, dp, i), i + 1),
        realized(d, repair, acronym, b, step(d, repair, acronym, b, dp, i), i + 1),
{
    let out = step(d, repair, acronym, b, dp, i);
    let s = chars_from(b, i);
    let first = s[0] as u32;
    let w = width_at(b, i);
    let h = d.spec_header();
    let here = dp[i].cost;
    lemma_targets(b, i);
    if here == INFINITY {
    } else if repair && dependent_vowel_code(first) {
        lemma_relax_settles(d, repair, acronym, b, dp, i, i + w, add_spec(h.unknown_cost, FIFTY));
    } else {
        let dp1 = if digit_code(first) {
            relax(dp, i, i + number_len(s), ONE)
        } else if separator_code(first) {
            relax(dp, i, i + w, TENTH)
        } else {
            dp
        };
        if digit_code(first) {
            lemma_relax_settles(d, repair, acronym, b, dp, i, i + number_len(s), ONE);
        } else if separator_code(first) {
            lemma_relax_settles(d, repair, acronym, b, dp, i, i + w, TENTH);
        } else {
            assert(lowered(dp, dp1));
        }
        let dp2 = if acronym && acronym_start(s) {
            relax(dp1, i, i + acronym_len(s), h.default_cost)
        } else {
            dp1
        };
        if acronym && acronym_start(s) {
            lemma_relax_settles(d, repair, acronym, b, dp1, i, i + acronym_len(s), h.default_cost);
        } else {
            assert(lowered(dp1, dp2));
        }
        let dp3 = dict_walk(d, b, dp2, i, i);
        lemma_dict_walk_settles(d, repair, acronym, b, dp2, i, i);
        lemma_relax_settles(
            d,
            repair,
            acronym,
            b,
            dp3,
            i,
            i + unknown_len(b, i),
            unknown_cost(d, b, i),
        );
        assert(out == relax(dp3, i, i + unknown_len(b, i), unknown_cost(d, b, i)));
        lemma_lowered_chain(dp2, dp3, out);
        lemma_lowered_chain(dp1, dp2, out);
        assert(out[i] == dp[i]);
        assert forall|j: int, c: u32|
            0 <= j < out.len() && #[trigger] proposes(
                d,
                repair,
                acronym,
                b,
                i,
                j,
                c,
            ) implies !lt_spec(add_spec(here, c), out[j].cost) by {
            let v = add_spec(here, c);
            if digit_code(first) && j == i + number_len(s) && c == ONE {
                lemma_lowered_keeps(dp1, out, j, v);
            } else if !digit_code(first) && separator_code(first) && j == i + w && c == TENTH {
                lemma_lowered_keeps(dp1, out, j, v);
            } else if acronym && acronym_start(s) && j == i + acronym_len(s) && c
                == h.default_cost {
                lemma_lowered_keeps(dp2, out, j, v);
            } else if word_end(d, b, i, j) && d.lookup_spec(b.subrange(i, j)) == Some(c) {
                assert(!lt_spec(add_spec(dp2[i].cost, c), dp3[j].cost));
                lemma_lowered_keeps(dp3, out, j, v);
            } else {
            }
        }
    }
    assert(closed(d, repair, acronym, b, out, i + 1)) by {
        assert forall|from: int, j: int, c: u32|
            0 <= from < i + 1 && from < b.len() && at_boundary(b, from) && out[from].cost
                != INFINITY && 0 <= j < out.len() && #[trigger] proposes(
                d,
                repair,
                acronym,
                b,
                from,
                j,
                c,
            ) implies !lt_spec(add_spec(out[from].cost, c), out[j].cost) by {
            if from < i {
            }
        }
    }
}

/// Run on from position `i`, the decoder ends with a table in which every
/// transition from a reached position is settled and every cost is that of
/// a predecessor plus a transition.
pub proof fn lemma_run_settles(
    d: &KDict,
    repair: bool,
    acronym: bool,
    b: Seq<u8>,
    dp: Seq<DpCell>,
    i: int,
)
    requires
        dp.len() == b.len() + 1,
        b.len() <= usize::MAX,
        0 <= i <= b.len(),
        at_boundary(b, i),
        no_nan(dp),
        closed(d, repair, acronym, b, dp, i),
        realized(d, repair, acronym, b, dp, i),
    ensures
        no_nan(run_from(d, repair, acronym, b, dp, i)),
        closed(d, repair, acronym, b, run_from(d, repair, acronym, b, dp, i), b.len() as int),
        realized(d, repair, acronym, b, run_from(d, repair, acronym, b, dp, i), b.len() as int),
    decreases b.len() - i,
{
    if i >= b.len() {
        lemma_chars_from_len(b, i);
    } else {
        lemma_decode_step(b, i);
        let next = i + width_at(b, i);
        let after = step(d, repair, acronym, b, dp, i);
        lemma_step_settles(d, repair, acronym, b, dp, i);
        assert(closed(d, repair, acronym, b, after, next)) by {
            assert forall|from: int, j: int, c: u32|
                0 <= from < next && from < b.len() && at_boundary(b, from) && after[from].cost
                    != INFINITY && 0 <= j < after.len() && #[trigger] proposes(
                    d,
                    repair,
                    acronym,
                    b,
                    from,
                    j,
                    c,
                ) implies !lt_spec(add_spec(after[from].cost, c), after[j].cost) by {
                if from > i {
                    lemma_inside_character(b, i, from);
                }
            }
        }
        lemma_run_settles(d, repair, acronym, b, after, next);
    }
}

/// The finished table is a table of cheapest ways. No cost in it is
/// not-a-number; a position with a predecessor has the cost of the
/// predecessor plus that of a transition from it; and no transition from a
/// reached position leads to a cost that is less than the one the table
/// holds for its target.
pub proof fn lemma_table_is_optimal(d: &KDict, repair: bool, acronym: bool, b: Seq<u8>)
    requires
        at_boundary(b, 0),
        b.len() <= usize::MAX,
    ensures
        no_nan(decode_table(d, repair, acronym, b)),
        closed(d, repair, acronym, b, decode_table(d, repair, acronym, b), b.len() as int),
        realized(d, repair, acronym, b, decode_table(d, repair, acronym, b), b.len() as int),
{
    let start = initial_table(b.len());
    assert(no_nan(start));
    lemma_run_settles(d, repair, acronym, b, start, 0);
}

/// A way through the text from position `from`: steps, each with the
/// position it leads to and its cost, each a transition of the decoder from
/// where the step before it led.
pub open spec fn is_way(
    d: &KDict,
    repair: bool,
    acronym: bool,
    b: Seq<u8>,
    from: int,
    steps: Seq<(int, u32)>,
) -> bool
    decreases steps.len(),
{
    if steps.len() == 0 {
        true
    } else {
        &&& 0 <= from < b.len()
        &&& at_boundary(b, from)
        &&& 0 <= steps[0].0 <= b.len()
        &&& proposes(d, repair, acronym, b, from, steps[0].0, steps[0].1)
        &&& is_way(d, repair, acronym, b, steps[0].0, steps.drop_first())
    }
}

/// Where a way from `from` ends.
pub open spec fn way_end(from: int, steps: Seq<(int, u32)>) -> int {
    if steps.len() == 0 {
        from
    } else {
        steps.last().0
    }
}

/// What a way costs on top of `start`: the costs of its steps, added one
/// after the other.
pub open spec fn way_cost(start: u32, steps: Seq<(int, u32)>) -> u32
    decreases steps.len(),
{
    if steps.len() == 0 {
        start
    } else {
        way_cost(add_spec(start, steps[0].1), steps.drop_first())
    }
}

/// A way that starts at a position with no less than the table's cost ends
/// with no less than the table's cost.
pub proof fn lemma_way_bound(
    d: &KDict,
    repair: bool,
    acronym: bool,
    b: Seq<u8>,
    dp: Seq<DpCell>,
    from: int,
    start: u32,
    steps: Seq<(int, u32)>,
)
    requires
        dp.len() == b.len() + 1,
        no_nan(dp),
        closed(d, repair, acronym, b, dp, b.len() as int),
        0 <= from <= b.len(),
        !lt_spec(start, dp[from].cost),
        is_way(d, repair, acronym, b, from, steps),
    ensures
        0 <= way_end(from, steps) <= b.len(),
        !lt_spec(way_cost(start, steps), dp[way_end(from, steps)].cost),
    decreases steps.len(),
{
    if steps.len() > 0 {
        let j = steps[0].0;
        let c = steps[0].1;
        let next = add_spec(start, c);
        let rest = steps.drop_first();
        assert(!is_nan(dp[from].cost));
        assert(!is_nan(dp[j].cost));
        assert(!lt_spec(next, dp[j].cost)) by {
            if dp[from].cost == INFINITY {
                // only infinity and not-a-number are not less than infinity
            } else {
                let through = add_spec(dp[from].cost, c);
                assert(!lt_spec(through, dp[j].cost));
                lemma_add_monotonic(start, dp[from].cost, c);
            }
        }
        lemma_way_bound(d, repair, acronym, b, dp, j, next, rest);
        if rest.len() > 0 {
            assert(rest.last() == steps.last());
        }
    }
}

/// A way with one more step at its end.
pub proof fn lemma_way_push(
    d: &KDict,
    repair: bool,
    acronym: bool,
    b: Seq<u8>,
    from: int,
    start: u32,
    steps: Seq<(int, u32)>,
    j: int,
    c: u32,
)
    requires
        is_way(d, repair, acronym, b, from, steps),
        0 <= way_end(from, steps) < b.len(),
        at_boundary(b, way_end(from, steps)),
        0 <= j <= b.len(),
        proposes(d, repair, acronym, b, way_end(from, steps), j, c),
    ensures
        is_way(d, repair, acronym, b, from, steps.push((j, c))),
        way_end(from, steps.push((j, c))) == j,
        way_cost(start, steps.push((j, c))) == add_spec(way_cost(start, steps), c),
    decreases steps.len(),
{
    let more = steps.push((j, c));
    assert(more.last() == (j, c));
    if steps.len() == 0 {
        assert(more[0] == (j, c));
        assert(more.drop_first() =~= Seq::<(int, u32)>::empty());
        assert(is_way(d, repair, acronym, b, j, more.drop_first()));
        assert(way_cost(start, more) == way_cost(add_spec(start, c), more.drop_first()));
    } else {
        let rest = steps.drop_first();
        assert(more.drop_first() =~= rest.push((j, c)));
        assert(more[0] == steps[0]);
        if rest.len() > 0 {
            assert(rest.last() == steps.last());
        } else {
            assert(steps.last() == steps[0]);
        }
        assert(way_end(steps[0].0, rest) == way_end(from, steps));
        lemma_way_push(d, repair, acronym, b, steps[0].0, add_spec(start, steps[0].1), rest, j, c);
        assert(way_cost(start, more) == way_cost(add_spec(start, more[0].1), more.drop_first()));
    }
}

/// Every reached position of the finished table is the end of a way from
/// the start that costs what the table holds for it.
pub proof fn lemma_way_to(d: &KDict, repair: bool, acronym: bool, b: Seq<u8>, j: int) -> (steps:
    Seq<(int, u32)>)
    requires
        at_boundary(b, 0),
        b.len() <= usize::MAX,
        0 <= j <= b.len(),
        reached(decode_table(d, repair, acronym, b), j),
    ensures
        is_way(d, repair, acronym, b, 0, steps),
        way_end(0, steps) == j,
        way_cost(ZERO, steps) == decode_table(d, repair, acronym, b)[j].cost,
    decreases j,
{
    let dp = decode_table(d, repair, acronym, b);
    lemma_decode_table_ok(d, repair, acronym, b);
    lemma_table_is_optimal(d, repair, acronym, b);
    if j == 0 {
        Seq::empty()
    } else {
        assert(dp[j].prev is Some);
        let p = dp[j].prev->0 as int;
        assert(reached(dp, p));
        let c = choose|c: u32|
            #[trigger] proposes(d, repair, acronym, b, p, j, c) && dp[j].cost == add_spec(
                dp[p].cost,
                c,
            );
        let before = lemma_way_to(d, repair, acronym, b, p);
        lemma_way_push(d, repair, acronym, b, 0, ZERO, before, j, c);
        before.push((j, c))
    }
}

/// The decoder finds a cheapest way: no way from the start of the text to
/// a position costs less than the finished table holds for that position.
pub proof fn lemma_no_cheaper_way(
    d: &KDict,
    repair: bool,
    acronym: bool,
    b: Seq<u8>,
    steps: Seq<(int, u32)>,
)
    requires
        at_boundary(b, 0),
        b.len() <= usize::MAX,
        is_way(d, repair, acronym, b, 0, steps),
    ensures
        0 <= way_end(0, steps) <= b.len(),
        !lt_spec(
            way_cost(ZERO, steps),
            decode_table(d, repair, acronym, b)[way_end(0, steps)].cost,
        ),
{
    let dp = decode_table(d, repair, acronym, b);
    lemma_decode_table_ok(d, repair, acronym, b);
    lemma_table_is_optimal(d, repair, acronym, b);
    lemma_way_bound(d, repair, acronym, b, dp, 0, ZERO, steps);
}

/// Every cell of `new` is the cell of `old`, or costs less and was reached
/// from position `i` or behind it.
pub open spec fn changed_from(old: Seq<DpCell>, new: Seq<DpCell>, i: int) -> bool {
    &&& old.len() == new.len()
    &&& forall|k: int|
        0 <= k < old.len() ==> (#[trigger] new[k]) == old[k] || (lt_spec(new[k].cost, old[k].cost)
            && new[k].prev is Some && new[k].prev->0 >= i)
}

/// Changes from `i` on and then from `j` on, behind `i`, are changes from
/// `i` on.
pub proof fn lemma_changed_chain(a: Seq<DpCell>, m: Seq<DpCell>, z: Seq<DpCell>, i: int, j: int)
    requires
        changed_from(a, m, i),
        changed_from(m, z, j),
        i <= j,
    ensures
        changed_from(a, z, i),
{
    assert forall|k: int| 0 <= k < a.len() implies (#[trigger] z[k]) == a[k] || (lt_spec(
        z[k].cost,
        a[k].cost,
    ) && z[k].prev is Some && z[k].prev->0 >= i) by {
        assert(m[k] == a[k] || lt_spec(m[k].cost, a[k].cost));
        assert(z[k] == m[k] || lt_spec(z[k].cost, m[k].cost));
    }
}

/// One proposal from position `i` changes the table from `i` on.
pub proof fn lemma_relax_changes(dp: Seq<DpCell>, i: int, j: int, c: u32)
    requires
        0 <= i <= usize::MAX,
    ensures
        changed_from(dp, relax(dp, i, j, c), i),
{
    let n = relax(dp, i, j, c);
    assert forall|k: int| 0 <= k < dp.len() implies (#[trigger] n[k]) == dp[k] || (lt_spec(
        n[k].cost,
        dp[k].cost,
    ) && n[k].prev is Some && n[k].prev->0 >= i) by {
        if n != dp && k != j {
            assert(n[k] == dp[k]);
        }
    }
}

/// The dictionary's proposals from position `i` change the table from `i`
/// on.
pub proof fn lemma_dict_walk_changes(d: &KDict, b: Seq<u8>, dp: Seq<DpCell>, i: int, p: int)
    requires
        0 <= i <= usize::MAX,
    ensures
        changed_from(dp, dict_walk(d, b, dp, i, p), i),
    decreases b.len() - p,
{
    let q = p + width_at(b, p);
    if p < 0 || q > b.len() || q - i > d.spec_header().max_word_length {
    } else {
        let found = match d.lookup_spec(b.subrange(i, q)) {
            Some(c) => relax(dp, i, q, c),
            None => dp,
        };
        match d.lookup_spec(b.subrange(i, q)) {
            Some(c) => {
                lemma_relax_changes(dp, i, q, c);
            },
            None => {},
        }
        lemma_dict_walk_changes(d, b, found, i, q);
        lemma_changed_chain(dp, found, dict_walk(d, b, dp, i, p), i, i);
    }
}

/// The proposals from position `i` change the table from `i` on.
pub proof fn lemma_step_changes(
    d: &KDict,
    repair: bool,
    acronym: bool,
    b: Seq<u8>,
    dp: Seq<DpCell>,
    i: int,
)
    requires
        0 <= i <= usize::MAX,
    ensures
        changed_from(dp, step(d, repair, acronym, b, dp, i), i),
{
    let s = chars_from(b, i);
    let first = s[0] as u32;
    let w = width_at(b, i);
    let h = d.spec_header();
    if dp[i].cost == INFINITY {
    } else if repair && dependent_vowel_code(first) {
        lemma_relax_changes(dp, i, i + w, add_spec(h.unknown_cost, FIFTY));
    } else {
        let dp1 = if digit_code(first) {
            relax(dp, i, i + number_len(s), ONE)
        } else if separator_code(first) {
            relax(dp, i, i + w, TENTH)
        } else {
            dp
        };
        lemma_relax_changes(dp, i, i + number_len(s), ONE);
        lemma_relax_changes(dp, i, i + w, TENTH);
        let dp2 = if acronym && acronym_start(s) {
            relax(dp1, i, i + acronym_len(s), h.default_cost)
        } else {
            dp1
        };
        lemma_relax_changes(dp1, i, i + acronym_len(s), h.default_cost);
        let dp3 = dict_walk(d, b, dp2, i, i);
        lemma_dict_walk_changes(d, b, dp2, i, i);
        let dp4 = relax(dp3, i, i + unknown_len(b, i), unknown_cost(d, b, i));
        lemma_relax_changes(dp3, i, i + unknown_len(b, i), unknown_cost(d, b, i));
        lemma_changed_chain(dp, dp1, dp2, i, i);
        lemma_changed_chain(dp, dp2, dp3, i, i);
        lemma_changed_chain(dp, dp3, dp4, i, i);
    }
}

/// Run on from position `i`, the decoder changes the table from `i` on.
pub proof fn lemma_run_changes(
    d: &KDict,
    repair: bool,
    acronym: bool,
    b: Seq<u8>,
    dp: Seq<DpCell>,
    i: int,
)
    requires
        0 <= i,
        b.len() <= usize::MAX,
    ensures
        changed_from(dp, run_from(d, repair, acronym, b, dp, i), i),
    decreases b.len() - i,
{
    if i + width_at(b, i) > b.len() {
    } else {
        let after = step(d, repair, acronym, b, dp, i);
        let next = i + width_at(b, i);
        lemma_step_changes(d, repair, acronym, b, dp, i);
        lemma_run_changes(d, repair, acronym, b, after, next);
        lemma_changed_chain(dp, after, run_from(d, repair, acronym, b, dp, i), i, next);
    }
}

/// A text that is a word of the dictionary is reached in one step from its
/// start, unless a way of several steps costs less than the word.
pub proof fn lemma_word_in_one_step(d: &KDict, repair: bool, acronym: bool, b: Seq<u8>, c: u32)
    requires
        at_boundary(b, 0),
        0 < b.len() <= usize::MAX,
        b.len() <= d.spec_header().max_word_length,
        d.lookup_spec(b) == Some(c),
        lt_spec(add_spec(ZERO, c), INFINITY),
        !(repair && dependent_vowel_code(chars_from(b, 0)[0] as u32)),
        forall|steps: Seq<(int, u32)>|
            steps.len() >= 2 && #[trigger] is_way(d, repair, acronym, b, 0, steps) && way_end(
                0,
                steps,
            ) == b.len() ==> !lt_spec(way_cost(ZERO, steps), add_spec(ZERO, c)),
    ensures
        decode_table(d, repair, acronym, b)[b.len() as int].prev == Some(0usize),
{
    let n = b.len() as int;
    let start = initial_table(b.len());
    let first = step(d, repair, acronym, b, start, 0);
    let last = decode_table(d, repair, acronym, b);
    let word = add_spec(ZERO, c);
    lemma_decode_step(b, 0);
    let next = width_at(b, 0);
    assert(last == run_from(d, repair, acronym, b, first, next));
    // after the first step, the end is reached from the start
    assert(no_nan(start));
    assert(at_work(d, repair, acronym, b, start, 0));
    lemma_step_settles(d, repair, acronym, b, start, 0);
    lemma_step_changes(d, repair, acronym, b, start, 0);
    assert(b.subrange(0, n) =~= b);
    assert(word_end(d, b, 0, n)) by {
        lemma_chars_from_len(b, n);
        assert(suffix(b, n) =~= Seq::<u8>::empty());
    }
    assert(proposes(d, repair, acronym, b, 0, n, c));
    assert(!lt_spec(word, first[n].cost));
    assert(first[n] != start[n]);
    assert(first[n].prev == Some(0usize));
    // what comes later only replaces it by something cheaper
    lemma_run_changes(d, repair, acronym, b, first, next);
    if last[n] != first[n] {
        assert(lt_spec(last[n].cost, first[n].cost));
        let p = last[n].prev->0 as int;
        assert(p >= next);
        lemma_decode_table_ok(d, repair, acronym, b);
        lemma_table_is_optimal(d, repair, acronym, b);
        assert(reached(last, p));
        let e = choose|e: u32|
            #[trigger] proposes(d, repair, acronym, b, p, n, e) && last[n].cost == add_spec(
                last[p].cost,
                e,
            );
        let before = lemma_way_to(d, repair, acronym, b, p);
        lemma_way_push(d, repair, acronym, b, 0, ZERO, before, n, e);
        let way = before.push((n, e));
        assert(before.len() >= 1);
        assert(way.len() >= 2);
        assert(is_way(d, repair, acronym, b, 0, way) && way_end(0, way) == b.len());
        assert(!lt_spec(way_cost(ZERO, way), word));
    }
}

/// A text that is a word of the dictionary costs, in the finished table,
/// no more than the word.
pub proof fn lemma_word_settled(d: &KDict, repair: bool, acronym: bool, b: Seq<u8>, c: u32)
    requires
        at_boundary(b, 0),
        0 < b.len() <= usize::MAX,
        b.len() <= d.spec_header().max_word_length,
        d.lookup_spec(b) == Some(c),
        !(repair && dependent_vowel_code(chars_from(b, 0)[0] as u32)),
    ensures
        !lt_spec(add_spec(ZERO, c), decode_table(d, repair, acronym, b)[b.len() as int].cost),
{
    let n = b.len() as int;
    let last = decode_table(d, repair, acronym, b);
    lemma_decode_table_ok(d, repair, acronym, b);
    lemma_table_is_optimal(d, repair, acronym, b);
    assert(b.subrange(0, n) =~= b);
    assert(word_end(d, b, 0, n)) by {
        lemma_chars_from_len(b, n);
        assert(suffix(b, n) =~= Seq::<u8>::empty());
    }
    assert(proposes(d, repair, acronym, b, 0, n, c));
    assert(last[0].cost == ZERO);
    assert(!lt_spec(add_spec(last[0].cost, c), last[n].cost));
}

/// Where the end of a text is reached from within the text, a way of
/// several steps leads there at the cost that the finished table holds.
pub proof fn lemma_cut_way(d: &KDict, repair: bool, acronym: bool, b: Seq<u8>) -> (way: Seq<
    (int, u32),
>)
    requires
        at_boundary(b, 0),
        0 < b.len() <= usize::MAX,
        decode_table(d, repair, acronym, b)[b.len() as int].prev is Some,
        decode_table(d, repair, acronym, b)[b.len() as int].prev->0 != 0,
    ensures
        way.len() >= 2,
        is_way(d, repair, acronym, b, 0, way),
        way_end(0, way) == b.len(),
        way_cost(ZERO, way) == decode_table(d, repair, acronym, b)[b.len() as int].cost,
{
    let n = b.len() as int;
    let last = decode_table(d, repair, acronym, b);
    lemma_decode_table_ok(d, repair, acronym, b);
    lemma_table_is_optimal(d, repair, acronym, b);
    let p = last[n].prev->0 as int;
    assert(reached(last, p));
    let e = choose|e: u32|
        #[trigger] proposes(d, repair, acronym, b, p, n, e) && last[n].cost == add_spec(
            last[p].cost,
            e,
        );
    let before = lemma_way_to(d, repair, acronym, b, p);
    lemma_way_push(d, repair, acronym, b, 0, ZERO, before, n, e);
    assert(before.len() >= 1);
    before.push((n, e))
}

/// A text that is a word of the dictionary, and that costs less as one
/// word than any way of several steps through it, is reached in one step
/// from its start, if its end is reached at all.
pub proof fn lemma_word_not_cut(d: &KDict, repair: bool, acronym: bool, b: Seq<u8>, c: u32)
    requires
        at_boundary(b, 0),
        0 < b.len() <= usize::MAX,
        b.len() <= d.spec_header().max_word_length,
        d.lookup_spec(b) == Some(c),
        !(repair && dependent_vowel_code(chars_from(b, 0)[0] as u32)),
        forall|steps: Seq<(int, u32)>|
            steps.len() >= 2 && #[trigger] is_way(d, repair, acronym, b, 0, steps) && way_end(
                0,
                steps,
            ) == b.len() ==> lt_spec(add_spec(ZERO, c), way_cost(ZERO, steps)),
    ensures
        decode_table(d, repair, acronym, b)[b.len() as int].prev is None || decode_table(
            d,
            repair,
            acronym,
            b,
        )[b.len() as int].prev == Some(0usize),
{
    let n = b.len() as int;
    let last = decode_table(d, repair, acronym, b);
    if last[n].prev is Some && last[n].prev->0 != 0 {
        let way = lemma_cut_way(d, repair, acronym, b);
        lemma_word_settled(d, repair, acronym, b, c);
    }
}

} // verus!
