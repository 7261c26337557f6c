//! The minimum-cost decoder: a table over the byte positions of a text,
//! filled from left to right by the transitions that leave each position,
//! and the chain of predecessors that leads back from the end.

use crate::cost::{add_spec, cost_add, cost_lt, lt_spec, FIFTY, INFINITY, ONE, TEN, TENTH, ZERO};
use crate::kdict::KDict;
use crate::segments::{aligned, tiles};
use crate::text::{
    at_boundary, chars_from, decode_at, lemma_chars_from_len, lemma_decode_step,
    lemma_offset_boundary, suffix, width_at,
};
use crate::utils::{
    acronym_chars, acronym_len, acronym_length_at, acronym_start, acronym_start_at, base_code,
    base_code_exec, cluster_chars, cluster_len, cluster_length_at, dependent_vowel_code,
    digit_code, digit_code_exec, djb2, djb2_step_exec, khmer_code, khmer_code_exec,
    lemma_acronym_chars_bounds, lemma_cluster_chars_bounds, lemma_number_chars_bounds,
    number_chars, number_len, number_length_at, separator_code, separator_code_exec,
};
use vstd::prelude::*;

verus! {

/// One cell of the table: the cost of the cheapest way found to reach a
/// position, and the position it was reached from. A position not reached
/// has infinite cost and no predecessor.
#[derive(Debug, Clone, Copy)]
pub struct DpCell {
    pub cost: u32,
    pub prev: Option<usize>,
}

/// The table before any transition: the start costs nothing, no other
/// position is reached.
pub open spec fn initial_table(n: nat) -> Seq<DpCell> {
    Seq::new(
        n + 1,
        |j: int|
            if j == 0 {
                DpCell { cost: ZERO, prev: None }
            } else {
                DpCell { cost: INFINITY, prev: None }
            },
    )
}

/// Proposes to reach `j` from `i` at the cost of `i` plus `c`: taken where
/// that is strictly less than what `j` has.
pub open spec fn relax(dp: Seq<DpCell>, i: int, j: int, c: u32) -> Seq<DpCell> {
    let proposed = add_spec(dp[i].cost, c);
    if 0 <= j < dp.len() && lt_spec(proposed, dp[j].cost) {
        dp.update(j, DpCell { cost: proposed, prev: Some(i as usize) })
    } else {
        dp
    }
}

/// The dictionary transitions from `i`: each prefix of the text at `i` that
/// ends with a character, from the one that ends at `p` on and no longer
/// than the longest word, is looked up, and a hit proposes its end.
pub open spec fn dict_walk(d: &KDict, b: Seq<u8>, dp: Seq<DpCell>, i: int, p: int) -> Seq<DpCell>
    decreases b.len() - p,
{
    let q = p + width_at(b, p);
    if p < 0 || q > b.len() || q - i > d.spec_header().max_word_length {
        dp
    } else {
        let found = match d.lookup_spec(b.subrange(i, q)) {
            Some(c) => relax(dp, i, q, c),
            None => dp,
        };
        dict_walk(d, b, found, i, q)
    }
}

/// Byte length of the fallback transition from `i`: the cluster at `i` for a
/// Khmer character, else the one character.
pub open spec fn unknown_len(b: Seq<u8>, i: int) -> int {
    let s = chars_from(b, i);
    if khmer_code(s[0] as u32) {
        cluster_len(s) as int
    } else {
        width_at(b, i)
    }
}

/// Cost of the fallback transition from `i`: the dictionary's cost of an
/// unknown, and 10 more for a single Khmer character that cannot stand
/// alone.
pub open spec fn unknown_cost(d: &KDict, b: Seq<u8>, i: int) -> u32 {
    let c = chars_from(b, i)[0] as u32;
    if unknown_len(b, i) == width_at(b, i) && khmer_code(c) && !base_code(c) {
        add_spec(d.spec_header().unknown_cost, TEN)
    } else {
        d.spec_header().unknown_cost
    }
}

/// The table after the transitions that leave position `i`.
pub open spec fn step(
    d: &KDict,
    repair: bool,
    acronym: bool,
    b: Seq<u8>,
    dp: Seq<DpCell>,
    i: int,
) -> Seq<DpCell> {
    let s = chars_from(b, i);
    let c = s[0] as u32;
    let w = width_at(b, i);
    if dp[i].cost == INFINITY {
        dp
    } else if repair && dependent_vowel_code(c) {
        relax(dp, i, i + w, add_spec(d.spec_header().unknown_cost, FIFTY))
    } else {
        let dp1 = if digit_code(c) {
            relax(dp, i, i + number_len(s), ONE)
        } else if separator_code(c) {
            relax(dp, i, i + w, TENTH)
        } else {
            dp
        };
        let dp2 = if acronym && acronym_start(s) {
            relax(dp1, i, i + acronym_len(s), d.spec_header().default_cost)
        } else {
            dp1
        };
        let dp3 = dict_walk(d, b, dp2, i, i);
        relax(dp3, i, i + unknown_len(b, i), unknown_cost(d, b, i))
    }
}

/// The table after the transitions of every character from position `i` on.
pub open spec fn run_from(
    d: &KDict,
    repair: bool,
    acronym: bool,
    b: Seq<u8>,
    dp: Seq<DpCell>,
    i: int,
) -> Seq<DpCell>
    decreases b.len() - i,
{
    if i < 0 || i + width_at(b, i) > b.len() {
        dp
    } else {
        run_from(d, repair, acronym, b, step(d, repair, acronym, b, dp, i), i + width_at(b, i))
    }
}

/// The finished table for the text `b`.
pub open spec fn decode_table(d: &KDict, repair: bool, acronym: bool, b: Seq<u8>) -> Seq<DpCell> {
    run_from(d, repair, acronym, b, initial_table(b.len()), 0)
}

/// Position `j` of the table has been reached.
pub open spec fn reached(dp: Seq<DpCell>, j: int) -> bool {
    j == 0 || dp[j].prev is Some
}

/// What holds of a table at every moment: the start is free, a position
/// with a predecessor was reached from an earlier reached position, both on
/// character boundaries, and a position without one has infinite cost.
pub open spec fn table_ok(b: Seq<u8>, dp: Seq<DpCell>) -> bool {
    &&& dp.len() == b.len() + 1
    &&& b.len() <= usize::MAX
    &&& dp[0].cost == ZERO
    &&& dp[0].prev is None
    &&& forall|j: int|
        0 < j < dp.len() ==> match (#[trigger] dp[j]).prev {
            Some(p) => p < j && at_boundary(b, p as int) && at_boundary(b, j) && reached(
                dp,
                p as int,
            ),
            None => dp[j].cost == INFINITY,
        }
}

/// The segments that the predecessors spell from the start to `j`.
pub open spec fn path(dp: Seq<DpCell>, j: int) -> Seq<(usize, usize)>
    decreases j,
{
    if j <= 0 || j >= dp.len() {
        Seq::empty()
    } else {
        match dp[j].prev {
            Some(p) => if p < j {
                path(dp, p as int).push((p, j as usize))
            } else {
                Seq::empty()
            },
            None => Seq::empty(),
        }
    }
}

/// A proposal from a reached position to a later boundary keeps the table
/// in order.
pub proof fn lemma_relax_ok(b: Seq<u8>, dp: Seq<DpCell>, i: int, j: int, c: u32)
    requires
        table_ok(b, dp),
        0 <= i < j,
        at_boundary(b, i),
        j <= b.len() ==> at_boundary(b, j),
        dp[i].cost != INFINITY,
    ensures
        table_ok(b, relax(dp, i, j, c)),
        relax(dp, i, j, c)[i] == dp[i],
        forall|k: int| 0 <= k < j && k < dp.len() ==> relax(dp, i, j, c)[k] == dp[k],
{
    let r = relax(dp, i, j, c);
    assert(reached(dp, i));
    assert forall|k: int| 0 < k < r.len() implies match (#[trigger] r[k]).prev {
        Some(p) => p < k && at_boundary(b, p as int) && at_boundary(b, k) && reached(r, p as int),
        None => r[k].cost == INFINITY,
    } by {
        if k == j && r != dp {
            assert(r[k].prev == Some(i as usize));
            assert(reached(r, i));
        } else {
            assert(r[k] == dp[k]);
            match dp[k].prev {
                Some(p) => {
                    assert(reached(dp, p as int));
                    assert(p < k);
                    if p as int == j {
                    } else {
                        assert(r[p as int] == dp[p as int]);
                    }
                },
                None => {},
            }
        }
    }
}

/// In a table that is in order, the predecessors of a reached position
/// spell a cut of the bytes up to it.
pub proof fn lemma_path_covers(b: Seq<u8>, dp: Seq<DpCell>, j: int)
    requires
        table_ok(b, dp),
        0 < j < dp.len(),
        dp[j].prev is Some,
    ensures
        aligned(b, path(dp, j)),
        tiles(path(dp, j), j),
    decreases j,
{
    let p = dp[j].prev->0;
    assert(reached(dp, p as int));
    if p == 0 {
        assert(path(dp, 0) =~= Seq::<(usize, usize)>::empty());
        assert(path(dp, j) =~= seq![(p, j as usize)]);
    } else {
        lemma_path_covers(b, dp, p as int);
        let before = path(dp, p as int);
        let all = path(dp, j);
        assert(all == before.push((p, j as usize)));
        assert forall|k: int| 0 <= k < all.len() implies {
            &&& (#[trigger] all[k]).0 < all[k].1
            &&& (#[trigger] all[k]).0 <= all[k].1
            &&& at_boundary(b, all[k].0 as int)
            &&& at_boundary(b, all[k].1 as int)
        } by {
            if k < before.len() {
                assert(all[k] == before[k]);
            }
        }
        assert forall|k: int| 0 <= k < all.len() - 1 implies (#[trigger] all[k]).1 == all[k
            + 1].0 by {
            if k + 1 < before.len() {
                assert(all[k] == before[k]);
                assert(all[k + 1] == before[k + 1]);
            } else {
                assert(all[k] == before.last());
            }
        }
    }
}

/// The dictionary's proposals from a reached position keep the table in
/// order and leave every position up to that one as it is.
pub proof fn lemma_dict_walk_ok(d: &KDict, b: Seq<u8>, dp: Seq<DpCell>, i: int, p: int)
    requires
        table_ok(b, dp),
        at_boundary(b, i),
        at_boundary(b, p),
        0 <= i <= p,
        i < b.len(),
        dp[i].cost != INFINITY,
    ensures
        table_ok(b, dict_walk(d, b, dp, i, p)),
        forall|k: int| 0 <= k <= i ==> dict_walk(d, b, dp, i, p)[k] == dp[k],
    decreases b.len() - p,
{
    let q = p + width_at(b, p);
    if p >= b.len() {
        lemma_chars_from_len(b, p);
    } else {
        lemma_decode_step(b, p);
        if q - i > d.spec_header().max_word_length {
        } else {
            let found = match d.lookup_spec(b.subrange(i, q)) {
                Some(c) => relax(dp, i, q, c),
                None => dp,
            };
            match d.lookup_spec(b.subrange(i, q)) {
                Some(c) => {
                    lemma_relax_ok(b, dp, i, q, c);
                },
                None => {},
            }
            lemma_dict_walk_ok(d, b, found, i, q);
        }
    }
}

/// Where the proposals from position `i` lead are boundaries behind `i`.
pub proof fn lemma_targets(b: Seq<u8>, i: int)
    requires
        at_boundary(b, i),
        i < b.len(),
    ensures
        ({
            let s = chars_from(b, i);
            &&& s.len() > 0
            &&& 1 <= width_at(b, i) && at_boundary(b, i + width_at(b, i))
            &&& digit_code(s[0] as u32) ==> 1 <= number_len(s) && at_boundary(
                b,
                i + number_len(s),
            )
            &&& acronym_start(s) ==> 1 <= acronym_len(s) && at_boundary(b, i + acronym_len(s))
            &&& 1 <= unknown_len(b, i) && at_boundary(b, i + unknown_len(b, i))
        }),
{
    let s = chars_from(b, i);
    lemma_decode_step(b, i);
    lemma_number_chars_bounds(s);
    lemma_acronym_chars_bounds(s);
    lemma_cluster_chars_bounds(s);
    if digit_code(s[0] as u32) {
        lemma_offset_boundary(b, i, number_chars(s));
    }
    if acronym_start(s) {
        lemma_offset_boundary(b, i, acronym_chars(s));
    }
    lemma_offset_boundary(b, i, cluster_chars(s));
}

/// The proposals from position `i` keep the table in order and leave every
/// position up to `i` as it is.
pub proof fn lemma_step_ok(
    d: &KDict,
    repair: bool,
    acronym: bool,
    b: Seq<u8>,
    dp: Seq<DpCell>,
    i: int,
)
    requires
        table_ok(b, dp),
        at_boundary(b, i),
        0 <= i < b.len(),
    ensures
        table_ok(b, step(d, repair, acronym, b, dp, i)),
        forall|k: int| 0 <= k <= i ==> step(d, repair, acronym, b, dp, i)[k] == dp[k],
{
    let s = chars_from(b, i);
    let c = s[0] as u32;
    let w = width_at(b, i);
    lemma_targets(b, i);
    if dp[i].cost == INFINITY {
    } else if repair && dependent_vowel_code(c) {
        lemma_relax_ok(b, dp, i, i + w, add_spec(d.spec_header().unknown_cost, FIFTY));
    } else {
        let dp1 = if digit_code(c) {
            relax(dp, i, i + number_len(s), ONE)
        } else if separator_code(c) {
            relax(dp, i, i + w, TENTH)
        } else {
            dp
        };
        if digit_code(c) {
            lemma_relax_ok(b, dp, i, i + number_len(s), ONE);
        } else if separator_code(c) {
            lemma_relax_ok(b, dp, i, i + w, TENTH);
        }
        let dp2 = if acronym && acronym_start(s) {
            relax(dp1, i, i + acronym_len(s), d.spec_header().default_cost)
        } else {
            dp1
        };
        if acronym && acronym_start(s) {
            lemma_relax_ok(b, dp1, i, i + acronym_len(s), d.spec_header().default_cost);
        }
        let dp3 = dict_walk(d, b, dp2, i, i);
        lemma_dict_walk_ok(d, b, dp2, i, i);
        lemma_relax_ok(b, dp3, i, i + unknown_len(b, i), unknown_cost(d, b, i));
    }
}

/// Running the decoder on from position `i` keeps the table in order and
/// leaves every position before `i` as it is.
pub proof fn lemma_run_ok(
    d: &KDict,
    repair: bool,
    acronym: bool,
    b: Seq<u8>,
    dp: Seq<DpCell>,
    i: int,
)
    requires
        table_ok(b, dp),
        at_boundary(b, i),
        0 <= i,
    ensures
        table_ok(b, run_from(d, repair, acronym, b, dp, i)),
        forall|k: int| 0 <= k < i ==> run_from(d, repair, acronym, b, dp, i)[k] == dp[k],
    decreases b.len() - i,
{
    if i >= b.len() {
        lemma_chars_from_len(b, i);
    } else {
        lemma_decode_step(b, i);
        lemma_step_ok(d, repair, acronym, b, dp, i);
        lemma_run_ok(d, repair, acronym, b, step(d, repair, acronym, b, dp, i), i + width_at(b, i));
    }
}

/// The finished table of a text is in order.
pub proof fn lemma_decode_table_ok(d: &KDict, repair: bool, acronym: bool, b: Seq<u8>)
    requires
        at_boundary(b, 0),
        b.len() <= usize::MAX,
    ensures
        table_ok(b, decode_table(d, repair, acronym, b)),
{
    lemma_run_ok(d, repair, acronym, b, initial_table(b.len()), 0);
}

/// Dictionaries that agree make the same proposals on their walk.
pub proof fn lemma_dict_walk_agrees(
    d1: &KDict,
    d2: &KDict,
    b: Seq<u8>,
    dp: Seq<DpCell>,
    i: int,
    p: int,
)
    requires
        d1.agrees_with(d2),
    ensures
        dict_walk(d1, b, dp, i, p) == dict_walk(d2, b, dp, i, p),
    decreases b.len() - p,
{
    let q = p + width_at(b, p);
    if p < 0 || q > b.len() || q - i > d1.spec_header().max_word_length {
    } else {
        assert(d1.lookup_spec(b.subrange(i, q)) == d2.lookup_spec(b.subrange(i, q)));
        let found = match d1.lookup_spec(b.subrange(i, q)) {
            Some(c) => relax(dp, i, q, c),
            None => dp,
        };
        lemma_dict_walk_agrees(d1, d2, b, found, i, q);
    }
}

/// Dictionaries that agree fill the table alike from position `i` on.
pub proof fn lemma_run_agrees(
    d1: &KDict,
    d2: &KDict,
    repair: bool,
    acronym: bool,
    b: Seq<u8>,
    dp: Seq<DpCell>,
    i: int,
)
    requires
        d1.agrees_with(d2),
    ensures
        step(d1, repair, acronym, b, dp, i) == step(d2, repair, acronym, b, dp, i),
        run_from(d1, repair, acronym, b, dp, i) == run_from(d2, repair, acronym, b, dp, i),
    decreases b.len() - i,
{
    let s = chars_from(b, i);
    let c = s[0] as u32;
    let w = width_at(b, i);
    let dp1 = if digit_code(c) {
        relax(dp, i, i + number_len(s), ONE)
    } else if separator_code(c) {
        relax(dp, i, i + w, TENTH)
    } else {
        dp
    };
    let dp2 = if acronym && acronym_start(s) {
        relax(dp1, i, i + acronym_len(s), d1.spec_header().default_cost)
    } else {
        dp1
    };
    lemma_dict_walk_agrees(d1, d2, b, dp2, i, i);
    assert(unknown_cost(d1, b, i) == unknown_cost(d2, b, i));
    assert(step(d1, repair, acronym, b, dp, i) == step(d2, repair, acronym, b, dp, i));
    if i < 0 || i + width_at(b, i) > b.len() {
    } else {
        lemma_run_agrees(
            d1,
            d2,
            repair,
            acronym,
            b,
            step(d1, repair, acronym, b, dp, i),
            i + width_at(b, i),
        );
    }
}

/// Dictionaries that agree give every text the same finished table.
pub proof fn lemma_tables_agree(d1: &KDict, d2: &KDict, repair: bool, acronym: bool, b: Seq<u8>)
    requires
        d1.agrees_with(d2),
    ensures
        decode_table(d1, repair, acronym, b) == decode_table(d2, repair, acronym, b),
{
    lemma_run_agrees(d1, d2, repair, acronym, b, initial_table(b.len()), 0);
}

/// Makes one proposal in the table.
fn relax_cell(dp: &mut Vec<DpCell>, i: usize, j: usize, c: u32)
    requires
        i < old(dp).len(),
    ensures
        final(dp)@ == relax(old(dp)@, i as int, j as int, c),
{
    let proposed = cost_add(dp[i].cost, c);
    if j < dp.len() && cost_lt(proposed, dp[j].cost) {
        dp.set(j, DpCell { cost: proposed, prev: Some(i) });
    }
}

/// Makes the dictionary's proposals from position `i`.
fn walk_dictionary(d: &KDict, b: &[u8], dp: &mut Vec<DpCell>, i: usize)
    requires
        at_boundary(b@, i as int),
        i < b.len(),
        table_ok(b@, old(dp)@),
        old(dp)@[i as int].cost != INFINITY,
    ensures
        final(dp)@ == dict_walk(d, b@, old(dp)@, i as int, i as int),
        table_ok(b@, final(dp)@),
        final(dp)@[i as int] == old(dp)@[i as int],
{
    let n = b.len();
    let max_len: usize = d.header().max_word_length as usize;
    let mut hash: u32 = 5381;
    let mut p: usize = i;
    assert(b@.subrange(i as int, i as int) =~= Seq::<u8>::empty());
    loop
        invariant
            n == b.len(),
            i <= p <= n,
            i < n,
            max_len == d.spec_header().max_word_length,
            at_boundary(b@, i as int),
            at_boundary(b@, p as int),
            hash == djb2(b@.subrange(i as int, p as int)),
            table_ok(b@, dp@),
            dp@[i as int] == old(dp)@[i as int],
            dp@[i as int].cost != INFINITY,
            dict_walk(d, b@, dp@, i as int, p as int) == dict_walk(
                d,
                b@,
                old(dp)@,
                i as int,
                i as int,
            ),
        ensures
            table_ok(b@, dp@),
            dp@[i as int] == old(dp)@[i as int],
            dp@ == dict_walk(d, b@, old(dp)@, i as int, i as int),
        decreases n - p,
    {
        if p >= n {
            break;
        }
        let (_c, w) = decode_at(b, p);
        let q: usize = p + w;
        if q - i > max_len {
            break;
        }
        let mut t: usize = p;
        while t < q
            invariant
                i <= p <= t <= q <= n,
                n == b.len(),
                hash == djb2(b@.subrange(i as int, t as int)),
            decreases q - t,
        {
            assert(b@.subrange(i as int, t + 1).drop_last() =~= b@.subrange(i as int, t as int));
            hash = djb2_step_exec(hash, b[t]);
            t += 1;
        }
        match d.lookup_hashed(b, i, q, hash) {
            Some(c) => {
                proof {
                    lemma_relax_ok(b@, dp@, i as int, q as int, c);
                }
                relax_cell(dp, i, q, c);
            },
            None => {},
        }
        p = q;
    }
}

/// Makes the proposals that leave position `i`, and returns the width of
/// the character there.
fn step_exec(
    d: &KDict,
    repair: bool,
    acronym: bool,
    b: &[u8],
    dp: &mut Vec<DpCell>,
    i: usize,
) -> (w: usize)
    requires
        at_boundary(b@, i as int),
        i < b.len(),
        table_ok(b@, old(dp)@),
    ensures
        final(dp)@ == step(d, repair, acronym, b@, old(dp)@, i as int),
        table_ok(b@, final(dp)@),
        w == width_at(b@, i as int),
        i + w <= b.len(),
        at_boundary(b@, i + w),
{
    let ghost s = chars_from(b@, i as int);
    let (c, w) = decode_at(b, i);
    if dp[i].cost == INFINITY {
        return w;
    }
    let header = d.header();
    if repair && c >= 0x17B6 && c <= 0x17C5 {
        let repair_cost = cost_add(header.unknown_cost, FIFTY);
        proof {
            lemma_relax_ok(b@, dp@, i as int, i + w, repair_cost);
        }
        relax_cell(dp, i, i + w, repair_cost);
        return w;
    }
    if digit_code_exec(c) {
        let len = number_length_at(b, i);
        proof {
            lemma_relax_ok(b@, dp@, i as int, i + len, ONE);
        }
        relax_cell(dp, i, i + len, ONE);
    } else if separator_code_exec(c) {
        proof {
            lemma_relax_ok(b@, dp@, i as int, i + w, TENTH);
        }
        relax_cell(dp, i, i + w, TENTH);
    }
    if acronym && acronym_start_at(b, i) {
        let len = acronym_length_at(b, i);
        proof {
            lemma_relax_ok(b@, dp@, i as int, i + len, header.default_cost);
        }
        relax_cell(dp, i, i + len, header.default_cost);
    }
    walk_dictionary(d, b, dp, i);
    let khmer = khmer_code_exec(c);
    let cluster_bytes = if khmer {
        cluster_length_at(b, i)
    } else {
        w
    };
    let mut fallback_cost = header.unknown_cost;
    if cluster_bytes == w && khmer && !base_code_exec(c) {
        fallback_cost = cost_add(fallback_cost, TEN);
    }
    proof {
        lemma_relax_ok(b@, dp@, i as int, i + cluster_bytes, fallback_cost);
    }
    relax_cell(dp, i, i + cluster_bytes, fallback_cost);
    w
}

/// Fills the table for the text `b`.
pub fn decode(d: &KDict, repair: bool, acronym: bool, b: &[u8]) -> (dp: Vec<DpCell>)
    requires
        at_boundary(b@, 0),
    ensures
        dp@ == decode_table(d, repair, acronym, b@),
        table_ok(b@, dp@),
{
    let n = b.len();
    let mut dp: Vec<DpCell> = Vec::new();
    dp.push(DpCell { cost: ZERO, prev: None });
    while dp.len() <= n
        invariant
            n == b.len(),
            1 <= dp.len() <= n + 1,
            dp@ =~= initial_table(n as nat).take(dp.len() as int),
        decreases n + 1 - dp.len(),
    {
        dp.push(DpCell { cost: INFINITY, prev: None });
    }
    assert(dp@ =~= initial_table(n as nat));
    let mut i: usize = 0;
    while i < n
        invariant
            n == b.len(),
            0 <= i <= n,
            at_boundary(b@, i as int),
            table_ok(b@, dp@),
            run_from(d, repair, acronym, b@, dp@, i as int) == decode_table(d, repair, acronym, b@),
        decreases n - i,
    {
        let w = step_exec(d, repair, acronym, b, &mut dp, i);
        i = i + w;
    }
    dp
}

/// Follows the predecessors back from the end of the text and returns the
/// segments from first to last; `None` where the end was not reached.
pub fn trace_back(b: &[u8], dp: &Vec<DpCell>) -> (r: Option<Vec<(usize, usize)>>)
    requires
        table_ok(b@, dp@),
        b.len() > 0,
    ensures
        r is None <==> dp@[b.len() as int].prev is None,
        r is Some ==> r->0@ == path(dp@, b.len() as int) && aligned(b@, r->0@) && tiles(
            r->0@,
            b.len() as int,
        ),
{
    let n = b.len();
    if dp[n].prev.is_none() {
        return None;
    }
    let ghost whole = path(dp@, n as int);
    proof {
        lemma_path_covers(b@, dp@, n as int);
    }
    let mut backwards: Vec<(usize, usize)> = Vec::new();
    let mut at: usize = n;
    while at > 0
        invariant
            0 <= at <= n,
            n + 1 == dp.len(),
            table_ok(b@, dp@),
            reached(dp@, at as int),
            whole == path(dp@, n as int),
            backwards.len() <= whole.len(),
            path(dp@, at as int) == whole.take(whole.len() - backwards.len()),
            forall|t: int|
                0 <= t < backwards.len() ==> #[trigger] backwards@[t] == whole[whole.len() - 1
                    - t],
        decreases at,
    {
        let cell = dp[at];
        let from = cell.prev.unwrap();
        assert(reached(dp@, from as int));
        let ghost here = path(dp@, at as int);
        assert(here == path(dp@, from as int).push((from, at)));
        assert(here.len() > 0);
        assert(here.last() == whole[whole.len() - backwards.len() - 1]);
        assert(path(dp@, from as int) =~= whole.take(whole.len() - backwards.len() - 1)) by {
            assert(here.drop_last() =~= path(dp@, from as int));
        }
        backwards.push((from, at));
        at = from;
    }
    assert(path(dp@, 0) =~= Seq::<(usize, usize)>::empty());
    assert(backwards.len() == whole.len());
    let mut segments: Vec<(usize, usize)> = Vec::new();
    let mut left: usize = backwards.len();
    while left > 0
        invariant
            0 <= left <= backwards.len(),
            backwards.len() == whole.len(),
            segments.len() == backwards.len() - left,
            forall|t: int|
                0 <= t < backwards.len() ==> #[trigger] backwards@[t] == whole[whole.len() - 1
                    - t],
            segments@ =~= whole.take(segments.len() as int),
        decreases left,
    {
        left -= 1;
        segments.push(backwards[left]);
    }
    assert(segments@ =~= whole);
    Some(segments)
}

} // verus!
