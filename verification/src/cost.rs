//! Costs are IEEE-754 single-precision numbers, held as their bit patterns
//! and added and compared with integer arithmetic alone.
//!
//! A finite number with exponent field `e` and fraction field `f` stands
//! for `f * 2^-149` where `e` is 0 and for `(2^23 + f) * 2^(e - 150)`
//! else. The specifications below speak of these values in units of
//! `2^-149`, which makes every finite value an integer.

use vstd::arithmetic::div_mod::{
    lemma_div_multiples_vanish_quotient, lemma_fundamental_div_mod,
    lemma_fundamental_div_mod_converse, lemma_truncate_middle,
};
use vstd::arithmetic::power2::{
    lemma2_to64, lemma_pow2_adds, lemma_pow2_pos, lemma_pow2_strictly_increases,
    lemma_pow2_unfold, pow2,
};
use vstd::prelude::*;

verus! {

/// Bit pattern of `0.0`.
pub const ZERO: u32 = 0;

/// Bit pattern of `1.0`.
pub const ONE: u32 = 0x3F80_0000;

/// Bit pattern of the single-precision number nearest to `0.1`.
pub const TENTH: u32 = 0x3DCC_CCCD;

/// Bit pattern of `10.0`.
pub const TEN: u32 = 0x4120_0000;

/// Bit pattern of `50.0`.
pub const FIFTY: u32 = 0x4248_0000;

/// Bit pattern of positive infinity.
pub const INFINITY: u32 = 0x7F80_0000;

/// Bit pattern of the quiet not-a-number that additions give.
pub const NAN: u32 = 0x7FC0_0000;

/// Bit pattern of `-0.0`: the sign bit alone.
pub const SIGN: u32 = 0x8000_0000;

/// Two to the 23rd: the weight of the hidden bit of a significand.
pub const HIDDEN: u32 = 0x80_0000;

/// The sign bit of `x` is set.
pub open spec fn is_negative(x: u32) -> bool {
    x >= SIGN
}

/// The bits of `x` without the sign bit.
pub open spec fn magnitude(x: u32) -> nat {
    (x % SIGN) as nat
}

/// `x` is not a number.
pub open spec fn is_nan(x: u32) -> bool {
    magnitude(x) > INFINITY
}

/// `x` is positive or negative infinity.
pub open spec fn is_infinite(x: u32) -> bool {
    magnitude(x) == INFINITY
}

/// Where `x` stands among the numbers: magnitudes grow with their bit
/// patterns, and the two zeros stand together.
pub open spec fn rank(x: u32) -> int {
    if is_negative(x) {
        -(magnitude(x) as int)
    } else {
        magnitude(x) as int
    }
}

/// `a < b` as numbers; false where either is not a number.
pub open spec fn lt_spec(a: u32, b: u32) -> bool {
    !is_nan(a) && !is_nan(b) && rank(a) < rank(b)
}

/// The exponent field of `x`.
pub open spec fn exponent_field(x: u32) -> nat {
    magnitude(x) / (HIDDEN as nat)
}

/// The fraction field of `x`.
pub open spec fn fraction_field(x: u32) -> nat {
    magnitude(x) % (HIDDEN as nat)
}

/// The significand of a finite `x` as an integer: the fraction, with the
/// hidden bit for a normal number.
pub open spec fn significand(x: u32) -> nat {
    if exponent_field(x) == 0 {
        fraction_field(x)
    } else {
        HIDDEN as nat + fraction_field(x)
    }
}

/// The power of two, in units of `2^-149`, that the last bit of the
/// significand of a finite `x` is worth.
pub open spec fn scale(x: u32) -> nat {
    if exponent_field(x) == 0 {
        0
    } else {
        (exponent_field(x) - 1) as nat
    }
}

/// The absolute value of a finite `x` in units of `2^-149`.
pub open spec fn scaled_magnitude(x: u32) -> nat {
    significand(x) * pow2(scale(x))
}

/// The value of a finite `x` in units of `2^-149`.
pub open spec fn scaled_value(x: u32) -> int {
    if is_negative(x) {
        -(scaled_magnitude(x) as int)
    } else {
        scaled_magnitude(x) as int
    }
}

/// Number of binary digits of `m`.
pub open spec fn bit_length(m: nat) -> nat
    decreases m,
{
    if m == 0 {
        0
    } else {
        1 + bit_length(m / 2)
    }
}

/// Whether a quotient `q` with remainder `r` out of `unit` is rounded up:
/// above the half, and at the half where `q` is odd.
pub open spec fn round_up(q: nat, r: nat, unit: nat) -> nat {
    if 2 * r > unit || (2 * r == unit && q % 2 == 1) {
        1
    } else {
        0
    }
}

/// The magnitude bits of the single-precision number nearest to
/// `m * 2^-149`, the one with an even significand where two are equally
/// near, and those of infinity where `m` is too large. The 24 leading
/// binary digits of `m` are kept; the exponent field counts how many were
/// cut off.
pub open spec fn round_magnitude(m: nat) -> nat {
    if m < 0x100_0000 {
        m
    } else {
        let cut = (bit_length(m) - 24) as nat;
        let q = m / pow2(cut);
        let r = m % pow2(cut);
        let bits = (cut * HIDDEN + q + round_up(q, r, pow2(cut))) as nat;
        if bits >= INFINITY {
            INFINITY as nat
        } else {
            bits
        }
    }
}

/// The sum of two finite numbers: their exact sum, rounded. An exact zero
/// is negative only where both are.
pub open spec fn add_finite_spec(a: u32, b: u32) -> u32 {
    let v = scaled_value(a) + scaled_value(b);
    if v == 0 {
        if is_negative(a) && is_negative(b) {
            SIGN
        } else {
            ZERO
        }
    } else if v > 0 {
        round_magnitude(v as nat) as u32
    } else {
        (SIGN + round_magnitude((-v) as nat)) as u32
    }
}

/// `a + b` in single precision, rounding to nearest, ties to even. What is
/// not a number gives the quiet not-a-number, as do two infinities of
/// opposite sign.
pub open spec fn add_spec(a: u32, b: u32) -> u32 {
    if is_nan(a) || is_nan(b) {
        NAN
    } else if is_infinite(a) {
        if is_infinite(b) && is_negative(a) != is_negative(b) {
            NAN
        } else {
            a
        }
    } else if is_infinite(b) {
        b
    } else {
        add_finite_spec(a, b)
    }
}

/// Whether `a < b` as numbers.
pub fn cost_lt(a: u32, b: u32) -> (r: bool)
    ensures
        r == lt_spec(a, b),
{
    let ma: u32 = a % SIGN;
    let mb: u32 = b % SIGN;
    if ma > INFINITY || mb > INFINITY {
        return false;
    }
    if a >= SIGN {
        if b >= SIGN {
            ma > mb
        } else {
            ma != 0 || mb != 0
        }
    } else {
        if b >= SIGN {
            false
        } else {
            ma < mb
        }
    }
}

/// Powers of two are positive and grow with the exponent.
proof fn lemma_pow2_monotonic(a: nat, b: nat)
    requires
        a <= b,
    ensures
        pow2(a) <= pow2(b),
        pow2(a) > 0,
{
    lemma_pow2_pos(a);
    if a < b {
        lemma_pow2_strictly_increases(a, b);
    }
}

/// A positive number lies between the power of two below its number of
/// digits and the power of two of that number.
proof fn lemma_bit_length_bounds(m: nat)
    requires
        m > 0,
    ensures
        bit_length(m) >= 1,
        pow2((bit_length(m) - 1) as nat) <= m < pow2(bit_length(m)),
    decreases m,
{
    lemma2_to64();
    if m == 1 {
        assert(bit_length(1) == 1 + bit_length(0));
    } else {
        let h = m / 2;
        lemma_bit_length_bounds(h);
        let k = bit_length(h);
        lemma_pow2_unfold(k);
        lemma_pow2_unfold(k + 1);
    }
}

/// A number between two neighbouring powers of two has as many digits as
/// the larger one says.
proof fn lemma_bit_length_unique(m: nat, k: nat)
    requires
        k >= 1,
        pow2((k - 1) as nat) <= m < pow2(k),
    ensures
        bit_length(m) == k,
{
    lemma_pow2_pos((k - 1) as nat);
    lemma_bit_length_bounds(m);
    let j = bit_length(m);
    if j < k {
        lemma_pow2_monotonic(j, (k - 1) as nat);
    } else if j > k {
        lemma_pow2_monotonic(k, (j - 1) as nat);
    }
}

/// Doubling a positive number `s` times adds `s` digits.
proof fn lemma_bit_length_scaled(x: nat, s: nat)
    requires
        x > 0,
    ensures
        bit_length(x * pow2(s)) == bit_length(x) + s,
{
    lemma_bit_length_bounds(x);
    let k = bit_length(x);
    let p = pow2(s);
    lemma_pow2_pos(s);
    lemma_pow2_adds((k - 1) as nat, s);
    lemma_pow2_adds(k, s);
    let lo = pow2((k - 1) as nat);
    let hi = pow2(k);
    assert(lo * p <= x * p) by (nonlinear_arith)
        requires
            lo <= x,
            p > 0,
    ;
    assert(x * p < hi * p) by (nonlinear_arith)
        requires
            x < hi,
            p > 0,
    ;
    assert((k - 1) as nat + s == (k + s - 1) as nat);
    lemma_bit_length_unique(x * p, k + s);
}

/// Rounding a number with more than 24 digits, given as `x * 2^s`.
proof fn lemma_round_long(x: nat, s: nat)
    requires
        bit_length(x) > 24,
    ensures
        ({
            let cut = (bit_length(x) - 24) as nat;
            let q = x / pow2(cut);
            let r = x % pow2(cut);
            let bits = ((cut + s) * HIDDEN + q + round_up(q, r, pow2(cut))) as nat;
            &&& q < 0x100_0000
            &&& round_magnitude(x * pow2(s)) == (if bits >= INFINITY {
                INFINITY as nat
            } else {
                bits
            })
        }),
{
    lemma2_to64();
    assert(x > 0);
    let k = bit_length(x);
    let cut = (k - 24) as nat;
    let p = pow2(s);
    let unit = pow2(cut);
    let m = x * p;
    lemma_pow2_pos(s);
    lemma_pow2_pos(cut);
    lemma_bit_length_bounds(x);
    lemma_bit_length_scaled(x, s);
    lemma_bit_length_bounds(m);
    lemma_pow2_monotonic(24, (k + s - 1) as nat);
    assert(m >= 0x100_0000);
    assert(bit_length(m) - 24 == cut + s);
    lemma_pow2_adds(cut, s);
    assert(pow2(cut + s) == unit * p);
    assert(unit * p == p * unit) by (nonlinear_arith);
    assert(x * p == p * x) by (nonlinear_arith);
    lemma_div_multiples_vanish_quotient(p as int, x as int, unit as int);
    lemma_truncate_middle(x as int, p as int, unit as int);
    let q = x / unit;
    let r = x % unit;
    assert(m / pow2(cut + s) == q);
    assert(m % pow2(cut + s) == p * r);
    assert(round_up(q, p * r, p * unit) == round_up(q, r, unit)) by (nonlinear_arith)
        requires
            p > 0,
    ;
    lemma_pow2_adds(24, cut);
    assert(x < pow2(24) * unit);
    lemma_fundamental_div_mod(x as int, unit as int);
    assert(q < 0x100_0000) by (nonlinear_arith)
        requires
            x < 0x100_0000 * unit,
            x == unit * q + r,
            r >= 0,
            unit > 0,
    ;
}

/// Rounding a number with at most 24 digits that stays below `2^24` when
/// scaled: nothing is cut off.
proof fn lemma_round_exact(x: nat, s: nat)
    requires
        x > 0,
        bit_length(x) + s <= 24,
    ensures
        x * pow2(s) < 0x100_0000,
        round_magnitude(x * pow2(s)) == x * pow2(s),
{
    lemma2_to64();
    lemma_bit_length_scaled(x, s);
    lemma_pow2_pos(s);
    assert(x * pow2(s) > 0) by (nonlinear_arith)
        requires
            x > 0,
            pow2(s) > 0,
    ;
    lemma_bit_length_bounds(x * pow2(s));
    lemma_pow2_monotonic(bit_length(x) + s, 24);
}

/// Rounding a number with at most 24 digits that reaches `2^24` when
/// scaled: its digits are moved up, and nothing is cut off.
proof fn lemma_round_short(x: nat, s: nat)
    requires
        x > 0,
        bit_length(x) <= 24,
        bit_length(x) + s > 24,
        s <= 253,
    ensures
        ({
            let up = (24 - bit_length(x)) as nat;
            &&& up <= s
            &&& x * pow2(up) < 0x100_0000
            &&& round_magnitude(x * pow2(s)) == (s - up) * HIDDEN + x * pow2(up)
        }),
{
    lemma2_to64();
    let k = bit_length(x);
    let up = (24 - k) as nat;
    let cut = (s - up) as nat;
    let p = pow2(s);
    let m = x * p;
    lemma_pow2_pos(s);
    lemma_pow2_pos(up);
    lemma_pow2_pos(cut);
    lemma_bit_length_bounds(x);
    lemma_bit_length_scaled(x, s);
    lemma_bit_length_scaled(x, up);
    assert(m > 0) by (nonlinear_arith)
        requires
            x > 0,
            p > 0,
            m == x * p,
    ;
    lemma_bit_length_bounds(m);
    lemma_pow2_monotonic(24, (k + s - 1) as nat);
    assert(m >= 0x100_0000);
    assert(bit_length(m) - 24 == cut);
    lemma_pow2_adds(up, cut);
    let q = x * pow2(up);
    assert(q > 0) by (nonlinear_arith)
        requires
            x > 0,
            pow2(up) > 0,
            q == x * pow2(up),
    ;
    lemma_bit_length_bounds(q);
    assert(q < 0x100_0000);
    assert(m == q * pow2(cut) + 0) by (nonlinear_arith)
        requires
            m == x * p,
            p == pow2(up) * pow2(cut),
            q == x * pow2(up),
    ;
    lemma_fundamental_div_mod_converse(m as int, pow2(cut) as int, q as int, 0);
    assert(round_up(q, 0, pow2(cut)) == 0);
    assert(cut * HIDDEN + q < INFINITY) by (nonlinear_arith)
        requires
            cut <= 253,
            q < 0x100_0000,
    ;
}

/// Adding to a normal number, or taking from it, less than a quarter of
/// what its last bit is worth leaves it as it is.
proof fn lemma_round_absorbs(sig: nat, s: nat, small: nat, minus: bool)
    requires
        HIDDEN <= sig < 0x100_0000,
        2 <= s <= 253,
        4 * small < pow2(s),
    ensures
        sig * pow2(s) > small,
        round_magnitude(
            (if minus {
                sig * pow2(s) - small
            } else {
                (sig * pow2(s) + small) as int
            }) as nat,
        ) == s * HIDDEN + sig,
{
    lemma2_to64();
    let p = pow2(s);
    let a = sig * p;
    lemma_pow2_pos(s);
    lemma_pow2_unfold(s);
    let h = pow2((s - 1) as nat);
    lemma_pow2_unfold((s - 1) as nat);
    let quarter = pow2((s - 2) as nat);
    lemma_pow2_pos((s - 2) as nat);
    assert(p == 2 * h && h == 2 * quarter);
    assert(small < quarter);
    lemma_bit_length_scaled(sig, s);
    lemma_bit_length_unique(sig, 24);
    assert(a >= HIDDEN * p) by (nonlinear_arith)
        requires
            sig >= HIDDEN,
            p > 0,
            a == sig * p,
    ;
    assert(a > small);
    assert(s * HIDDEN + sig < INFINITY) by (nonlinear_arith)
        requires
            s <= 253,
            sig < 0x100_0000,
    ;
    if !minus || small == 0 {
        let m = (a + small) as nat;
        assert(m >= 0x100_0000) by {
            lemma_pow2_monotonic(1, s);
        }
        lemma_pow2_adds(24, s);
        lemma_pow2_adds(23, s);
        assert(a + p <= pow2(24) * p) by (nonlinear_arith)
            requires
                a == sig * p,
                sig < 0x100_0000,
                pow2(24) == 0x100_0000,
        ;
        assert((23 + s) as nat == (24 + s - 1) as nat);
        lemma_bit_length_unique(m, 24 + s);
        lemma_fundamental_div_mod_converse(m as int, p as int, sig as int, small as int);
        assert(round_up(sig, small, p) == 0);
        if minus {
            assert((a - small) as nat == m);
        }
    } else if sig > HIDDEN {
        let m = (a - small) as nat;
        let q = (sig - 1) as nat;
        let r = (p - small) as nat;
        assert(m == q * p + r) by (nonlinear_arith)
            requires
                m == sig * p - small,
                q == sig - 1,
                r == p - small,
        ;
        lemma_pow2_adds(24, s);
        lemma_pow2_adds(23, s);
        assert(q * p >= pow2(23) * p) by (nonlinear_arith)
            requires
                q >= HIDDEN,
                p > 0,
                pow2(23) == HIDDEN,
        ;
        assert(a <= pow2(24) * p) by (nonlinear_arith)
            requires
                a == sig * p,
                sig < 0x100_0000,
                pow2(24) == 0x100_0000,
                p > 0,
        ;
        lemma_pow2_monotonic(24, 23 + s);
        assert((23 + s) as nat == (24 + s - 1) as nat);
        lemma_bit_length_unique(m, 24 + s);
        lemma_fundamental_div_mod_converse(m as int, p as int, q as int, r as int);
        assert(round_up(q, r, p) == 1);
    } else {
        let m = (a - small) as nat;
        let q: nat = 0xFF_FFFF;
        let r = (h - small) as nat;
        assert(m == q * h + r) by (nonlinear_arith)
            requires
                m == sig * p - small,
                sig == 0x80_0000,
                p == 2 * h,
                q == 0xFF_FFFF,
                r == h - small,
        ;
        lemma_pow2_adds(23, (s - 1) as nat);
        lemma_pow2_adds(24, (s - 1) as nat);
        assert(q * h >= pow2(23) * h) by (nonlinear_arith)
            requires
                q == 0xFF_FFFF,
                h > 0,
                pow2(23) == 0x80_0000,
        ;
        assert(q * h + r < pow2(24) * h) by (nonlinear_arith)
            requires
                q == 0xFF_FFFF,
                r < h,
                pow2(24) == 0x100_0000,
        ;
        lemma_pow2_monotonic(24, (23 + s - 1) as nat);
        assert((23 + (s - 1)) as nat == (24 + (s - 1) - 1) as nat);
        lemma_bit_length_unique(m, (24 + s - 1) as nat);
        assert(bit_length(m) - 24 == s - 1);
        lemma_fundamental_div_mod_converse(m as int, h as int, q as int, r as int);
        assert(h == 2 * quarter);
        assert(round_up(q, r, h) == 1);
        assert((s - 1) * HIDDEN + q + 1 == s * HIDDEN + sig) by (nonlinear_arith)
            requires
                q == 0xFF_FFFF,
                sig == 0x80_0000,
                s >= 1,
        ;
    }
}

/// Two to the power of `k`.
fn pow2_exec(k: u32) -> (r: u64)
    requires
        k <= 62,
    ensures
        r == pow2(k as nat),
        r >= 1,
{
    let mut r: u64 = 1;
    let mut j: u32 = 0;
    proof {
        lemma2_to64();
    }
    while j < k
        invariant
            0 <= j <= k <= 62,
            r == pow2(j as nat),
            r >= 1,
        decreases k - j,
    {
        proof {
            lemma_pow2_unfold((j + 1) as nat);
            lemma_pow2_monotonic((j + 1) as nat, 62);
            lemma2_to64_rest_62();
        }
        r = r * 2;
        j += 1;
    }
    r
}

/// The value of two to the 62nd.
proof fn lemma2_to64_rest_62()
    ensures
        pow2(62) == 0x4000_0000_0000_0000,
{
    vstd::arithmetic::power2::lemma2_to64_rest();
}

/// Number of binary digits of `x`.
fn bit_length_exec(x: u64) -> (k: u32)
    ensures
        k == bit_length(x as nat),
        k <= 64,
{
    proof {
        if x > 0 {
            lemma2_to64();
            lemma_bit_length_bounds(x as nat);
            if bit_length(x as nat) > 64 {
                lemma_pow2_monotonic(64, (bit_length(x as nat) - 1) as nat);
            }
        }
    }
    let mut k: u32 = 0;
    let mut y: u64 = x;
    while y > 0
        invariant
            k + bit_length(y as nat) == bit_length(x as nat),
            bit_length(x as nat) <= 64,
        decreases y,
    {
        y = y / 2;
        k += 1;
    }
    k
}

/// The magnitude bits of the number nearest to `x * 2^s` units.
fn round_pack(x: u64, s: u32) -> (bits: u32)
    requires
        0 < x < 0x8_0000_0000_0000,
        s <= 253,
    ensures
        bits == round_magnitude(x as nat * pow2(s as nat)),
        bits <= INFINITY,
{
    let k = bit_length_exec(x);
    proof {
        lemma2_to64();
        vstd::arithmetic::power2::lemma2_to64_rest();
        lemma_bit_length_bounds(x as nat);
        if k > 51 {
            lemma_pow2_monotonic(51, (k - 1) as nat);
        }
        assert(pow2(51) == 0x8_0000_0000_0000);
    }
    if k > 24 {
        let cut: u32 = k - 24;
        let unit: u64 = pow2_exec(cut);
        let q: u64 = x / unit;
        let r: u64 = x % unit;
        proof {
            lemma_round_long(x as nat, s as nat);
            lemma_pow2_monotonic(cut as nat, 27);
            assert(pow2(27) == 0x800_0000);
        }
        let up: u64 = if 2 * r > unit || (2 * r == unit && q % 2 == 1) {
            1
        } else {
            0
        };
        let total: u64 = (cut + s) as u64 * (HIDDEN as u64) + q + up;
        if total >= INFINITY as u64 {
            INFINITY
        } else {
            total as u32
        }
    } else if k + s <= 24 {
        proof {
            lemma_round_exact(x as nat, s as nat);
        }
        let p = pow2_exec(s);
        (x * p) as u32
    } else {
        let up: u32 = 24 - k;
        proof {
            lemma_round_short(x as nat, s as nat);
            assert((s - up) * HIDDEN + 0x100_0000 <= INFINITY) by (nonlinear_arith)
                requires
                    s - up <= 253,
            ;
        }
        let p = pow2_exec(up);
        ((s - up) as u64 * (HIDDEN as u64) + x * p) as u32
    }
}

/// Significand and scale of a finite number.
fn split(x: u32) -> (r: (u64, u32))
    requires
        magnitude(x) < INFINITY,
    ensures
        r.0 == significand(x),
        r.1 == scale(x),
        r.0 < 0x100_0000,
        r.1 <= 253,
        r.1 > 0 ==> r.0 >= HIDDEN,
        magnitude(x) == r.1 * HIDDEN + r.0,
{
    let m: u32 = x % SIGN;
    let e: u32 = m / HIDDEN;
    let f: u32 = m % HIDDEN;
    if e == 0 {
        (f as u64, 0)
    } else {
        ((HIDDEN + f) as u64, e - 1)
    }
}

/// Of two finite numbers, the one with the larger bit pattern has the larger
/// scale, and the larger significand once both stand at the smaller scale.
proof fn lemma_larger(hi: u32, lo: u32)
    requires
        magnitude(lo) <= magnitude(hi) < INFINITY,
    ensures
        scale(lo) <= scale(hi) <= 253,
        significand(hi) * pow2((scale(hi) - scale(lo)) as nat) >= significand(lo),
        scaled_magnitude(hi) == significand(hi) * pow2((scale(hi) - scale(lo)) as nat) * pow2(
            scale(lo),
        ),
{
    lemma2_to64();
    let d = (scale(hi) - scale(lo)) as nat;
    let pd = pow2(d);
    let sh = significand(hi);
    lemma_pow2_pos(d);
    lemma_pow2_adds(d, scale(lo));
    let mh = magnitude(hi);
    let ml = magnitude(lo);
    assert(mh == exponent_field(hi) * HIDDEN + fraction_field(hi));
    assert(ml == exponent_field(lo) * HIDDEN + fraction_field(lo));
    assert(exponent_field(lo) <= exponent_field(hi));
    if d > 0 {
        lemma_pow2_monotonic(1, d);
        assert(sh >= 0x80_0000);
        assert(sh * pd >= 0x100_0000) by (nonlinear_arith)
            requires
                sh >= 0x80_0000,
                pd >= 2,
        ;
        assert(significand(lo) < 0x100_0000);
    } else {
        assert(pd == 1);
        assert(sh * pd == sh) by (nonlinear_arith)
            requires
                pd == 1,
        ;
        assert(sh >= significand(lo));
    }
    assert(sh * (pd * pow2(scale(lo))) == sh * pd * pow2(scale(lo))) by (nonlinear_arith);
}

/// The sum of two finite numbers, the larger first, from the sum or the
/// difference `x` of their significands at the smaller scale.
proof fn lemma_sum(hi: u32, lo: u32, x: nat)
    requires
        magnitude(lo) <= magnitude(hi) < INFINITY,
        x == (if is_negative(hi) == is_negative(lo) {
            (significand(hi) * pow2((scale(hi) - scale(lo)) as nat) + significand(lo)) as int
        } else {
            significand(hi) * pow2((scale(hi) - scale(lo)) as nat) - significand(lo)
        }),
    ensures
        add_finite_spec(hi, lo) == (if x == 0 {
            if is_negative(hi) && is_negative(lo) {
                SIGN
            } else {
                ZERO
            }
        } else if is_negative(hi) {
            (SIGN + round_magnitude(x * pow2(scale(lo)))) as u32
        } else {
            round_magnitude(x * pow2(scale(lo))) as u32
        }),
{
    lemma_larger(hi, lo);
    let pl = pow2(scale(lo));
    let xh = significand(hi) * pow2((scale(hi) - scale(lo)) as nat);
    let sl = significand(lo);
    lemma_pow2_pos(scale(lo));
    assert(scaled_magnitude(hi) == xh * pl);
    assert(scaled_magnitude(lo) == sl * pl);
    assert((xh + sl) * pl == xh * pl + sl * pl) by (nonlinear_arith);
    assert((xh - sl) * pl == xh * pl - sl * pl) by (nonlinear_arith);
    assert(x > 0 ==> x * pl > 0) by (nonlinear_arith)
        requires
            pl > 0,
    ;
    assert(x == 0 ==> x * pl == 0) by (nonlinear_arith);
}

/// A number much smaller than another does not change it.
proof fn lemma_absorbed(hi: u32, lo: u32)
    requires
        magnitude(lo) <= magnitude(hi) < INFINITY,
        scale(hi) - scale(lo) >= 26,
    ensures
        add_finite_spec(hi, lo) == hi,
{
    lemma2_to64();
    let pl = pow2(scale(lo));
    let small = significand(lo) * pl;
    lemma_pow2_pos(scale(lo));
    lemma_pow2_adds(26, scale(lo));
    lemma_pow2_monotonic(26 + scale(lo), scale(hi));
    assert(4 * small < pow2(26) * pl) by (nonlinear_arith)
        requires
            small == significand(lo) * pl,
            significand(lo) < 0x100_0000,
            pl > 0,
            pow2(26) == 0x400_0000,
    ;
    lemma_round_absorbs(
        significand(hi),
        scale(hi),
        small,
        is_negative(hi) != is_negative(lo),
    );
    assert(magnitude(hi) == scale(hi) * HIDDEN + significand(hi));
}

/// The sum of two finite numbers, the one with the larger bit pattern
/// first.
fn add_ordered(hi: u32, lo: u32) -> (r: u32)
    requires
        magnitude(lo) <= magnitude(hi) < INFINITY,
    ensures
        r == add_finite_spec(hi, lo),
{
    let (sig_h, scale_h) = split(hi);
    let (sig_l, scale_l) = split(lo);
    proof {
        lemma_larger(hi, lo);
        lemma2_to64();
    }
    let d: u32 = scale_h - scale_l;
    if d >= 26 {
        proof {
            lemma_absorbed(hi, lo);
        }
        return hi;
    }
    let pd = pow2_exec(d);
    proof {
        lemma_pow2_monotonic(d as nat, 25);
        assert(sig_h * pd < 0x100_0000 * 0x200_0000) by (nonlinear_arith)
            requires
                sig_h < 0x100_0000,
                0 < pd <= 0x200_0000,
        ;
    }
    let xh: u64 = sig_h * pd;
    let x: u64 = if (hi >= SIGN) == (lo >= SIGN) {
        xh + sig_l
    } else {
        xh - sig_l
    };
    proof {
        lemma_sum(hi, lo, x as nat);
    }
    if x == 0 {
        return if hi >= SIGN && lo >= SIGN {
            SIGN
        } else {
            ZERO
        };
    }
    let bits = round_pack(x, scale_l);
    if hi >= SIGN {
        SIGN + bits
    } else {
        bits
    }
}

/// `a + b` in single precision.
pub fn cost_add(a: u32, b: u32) -> (r: u32)
    ensures
        r == add_spec(a, b),
{
    let ma: u32 = a % SIGN;
    let mb: u32 = b % SIGN;
    if ma > INFINITY || mb > INFINITY {
        return NAN;
    }
    if ma == INFINITY {
        if mb == INFINITY && (a >= SIGN) != (b >= SIGN) {
            return NAN;
        }
        return a;
    }
    if mb == INFINITY {
        return b;
    }
    assert(add_finite_spec(a, b) == add_finite_spec(b, a));
    if ma >= mb {
        add_ordered(a, b)
    } else {
        add_ordered(b, a)
    }
}

/// Rounding keeps the order: of two magnitudes, the larger rounds to the
/// larger bit pattern, or to the same.
pub proof fn lemma_round_monotonic(m1: nat, m2: nat)
    requires
        m1 <= m2,
    ensures
        round_magnitude(m1) <= round_magnitude(m2) <= INFINITY,
{
    lemma2_to64();
    if m2 < 0x100_0000 {
    } else {
        let cut2 = (bit_length(m2) - 24) as nat;
        lemma_bit_length_bounds(m2);
        if bit_length(m2) <= 24 {
            lemma_pow2_monotonic(bit_length(m2), 24);
        }
        assert(cut2 >= 1);
        let unit2 = pow2(cut2);
        lemma_pow2_pos(cut2);
        lemma_pow2_adds(23, cut2);
        lemma_pow2_adds(24, cut2);
        let q2 = m2 / unit2;
        let r2 = m2 % unit2;
        lemma_fundamental_div_mod(m2 as int, unit2 as int);
        assert((23 + cut2) as nat == (bit_length(m2) - 1) as nat);
        assert(q2 >= 0x80_0000) by (nonlinear_arith)
            requires
                m2 >= 0x80_0000 * unit2,
                m2 == unit2 * q2 + r2,
                0 <= r2 < unit2,
        ;
        let bits2 = (cut2 * HIDDEN + q2 + round_up(q2, r2, unit2)) as nat;
        assert(bits2 >= 0x100_0000) by (nonlinear_arith)
            requires
                bits2 >= cut2 * 0x80_0000 + q2,
                cut2 >= 1,
                q2 >= 0x80_0000,
        ;
        if m1 < 0x100_0000 {
        } else {
            let cut1 = (bit_length(m1) - 24) as nat;
            lemma_bit_length_bounds(m1);
            if bit_length(m1) <= 24 {
                lemma_pow2_monotonic(bit_length(m1), 24);
            }
            if bit_length(m1) > bit_length(m2) {
                lemma_pow2_monotonic(bit_length(m2), (bit_length(m1) - 1) as nat);
            }
            assert(cut1 <= cut2);
            let unit1 = pow2(cut1);
            lemma_pow2_pos(cut1);
            lemma_pow2_adds(24, cut1);
            let q1 = m1 / unit1;
            let r1 = m1 % unit1;
            lemma_fundamental_div_mod(m1 as int, unit1 as int);
            assert(q1 < 0x100_0000) by (nonlinear_arith)
                requires
                    m1 < 0x100_0000 * unit1,
                    m1 == unit1 * q1 + r1,
                    r1 >= 0,
                    unit1 > 0,
            ;
            let bits1 = (cut1 * HIDDEN + q1 + round_up(q1, r1, unit1)) as nat;
            if cut1 < cut2 {
                assert(bits1 <= bits2) by (nonlinear_arith)
                    requires
                        bits1 <= cut1 * 0x80_0000 + q1 + 1,
                        q1 < 0x100_0000,
                        cut1 + 1 <= cut2,
                        bits2 >= cut2 * 0x80_0000 + q2,
                        q2 >= 0x80_0000,
                ;
            } else {
                assert(unit1 == unit2);
                assert(q1 <= q2) by (nonlinear_arith)
                    requires
                        m1 <= m2,
                        m1 == unit1 * q1 + r1,
                        m2 == unit1 * q2 + r2,
                        0 <= r1 < unit1,
                        0 <= r2 < unit1,
                ;
                if q1 == q2 {
                    assert(r1 <= r2);
                }
            }
        }
    }
}

/// Among finite numbers, the one that stands higher has the larger value.
pub proof fn lemma_rank_orders_values(a: u32, b: u32)
    requires
        magnitude(a) < INFINITY,
        magnitude(b) < INFINITY,
        rank(a) <= rank(b),
    ensures
        scaled_value(a) <= scaled_value(b),
{
    assert(magnitude(a) == 0 ==> scaled_magnitude(a) == 0) by {
        if magnitude(a) == 0 {
            assert(significand(a) == 0);
            assert(0 * pow2(scale(a)) == 0) by (nonlinear_arith);
        }
    }
    assert(magnitude(b) == 0 ==> scaled_magnitude(b) == 0) by {
        if magnitude(b) == 0 {
            assert(significand(b) == 0);
            assert(0 * pow2(scale(b)) == 0) by (nonlinear_arith);
        }
    }
    if magnitude(a) <= magnitude(b) {
        lemma_larger(b, a);
        let pl = pow2(scale(a));
        let xh = significand(b) * pow2((scale(b) - scale(a)) as nat);
        lemma_pow2_pos(scale(a));
        assert(significand(a) * pl <= xh * pl) by (nonlinear_arith)
            requires
                significand(a) <= xh,
                pl > 0,
        ;
        assert(scaled_magnitude(a) <= scaled_magnitude(b));
    } else {
        lemma_larger(a, b);
        let pl = pow2(scale(b));
        let xh = significand(a) * pow2((scale(a) - scale(b)) as nat);
        lemma_pow2_pos(scale(b));
        assert(significand(b) * pl <= xh * pl) by (nonlinear_arith)
            requires
                significand(b) <= xh,
                pl > 0,
        ;
        assert(scaled_magnitude(b) <= scaled_magnitude(a));
    }
}

/// Where a finite sum stands: at its rounded magnitude, above or below
/// zero as its exact value is.
pub proof fn lemma_rank_of_sum(a: u32, c: u32)
    requires
        magnitude(a) < INFINITY,
        magnitude(c) < INFINITY,
    ensures
        !is_nan(add_finite_spec(a, c)),
        ({
            let v = scaled_value(a) + scaled_value(c);
            rank(add_finite_spec(a, c)) == (if v >= 0 {
                round_magnitude(v as nat) as int
            } else {
                -(round_magnitude((-v) as nat) as int)
            })
        }),
{
    let v = scaled_value(a) + scaled_value(c);
    if v > 0 {
        lemma_round_monotonic(v as nat, v as nat);
    } else if v < 0 {
        lemma_round_monotonic((-v) as nat, (-v) as nat);
    }
}

/// Addition keeps the order: what is not less stays not less when the same
/// is added to both. This holds of all bit patterns, because nothing is
/// less than not-a-number and not-a-number is less than nothing.
pub proof fn lemma_add_monotonic(a: u32, b: u32, c: u32)
    requires
        !lt_spec(a, b),
    ensures
        !lt_spec(add_spec(a, c), add_spec(b, c)),
{
    if is_nan(a) || is_nan(b) || is_nan(c) {
    } else if is_infinite(c) {
    } else if is_infinite(a) || is_infinite(b) {
        if !is_infinite(a) {
            lemma_rank_of_sum(a, c);
        }
        if !is_infinite(b) {
            lemma_rank_of_sum(b, c);
        }
    } else {
        lemma_rank_orders_values(b, a);
        lemma_rank_of_sum(a, c);
        lemma_rank_of_sum(b, c);
        let va = scaled_value(a) + scaled_value(c);
        let vb = scaled_value(b) + scaled_value(c);
        assert(vb <= va);
        if vb >= 0 {
            lemma_round_monotonic(vb as nat, va as nat);
        } else if va < 0 {
            lemma_round_monotonic((-va) as nat, (-vb) as nat);
        } else {
            lemma_round_monotonic(0, va as nat);
            lemma_round_monotonic(0, (-vb) as nat);
        }
    }
}

} // verus!
