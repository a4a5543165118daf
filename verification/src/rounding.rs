//! Rounding of exact rationals to the numbers that a 24-bit significand can hold.
//!
//! Every magnitude is counted in units of the smallest positive single-precision number,
//! so all representable magnitudes are natural numbers and nothing is lost by working
//! with integers.
use vstd::arithmetic::div_mod::lemma_fundamental_div_mod;
use vstd::arithmetic::div_mod::lemma_fundamental_div_mod_converse;
use vstd::arithmetic::power2::lemma_pow2_pos;
use vstd::arithmetic::power2::lemma_pow2_unfold;
use vstd::arithmetic::power2::pow2;
use vstd::prelude::*;

verus! {

/// The integer nearest to `p / q`, ties going to the even one.
pub open spec fn half_even(p: nat, q: nat) -> nat
    recommends
        q > 0,
{
    let k = p / q;
    let r = p % q;
    if 2 * r < q {
        k
    } else if 2 * r > q {
        k + 1
    } else if k % 2 == 0 {
        k
    } else {
        k + 1
    }
}

/// The magnitude nearest to `p / q` among those with a 24-bit significand, ties going to
/// the even significand. Magnitudes below `2^24` are all the integers; from there on the
/// spacing doubles with every power of two.
pub open spec fn round_ratio(p: nat, q: nat) -> nat
    recommends
        q > 0,
    decreases (if p >= q * 0x100_0000 { p - q * 0x100_0000 + 1 } else { 0 }),
    when q > 0
{
    if p < q * 0x100_0000 {
        half_even(p, q)
    } else {
        2 * round_ratio(p, 2 * q)
    }
}

/// The magnitudes with a 24-bit significand: a number below `2^24` times a power of two.
pub open spec fn representable(y: nat) -> bool
    decreases y,
{
    y < 0x100_0000 || (y % 2 == 0 && representable(y / 2))
}

/// The quotient and the remainder of a division are determined by what they add up to.
pub proof fn lemma_quotient_unique(p: nat, q: nat, k: nat, r: nat)
    requires
        q > 0,
        p == k * q + r,
        r < q,
    ensures
        p / q == k,
        p % q == r,
{
    lemma_fundamental_div_mod_converse(p as int, q as int, k as int, r as int);
}

/// Scaling both terms of a ratio leaves its rounding to an integer as it is.
pub proof fn lemma_half_even_scale(p: nat, q: nat, c: nat)
    requires
        q > 0,
        c > 0,
    ensures
        half_even(c * p, c * q) == half_even(p, q),
{
    let k = p / q;
    let r = p % q;
    lemma_fundamental_div_mod(p as int, q as int);
    assert(c * p == k * (c * q) + c * r) by (nonlinear_arith)
        requires
            p == q * k + r,
    ;
    assert(c * r < c * q) by (nonlinear_arith)
        requires
            r < q,
            c > 0,
    ;
    assert(c * q > 0) by (nonlinear_arith)
        requires
            c > 0,
            q > 0,
    ;
    lemma_quotient_unique(c * p, c * q, k, c * r);
    assert(2 * (c * r) == c * (2 * r)) by (nonlinear_arith);
    assert(2 * r < q ==> c * (2 * r) < c * q) by (nonlinear_arith)
        requires
            c > 0,
    ;
    assert(2 * r > q ==> c * (2 * r) > c * q) by (nonlinear_arith)
        requires
            c > 0,
    ;
}

/// Scaling both terms of a ratio leaves its rounding as it is.
pub proof fn lemma_round_ratio_scale(p: nat, q: nat, c: nat)
    requires
        q > 0,
        c > 0,
    ensures
        round_ratio(c * p, c * q) == round_ratio(p, q),
    decreases (if p >= q * 0x100_0000 { p - q * 0x100_0000 + 1 } else { 0 }),
{
    assert(c * q > 0) by (nonlinear_arith)
        requires
            c > 0,
            q > 0,
    ;
    assert(c * p < (c * q) * 0x100_0000 <==> p < q * 0x100_0000) by (nonlinear_arith)
        requires
            c > 0,
    ;
    if p < q * 0x100_0000 {
        lemma_half_even_scale(p, q, c);
    } else {
        lemma_round_ratio_scale(p, 2 * q, c);
        assert(c * (2 * q) == 2 * (c * q)) by (nonlinear_arith);
    }
}

/// An integer below `2^24` is its own rounding.
pub proof fn lemma_round_small(x: nat)
    requires
        x < 0x100_0000,
    ensures
        round_ratio(x, 1) == x,
{
}

/// Doubling an integer doubles its rounding.
pub proof fn lemma_round_double(x: nat)
    ensures
        round_ratio(2 * x, 1) == 2 * round_ratio(x, 1),
{
    if 2 * x >= 0x100_0000 {
        lemma_round_ratio_scale(x, 1, 2);
    }
}

/// Multiplying an integer by a power of two multiplies its rounding by it.
pub proof fn lemma_round_pow2(x: nat, s: nat)
    ensures
        round_ratio(x * pow2(s), 1) == round_ratio(x, 1) * pow2(s),
    decreases s,
{
    if s == 0 {
        vstd::arithmetic::power2::lemma2_to64();
    } else {
        let t = (s - 1) as nat;
        lemma_pow2_unfold(s);
        lemma_round_pow2(x, t);
        lemma_round_double(x * pow2(t));
        assert(x * pow2(s) == 2 * (x * pow2(t))) by (nonlinear_arith)
            requires
                pow2(s) == 2 * pow2(t),
        ;
        assert(round_ratio(x, 1) * pow2(s) == 2 * (round_ratio(x, 1) * pow2(t))) by (nonlinear_arith)
            requires
                pow2(s) == 2 * pow2(t),
        ;
    }
}

/// A ratio of at least `2^(23 + j)` is rounded at a spacing of at least `2^j`.
pub proof fn lemma_round_coarse(p: nat, q: nat, j: nat)
    requires
        q > 0,
        j > 0 ==> p >= q * pow2((j - 1) as nat) * 0x100_0000,
    ensures
        round_ratio(p, q) == pow2(j) * round_ratio(p, q * pow2(j)),
    decreases j,
{
    if j == 0 {
        vstd::arithmetic::power2::lemma2_to64();
    } else {
        let i = (j - 1) as nat;
        lemma_pow2_unfold(j);
        lemma_pow2_pos(i);
        assert(q * pow2(i) > 0) by (nonlinear_arith)
            requires
                q > 0,
                pow2(i) > 0,
        ;
        if i > 0 {
            lemma_pow2_unfold(i);
            assert(q * pow2(i) >= q * pow2((i - 1) as nat)) by (nonlinear_arith)
                requires
                    pow2(i) == 2 * pow2((i - 1) as nat),
            ;
        }
        lemma_round_coarse(p, q, i);
        assert(2 * (q * pow2(i)) == q * pow2(j)) by (nonlinear_arith)
            requires
                pow2(j) == 2 * pow2(i),
        ;
        assert(pow2(i) * (2 * round_ratio(p, q * pow2(j))) == pow2(j) * round_ratio(
            p,
            q * pow2(j),
        )) by (nonlinear_arith)
            requires
                pow2(j) == 2 * pow2(i),
        ;
    }
}

/// The rounding of a ratio to an integer is at least as near as any other integer.
proof fn lemma_half_even_nearest(p: nat, q: nat, y: nat)
    requires
        q > 0,
    ensures
        distance(p, q * half_even(p, q)) <= distance(p, q * y),
{
    let k = p / q;
    let r = p % q;
    lemma_fundamental_div_mod(p as int, q as int);
    assert(q * (k + 1) == q * k + q) by (nonlinear_arith);
    if y <= k {
        assert(q * y <= q * k) by (nonlinear_arith)
            requires
                y <= k,
        ;
    } else {
        assert(q * y >= q * (k + 1)) by (nonlinear_arith)
            requires
                y >= k + 1,
        ;
    }
}

/// The distance between two magnitudes.
pub open spec fn distance(a: nat, b: nat) -> int {
    if a >= b {
        a - b
    } else {
        b - a
    }
}

/// Rounding gives a magnitude with a 24-bit significand.
pub proof fn rounding_is_representable(p: nat, q: nat)
    requires
        q > 0,
    ensures
        representable(round_ratio(p, q)),
    decreases (if p >= q * 0x100_0000 { p - q * 0x100_0000 + 1 } else { 0 }),
{
    if p < q * 0x100_0000 {
        let k = p / q;
        lemma_fundamental_div_mod(p as int, q as int);
        assert(k < 0x100_0000) by (nonlinear_arith)
            requires
                q * k <= p,
                p < q * 0x100_0000,
        ;
        assert(representable(0x80_0000));
    } else {
        rounding_is_representable(p, 2 * q);
    }
}

/// No magnitude with a 24-bit significand is nearer to a ratio than its rounding is.
pub proof fn rounding_is_nearest(p: nat, q: nat, y: nat)
    requires
        q > 0,
        representable(y),
    ensures
        distance(p, q * round_ratio(p, q)) <= distance(p, q * y),
    decreases (if p >= q * 0x100_0000 { p - q * 0x100_0000 + 1 } else { 0 }),
{
    if p < q * 0x100_0000 {
        lemma_half_even_nearest(p, q, y);
    } else {
        let z = round_ratio(p, 2 * q);
        assert(q * (2 * z) == (2 * q) * z) by (nonlinear_arith);
        if y < 0x100_0000 {
            rounding_is_nearest(p, 2 * q, 0x80_0000);
            assert((2 * q) * 0x80_0000 == q * 0x100_0000) by (nonlinear_arith);
            assert(q * y <= q * 0x100_0000) by (nonlinear_arith)
                requires
                    y < 0x100_0000,
            ;
        } else {
            rounding_is_nearest(p, 2 * q, y / 2);
            assert(q * y == (2 * q) * (y / 2)) by (nonlinear_arith)
                requires
                    y % 2 == 0,
            ;
        }
    }
}

/// A ratio that is not above a magnitude with a 24-bit significand does not round above it.
pub proof fn rounding_stays_below(p: nat, q: nat, y: nat)
    requires
        q > 0,
        representable(y),
        p <= q * y,
    ensures
        round_ratio(p, q) <= y,
{
    let r = round_ratio(p, q);
    rounding_is_nearest(p, q, y);
    if r > y {
        assert(q * r > q * y) by (nonlinear_arith)
            requires
                r > y,
                q > 0,
        ;
    }
}

/// Rounding keeps the order of ratios with a common denominator.
pub proof fn rounding_is_monotonic(p1: nat, p2: nat, q: nat)
    requires
        q > 0,
        p1 <= p2,
    ensures
        round_ratio(p1, q) <= round_ratio(p2, q),
    decreases (if p2 >= q * 0x100_0000 { p2 - q * 0x100_0000 + 1 } else { 0 }),
{
    lemma_fundamental_div_mod(p1 as int, q as int);
    lemma_fundamental_div_mod(p2 as int, q as int);
    if p2 < q * 0x100_0000 {
        vstd::arithmetic::div_mod::lemma_div_is_ordered(p1 as int, p2 as int, q as int);
    } else if p1 >= q * 0x100_0000 {
        rounding_is_monotonic(p1, p2, 2 * q);
    } else {
        let k = p1 / q;
        assert(k < 0x100_0000) by (nonlinear_arith)
            requires
                q * k <= p1,
                p1 < q * 0x100_0000,
        ;
        lemma_round_lower_bound(p2, 2 * q, 0x80_0000);
    }
}

/// A ratio that is not below a number under `2^24` does not round below it.
pub proof fn lemma_round_lower_bound(p: nat, q: nat, b: nat)
    requires
        q > 0,
        b < 0x100_0000,
        p >= q * b,
    ensures
        round_ratio(p, q) >= b,
    decreases (if p >= q * 0x100_0000 { p - q * 0x100_0000 + 1 } else { 0 }),
{
    if p < q * 0x100_0000 {
        lemma_fundamental_div_mod(p as int, q as int);
        let k = p / q;
        let r = p % q;
        assert(k >= b) by (nonlinear_arith)
            requires
                p == q * k + r,
                r < q,
                p >= q * b,
        ;
    } else {
        assert(p >= (2 * q) * 0x80_0000);
        lemma_round_lower_bound(p, 2 * q, 0x80_0000);
    }
}

} // verus!
