//! What holds of the arithmetic of scores.
use crate::binary32::decode;
use crate::binary32::lemma_magnitude_increases;
use crate::binary32::lemma_magnitude_of_parts;
use crate::binary32::magnitude;
use crate::binary32::nearest_integer;
use crate::binary32::one;
use crate::binary32::Binary32;
use crate::binary32::Value;
use crate::binary32::INFINITY;
use crate::properties::scores::lemma_powers_of_two_are_representable;
use crate::properties::scores::representable_is_exact;
use crate::rounding::distance;
use crate::rounding::lemma_round_lower_bound;
use crate::rounding::representable;
use crate::rounding::round_ratio;
use crate::rounding::rounding_is_nearest;
use crate::rounding::rounding_is_representable;
use crate::rounding::rounding_stays_below;
use vstd::arithmetic::div_mod::lemma_fundamental_div_mod;
use vstd::arithmetic::power2::lemma_pow2_adds;
use vstd::arithmetic::power2::lemma_pow2_pos;
use vstd::arithmetic::power2::lemma_pow2_strictly_increases;
use vstd::arithmetic::power2::lemma_pow2_unfold;
use vstd::arithmetic::power2::pow2;
use vstd::prelude::*;

verus! {

/// An integer without its sign.
pub open spec fn size(x: int) -> nat {
    if x >= 0 {
        x as nat
    } else {
        (-x) as nat
    }
}

/// Half of the first magnitude that is too large for the format, in units of `2^-149`.
pub open spec fn safe_limit() -> nat {
    pow2(276)
}

/// Whether the significand of a magnitude with a 24-bit significand is even.
pub open spec fn has_even_significand(y: nat) -> bool
    decreases y,
{
    if y < 0x100_0000 {
        y % 2 == 0
    } else {
        has_even_significand(y / 2)
    }
}

/// Where two magnitudes with a 24-bit significand are equally near to a ratio, it is rounded
/// to the one with the even significand.
pub proof fn ties_go_to_even(p: nat, q: nat, y: nat)
    requires
        q > 0,
        representable(y),
        y != round_ratio(p, q),
        distance(p, q * y) == distance(p, q * round_ratio(p, q)),
    ensures
        has_even_significand(round_ratio(p, q)),
    decreases (if p >= q * 0x100_0000 { p - q * 0x100_0000 + 1 } else { 0 }),
{
    reveal_with_fuel(has_even_significand, 2);
    let r = round_ratio(p, q);
    if p < q * 0x100_0000 {
        let k = p / q;
        let m = p % q;
        lemma_fundamental_div_mod(p as int, q as int);
        assert(q * (k + 1) == q * k + q) by (nonlinear_arith);
        assert(k < 0x100_0000) by (nonlinear_arith)
            requires
                q * k <= p,
                p < q * 0x100_0000,
        ;
        if y < k {
            assert(q * y <= q * k - q) by (nonlinear_arith)
                requires
                    y <= k - 1,
            ;
        } else if y > k + 1 {
            assert(q * y >= q * (k + 1) + q) by (nonlinear_arith)
                requires
                    y >= k + 2,
            ;
        }
    } else {
        let z = round_ratio(p, 2 * q);
        assert(q * (2 * z) == (2 * q) * z) by (nonlinear_arith);
        lemma_round_lower_bound(p, 2 * q, 0x80_0000);
        if y < 0x100_0000 {
            rounding_is_nearest(p, 2 * q, 0x80_0000);
            assert((2 * q) * 0x80_0000 == q * 0x100_0000) by (nonlinear_arith);
            assert(q * y < q * 0x100_0000) by (nonlinear_arith)
                requires
                    y < 0x100_0000,
                    q > 0,
            ;
        } else {
            assert(q * y == (2 * q) * (y / 2)) by (nonlinear_arith)
                requires
                    y % 2 == 0,
            ;
            ties_go_to_even(p, 2 * q, y / 2);
        }
    }
}

/// A power of two times a magnitude with a 24-bit significand has one too.
pub proof fn lemma_scaled_is_representable(y: nat, s: nat)
    requires
        representable(y),
    ensures
        representable(y * pow2(s)),
    decreases s,
{
    vstd::arithmetic::power2::lemma2_to64();
    if s > 0 {
        let t = (s - 1) as nat;
        lemma_pow2_unfold(s);
        lemma_scaled_is_representable(y, t);
        let x = y * pow2(t);
        assert(y * pow2(s) == 2 * x) by (nonlinear_arith)
            requires
                pow2(s) == 2 * pow2(t),
                x == y * pow2(t),
        ;
        assert((2 * x) / 2 == x);
    } else {
        assert(y * pow2(s) == y) by (nonlinear_arith)
            requires
                pow2(s) == 1,
        ;
    }
}

/// Whole numbers of points up to `2^24` are numbers of the format.
pub proof fn whole_points_are_representable(points: nat)
    requires
        points <= 0x100_0000,
    ensures
        representable(points * one()),
        points * one() <= safe_limit(),
{
    assert(representable(0x80_0000));
    lemma_scaled_is_representable(points, 149);
    vstd::arithmetic::power2::lemma2_to64();
    lemma_pow2_adds(24, 149);
    lemma_pow2_strictly_increases(173, 276);
    assert(points * one() <= 0x100_0000 * one()) by (nonlinear_arith)
        requires
            points <= 0x100_0000,
    ;
}

/// Magnitudes up to the safe limit do not round to infinity.
proof fn lemma_safe_limit(x: nat)
    requires
        x <= safe_limit(),
    ensures
        round_ratio(x, 1) <= safe_limit(),
        safe_limit() < magnitude(INFINITY as nat),
{
    lemma_powers_of_two_are_representable(276);
    rounding_stays_below(x, 1, safe_limit());
    vstd::arithmetic::power2::lemma2_to64();
    lemma_magnitude_of_parts(0x80_0000, 254);
    lemma_pow2_adds(23, 254);
    lemma_pow2_strictly_increases(276, 277);
}

/// The sum of two numbers is the number of the format that is nearest to their exact sum,
/// and the exact sum itself where that is a number of the format.
pub proof fn sum_is_nearest(x: int, y: int) -> (sum: int)
    requires
        size(x + y) <= safe_limit(),
    ensures
        Value::Finite(x).plus(Value::Finite(y)) == Value::Finite(sum),
        representable(size(sum)),
        x + y >= 0 ==> sum >= 0,
        x + y <= 0 ==> sum <= 0,
        size(sum) <= safe_limit(),
        forall|z: nat| #[trigger]
            representable(z) ==> distance(size(x + y), size(sum)) <= distance(size(x + y), z),
        representable(size(x + y)) ==> sum == x + y,
{
    let exact = size(x + y);
    let r = round_ratio(exact, 1);
    lemma_safe_limit(exact);
    rounding_is_representable(exact, 1);
    let sum = if x + y < 0 {
        -(r as int)
    } else {
        r as int
    };
    assert(nearest_integer(x + y) == Value::Finite(sum));
    assert forall|z: nat| #[trigger] representable(z) implies distance(exact, r) <= distance(
        exact,
        z,
    ) by {
        rounding_is_nearest(exact, 1, z);
    }
    if representable(exact) {
        representable_is_exact(exact);
    }
    if exact == 0 {
        assert(representable(0));
    }
    sum
}

/// Whole numbers of points add up exactly, up to `2^24` of them.
pub proof fn whole_points_add_up(a: int, b: int)
    requires
        -0x100_0000 <= a + b <= 0x100_0000,
    ensures
        Value::Finite(a * one()).plus(Value::Finite(b * one())) == Value::Finite((a + b) * one()),
{
    let sum = a + b;
    whole_points_are_representable(size(sum));
    assert(a * one() + b * one() == sum * one()) by (nonlinear_arith)
        requires
            sum == a + b,
    ;
    assert(size(sum * one()) == size(sum) * one()) by {
        lemma_pow2_pos(149);
        if sum >= 0 {
            assert(sum * one() >= 0) by (nonlinear_arith)
                requires
                    sum >= 0,
            ;
        } else {
            assert((-sum) * one() == -(sum * one())) by (nonlinear_arith);
            assert((-sum) * one() > 0) by (nonlinear_arith)
                requires
                    sum < 0,
                    one() > 0,
            ;
        }
    }
    let rounded = sum_is_nearest(a * one(), b * one());
}

/// Adding two numbers gives the number nearest to their sum. The order does not matter.
pub proof fn addition_is_nearest(
    a: Binary32,
    b: Binary32,
    x: int,
    y: int,
    sum: Binary32,
    mirrored: Binary32,
)
    requires
        call_ensures(Binary32::plus, (a, b), sum),
        call_ensures(Binary32::plus, (b, a), mirrored),
        a.value() == Value::Finite(x),
        b.value() == Value::Finite(y),
        size(x + y) <= safe_limit(),
    ensures
        sum.value() == mirrored.value(),
        sum.value() matches Value::Finite(r) && representable(size(r)) && (x + y >= 0 ==> r >= 0)
            && (x + y <= 0 ==> r <= 0) && forall|z: nat| #[trigger]
            representable(z) ==> distance(size(x + y), size(r)) <= distance(size(x + y), z),
        representable(size(x + y)) ==> sum.value() == Value::Finite(x + y),
{
    let r = sum_is_nearest(x, y);
}

/// To add what is no number gives no number; an infinity takes over whatever is finite; two
/// opposite infinities have no sum.
pub proof fn addition_of_extremes(a: Binary32, b: Binary32, sum: Binary32)
    requires
        call_ensures(Binary32::plus, (a, b), sum),
    ensures
        a.value() is NotANumber || b.value() is NotANumber ==> sum.value() is NotANumber,
        a.value() is Finite && !(b.value() is Finite) ==> sum.value() == b.value(),
        b.value() is Finite && !(a.value() is Finite) ==> sum.value() == a.value(),
        a.value() is PositiveInfinity && b.value() is NegativeInfinity
            ==> sum.value() is NotANumber,
        a.value() is NegativeInfinity && b.value() is PositiveInfinity
            ==> sum.value() is NotANumber,
        !(a.value() is Finite) && a.value() == b.value() ==> sum.value() == a.value(),
{
}

/// A count up to `2^24` is held exactly, a larger one as the nearest number.
pub proof fn counts_are_nearest(count: u64, number: Binary32)
    requires
        call_ensures(Binary32::from_count, (count,), number),
    ensures
        count <= 0x100_0000 ==> number.value() == Value::Finite(count * one()),
        number.value() matches Value::Finite(r) && r >= 0 && representable(r as nat) && forall|
            z: nat,
        | #[trigger]
            representable(z) ==> distance(count as nat * one(), r as nat) <= distance(
                count as nat * one(),
                z,
            ),
{
    let exact = count as nat * one();
    rounding_is_representable(exact, 1);
    assert forall|z: nat| #[trigger] representable(z) implies distance(
        exact,
        round_ratio(exact, 1),
    ) <= distance(exact, z) by {
        rounding_is_nearest(exact, 1, z);
    }
    if count <= 0x100_0000 {
        whole_points_are_representable(count as nat);
        representable_is_exact(exact);
    }
}

/// The inverse of a count up to `2^24` is the number nearest to it: no other comes nearer to
/// one when multiplied by the count.
pub proof fn inverses_are_nearest(count: u64, number: Binary32)
    requires
        0 < count <= 0x100_0000,
        call_ensures(Binary32::inverse_of_count, (count,), number),
    ensures
        number.value() matches Value::Finite(r) && r >= 0 && representable(r as nat) && forall|
            z: nat,
        | #[trigger]
            representable(z) ==> distance(one() * one(), (count as nat * one()) * (r as nat))
                <= distance(one() * one(), (count as nat * one()) * z),
{
    let n = count as nat * one();
    whole_points_are_representable(count as nat);
    representable_is_exact(n);
    lemma_pow2_pos(149);
    assert(n > 0) by (nonlinear_arith)
        requires
            n == count as nat * one(),
            count > 0,
            one() > 0,
    ;
    rounding_is_representable(one() * one(), n);
    assert forall|z: nat| #[trigger] representable(z) implies distance(
        one() * one(),
        n * round_ratio(one() * one(), n),
    ) <= distance(one() * one(), n * z) by {
        rounding_is_nearest(one() * one(), n, z);
    }
}

/// A number and its opposite add up to zero, and the opposite of the opposite is the number.
pub proof fn negation_cancels(a: Binary32, b: Binary32, c: Binary32, sum: Binary32, x: int)
    requires
        a.value() == Value::Finite(x),
        call_ensures(Binary32::negate, (a,), b),
        call_ensures(Binary32::negate, (b,), c),
        call_ensures(Binary32::plus, (a, b), sum),
    ensures
        c.value() == a.value(),
        sum.value() == Value::Finite(0),
{
    assert(representable(0));
    lemma_pow2_pos(276);
    let r = sum_is_nearest(x, -x);
}

/// Of a number and zero the larger is taken, zero where there is no number.
pub proof fn maximum_is_the_larger(a: Binary32, larger: Binary32)
    requires
        call_ensures(Binary32::max_with_zero, (a,), larger),
    ensures
        a.value() matches Value::Finite(x) ==> larger.value() == Value::Finite(
            if x >= 0 {
                x
            } else {
                0
            },
        ),
        a.value() is PositiveInfinity ==> larger.value() is PositiveInfinity,
        a.value() is NegativeInfinity || a.value() is NotANumber ==> larger.value()
            == Value::Finite(0),
{
}

/// Numbers are compared by what they stand for; infinities are beyond all finite numbers,
/// and nothing compares with what is no number.
pub proof fn comparison_goes_by_value(a: Binary32, b: Binary32, x: int, y: int, holds: bool)
    requires
        call_ensures(Binary32::at_least, (a, b), holds),
    ensures
        a.value() == Value::Finite(x) && b.value() == Value::Finite(y) ==> (holds <==> x >= y),
        a.value() is NotANumber || b.value() is NotANumber ==> !holds,
        a.value() is PositiveInfinity && !(b.value() is NotANumber) ==> holds,
        b.value() is NegativeInfinity && !(a.value() is NotANumber) ==> holds,
        a.value() is NegativeInfinity && b.value() is Finite ==> !holds,
        a.value() is Finite && b.value() is PositiveInfinity ==> !holds,
        a.value() is NegativeInfinity && b.value() is PositiveInfinity ==> !holds,
{
}

/// The smallest encodings stand for zero and for one unit, larger encodings stand for larger
/// magnitudes, and the sign bit changes the sign alone.
pub proof fn encodings_are_ordered(a: u32, b: u32)
    requires
        a < b < INFINITY,
    ensures
        decode(0) == Value::Finite(0),
        decode(1) == Value::Finite(1),
        (decode(a) matches Value::Finite(x) && decode(b) matches Value::Finite(y) && x < y
            && decode((b + 0x8000_0000) as u32) == Value::Finite(-y)),
{
    lemma_magnitude_increases(a as nat, b as nat);
}

} // verus!
