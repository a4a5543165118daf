//! Single-precision numbers, held as their IEEE 754 binary32 encoding.
//!
//! The module computes with integers alone. Its contracts speak of the number that an
//! encoding stands for, counted in units of `2^-149`, the smallest positive number of the
//! format, so that every finite number is an integer.
use crate::rounding::half_even;
use crate::rounding::lemma_quotient_unique;
use crate::rounding::lemma_round_coarse;
use crate::rounding::lemma_round_pow2;
use crate::rounding::lemma_round_ratio_scale;
use crate::rounding::lemma_round_small;
use crate::rounding::round_ratio;
use crate::rounding::rounding_is_monotonic;
use vstd::arithmetic::power2::lemma_pow2_adds;
use vstd::arithmetic::power2::lemma_pow2_pos;
use vstd::arithmetic::power2::lemma_pow2_strictly_increases;
use vstd::arithmetic::power2::lemma_pow2_unfold;
use vstd::arithmetic::power2::pow2;
use vstd::prelude::*;

verus! {

/// The first encoding with the sign bit set.
pub const SIGN: u32 = 0x8000_0000;

/// The encoding of positive infinity; the encodings between it and `SIGN` are no numbers.
pub const INFINITY: u32 = 0x7f80_0000;

/// The encoding that stands for no number after an operation without a result.
pub const NOT_A_NUMBER: u32 = 0x7fc0_0000;

/// The distance between the encodings of a number and of its double.
pub const EXPONENT_STEP: u32 = 0x80_0000;

/// What an encoding stands for. Finite numbers are counted in units of `2^-149`.
pub enum Value {
    NotANumber,
    PositiveInfinity,
    NegativeInfinity,
    Finite(int),
}

/// The magnitude that an encoding without its sign bit stands for. Below `2^24` that is
/// the encoding itself; from there on, one more in the exponent field doubles it.
pub open spec fn magnitude(m: nat) -> nat
    decreases m,
{
    if m < 0x100_0000 {
        m
    } else {
        2 * magnitude((m - 0x80_0000) as nat)
    }
}

/// The value of an encoding.
pub open spec fn decode(bits: u32) -> Value {
    let m = bits % SIGN;
    if m > INFINITY {
        Value::NotANumber
    } else if m == INFINITY {
        if bits < SIGN {
            Value::PositiveInfinity
        } else {
            Value::NegativeInfinity
        }
    } else if bits < SIGN {
        Value::Finite(magnitude(m as nat) as int)
    } else {
        Value::Finite(-(magnitude(m as nat) as int))
    }
}

/// The value nearest to the exact quotient `p / q` of magnitudes, ties going to the even
/// significand; a quotient too large for the format becomes an infinity.
pub open spec fn nearest(negative: bool, p: nat, q: nat) -> Value {
    let r = round_ratio(p, q);
    if r >= magnitude(INFINITY as nat) {
        if negative {
            Value::NegativeInfinity
        } else {
            Value::PositiveInfinity
        }
    } else if negative {
        Value::Finite(-(r as int))
    } else {
        Value::Finite(r as int)
    }
}

/// The value nearest to an exact integer.
pub open spec fn nearest_integer(x: int) -> Value {
    if x < 0 {
        nearest(true, (-x) as nat, 1)
    } else {
        nearest(false, x as nat, 1)
    }
}

/// One, in units of `2^-149`.
pub open spec fn one() -> nat {
    pow2(149)
}

impl Value {
    /// The sum of two values: exact, then rounded.
    pub open spec fn plus(self, other: Value) -> Value {
        match (self, other) {
            (Value::Finite(x), Value::Finite(y)) => nearest_integer(x + y),
            (Value::NotANumber, _) => Value::NotANumber,
            (_, Value::NotANumber) => Value::NotANumber,
            (Value::PositiveInfinity, Value::NegativeInfinity) => Value::NotANumber,
            (Value::NegativeInfinity, Value::PositiveInfinity) => Value::NotANumber,
            (Value::Finite(_), _) => other,
            (_, _) => self,
        }
    }

    /// The value with the opposite sign.
    pub open spec fn negated(self) -> Value {
        match self {
            Value::NotANumber => Value::NotANumber,
            Value::PositiveInfinity => Value::NegativeInfinity,
            Value::NegativeInfinity => Value::PositiveInfinity,
            Value::Finite(x) => Value::Finite(-x),
        }
    }

    /// The larger of the value and zero; zero where the value is no number.
    pub open spec fn at_least_zero(self) -> Value {
        match self {
            Value::PositiveInfinity => Value::PositiveInfinity,
            Value::Finite(x) if x > 0 => Value::Finite(x),
            _ => Value::Finite(0),
        }
    }

    /// Whether both are numbers and `self` is not below `other`.
    pub open spec fn ge(self, other: Value) -> bool {
        match (self, other) {
            (Value::NotANumber, _) => false,
            (_, Value::NotANumber) => false,
            (Value::Finite(x), Value::Finite(y)) => x >= y,
            (Value::PositiveInfinity, _) => true,
            (_, Value::NegativeInfinity) => true,
            (_, _) => false,
        }
    }

    /// Whether the value is a number that is not negative.
    pub open spec fn is_non_negative(self) -> bool {
        match self {
            Value::PositiveInfinity => true,
            Value::Finite(x) => x >= 0,
            _ => false,
        }
    }
}

/// A single-precision number. Every 32-bit pattern is the encoding of one.
#[derive(Clone, Copy, Debug)]
pub struct Binary32 {
    pub bits: u32,
}

impl Binary32 {
    /// What the number stands for.
    pub open spec fn value(self) -> Value {
        decode(self.bits)
    }

    /// The number with the given encoding.
    pub fn from_bits(bits: u32) -> (number: Binary32)
        ensures
            number.bits == bits,
    {
        Binary32 { bits }
    }

    /// The encoding of the number.
    pub fn to_bits(self) -> (bits: u32)
        ensures
            bits == self.bits,
    {
        self.bits
    }

    /// The number nearest to a count.
    pub fn from_count(count: u64) -> (number: Binary32)
        ensures
            number.value() == Value::Finite(round_ratio(count as nat * one(), 1) as int),
            number.bits <= 0x5f80_0000,
            count > 0 ==> number.bits >= 0x3f80_0000,
    {
        let m: u32 = encode(count as u128, 149);
        proof {
            lemma_counts_are_finite(count as nat, m as nat);
        }
        Binary32 { bits: m }
    }

    /// The number nearest to the inverse of the number nearest to a count.
    pub fn inverse_of_count(count: u64) -> (number: Binary32)
        requires
            count > 0,
        ensures
            number.value() == Value::Finite(
                round_ratio(one() * one(), round_ratio(count as nat * one(), 1)) as int,
            ),
    {
        let divisor: Binary32 = Binary32::from_count(count);
        let (k, s) = split(divisor.bits);
        proof {
            vstd::arithmetic::power2::lemma2_to64_rest();
            lemma_pow2_adds(149, 149);
            lemma_inverse(k as nat, s as nat);
        }
        let q: u128 = divide_half_even(0x8000_0000_0000, k as u128);
        let m: u32 = (251 - s) * EXPONENT_STEP + q as u32;
        proof {
            lemma_magnitude_of_parts(q as nat, (251 - s) as nat);
        }
        Binary32 { bits: m }
    }

    /// The number with the opposite sign.
    pub fn negate(self) -> (number: Binary32)
        ensures
            number.value() == self.value().negated(),
    {
        if self.bits < SIGN {
            Binary32 { bits: self.bits + SIGN }
        } else {
            Binary32 { bits: self.bits - SIGN }
        }
    }

    /// The sum of two numbers, rounded to the nearest number.
    pub fn plus(self, other: Binary32) -> (sum: Binary32)
        ensures
            sum.value() == self.value().plus(other.value()),
    {
        let a: u32 = self.bits % SIGN;
        let b: u32 = other.bits % SIGN;
        let negative_a: bool = self.bits >= SIGN;
        let negative_b: bool = other.bits >= SIGN;
        if a > INFINITY || b > INFINITY {
            Binary32 { bits: NOT_A_NUMBER }
        } else if a == INFINITY {
            if b == INFINITY && negative_a != negative_b {
                Binary32 { bits: NOT_A_NUMBER }
            } else {
                self
            }
        } else if b == INFINITY {
            other
        } else {
            let (ka, sa) = split(a);
            let (kb, sb) = split(b);
            if sa >= sb {
                add_finite(negative_a, ka, sa, negative_b, kb, sb)
            } else {
                add_finite(negative_b, kb, sb, negative_a, ka, sa)
            }
        }
    }

    /// The larger of the number and zero; zero where it is no number.
    pub fn max_with_zero(self) -> (number: Binary32)
        ensures
            number.value() == self.value().at_least_zero(),
    {
        proof {
            if 0 < self.bits {
                lemma_magnitude_increases(0, self.bits as nat);
            }
        }
        if self.bits <= INFINITY {
            self
        } else {
            Binary32 { bits: 0 }
        }
    }

    /// Whether both are numbers and this one is not below the other.
    pub fn at_least(self, other: Binary32) -> (holds: bool)
        ensures
            holds == self.value().ge(other.value()),
    {
        let a: u32 = self.bits % SIGN;
        let b: u32 = other.bits % SIGN;
        proof {
            if a < b {
                lemma_magnitude_increases(a as nat, b as nat);
            } else if b < a {
                lemma_magnitude_increases(b as nat, a as nat);
            }
            if a > 0 {
                lemma_magnitude_increases(0, a as nat);
            }
            if b > 0 {
                lemma_magnitude_increases(0, b as nat);
            }
        }
        if a > INFINITY || b > INFINITY {
            false
        } else if self.bits < SIGN && other.bits < SIGN {
            a >= b
        } else if self.bits < SIGN {
            true
        } else if other.bits < SIGN {
            a == 0 && b == 0
        } else {
            a <= b
        }
    }
}

/// A magnitude with significand `k` at shift `s` is encoded as `s` steps plus `k`.
pub proof fn lemma_magnitude_of_parts(k: nat, s: nat)
    requires
        k <= 0x100_0000,
        s > 0 ==> k >= 0x80_0000,
    ensures
        magnitude(s * 0x80_0000 + k) == k * pow2(s),
    decreases s,
{
    reveal_with_fuel(magnitude, 3);
    vstd::arithmetic::power2::lemma2_to64();
    if s > 0 {
        let t = (s - 1) as nat;
        lemma_pow2_unfold(s);
        assert(k * pow2(s) == 2 * (k * pow2(t))) by (nonlinear_arith)
            requires
                pow2(s) == 2 * pow2(t),
        ;
        lemma_magnitude_of_parts(k, t);
        assert((s * 0x80_0000 + k - 0x80_0000) as nat == t * 0x80_0000 + k);
    } else {
        assert(magnitude(k) == k);
        assert(k * pow2(s) == k) by (nonlinear_arith)
            requires
                pow2(s) == 1,
        ;
    }
}

/// Larger encodings stand for larger magnitudes.
pub proof fn lemma_magnitude_increases(a: nat, b: nat)
    requires
        a < b,
    ensures
        magnitude(a) < magnitude(b),
    decreases b,
{
    reveal_with_fuel(magnitude, 2);
    if a < 0x100_0000 {
        if b >= 0x100_0000 {
            lemma_magnitude_increases(0x7f_ffff, (b - 0x80_0000) as nat);
        }
    } else {
        lemma_magnitude_increases((a - 0x80_0000) as nat, (b - 0x80_0000) as nat);
    }
}

/// The significand and the shift of a finite magnitude.
fn split(m: u32) -> (parts: (u32, u32))
    requires
        m < INFINITY,
    ensures
        parts.0 < 0x100_0000,
        parts.1 <= 253,
        parts.1 > 0 ==> parts.0 >= 0x80_0000,
        m == parts.1 * 0x80_0000 + parts.0,
        magnitude(m as nat) == parts.0 * pow2(parts.1 as nat),
{
    let shift: u32 = if m < 0x100_0000 {
        0
    } else {
        m / EXPONENT_STEP - 1
    };
    let significand: u32 = m - shift * EXPONENT_STEP;
    proof {
        lemma_magnitude_of_parts(significand as nat, shift as nat);
    }
    (significand, shift)
}

fn power_of_two(n: u32) -> (power: u128)
    requires
        n <= 64,
    ensures
        power == pow2(n as nat),
{
    proof {
        vstd::arithmetic::power2::lemma2_to64();
    }
    let mut power: u128 = 1;
    let mut i: u32 = 0;
    while i < n
        invariant
            i <= n <= 64,
            power == pow2(i as nat),
        decreases n - i,
    {
        proof {
            lemma_pow2_unfold((i + 1) as nat);
            vstd::arithmetic::power2::lemma2_to64();
            if i < 63 {
                lemma_pow2_strictly_increases((i + 1) as nat, 64);
            }
        }
        power = 2 * power;
        i = i + 1;
    }
    power
}

/// The integer nearest to `p / q`, ties going to the even one.
fn divide_half_even(p: u128, q: u128) -> (k: u128)
    requires
        0 < q < 0x8000_0000_0000_0000_0000_0000_0000_0000,
        p / q < u128::MAX,
    ensures
        k == half_even(p as nat, q as nat),
{
    let k: u128 = p / q;
    let r: u128 = p % q;
    if 2 * r < q {
        k
    } else if 2 * r > q {
        k + 1
    } else if k % 2 == 0 {
        k
    } else {
        k + 1
    }
}

/// The encoding of the magnitude nearest to `x * 2^s`, or that of infinity where it is
/// too large.
fn encode(x: u128, s: u32) -> (m: u32)
    requires
        x < 0x1_0000_0000_0000_0000,
        s <= 253,
    ensures
        m <= INFINITY,
        m < INFINITY ==> magnitude(m as nat) == round_ratio(x as nat * pow2(s as nat), 1),
        m == INFINITY ==> round_ratio(x as nat * pow2(s as nat), 1) >= magnitude(
            INFINITY as nat,
        ),
{
    proof {
        lemma_round_pow2(x as nat, s as nat);
        vstd::arithmetic::power2::lemma2_to64();
    }
    if x < 0x100_0000 {
        let mut k: u128 = x;
        let mut shift: u32 = s;
        while shift > 0 && k < 0x80_0000
            invariant
                k < 0x100_0000,
                shift <= s <= 253,
                k * pow2(shift as nat) == x * pow2(s as nat),
            decreases shift,
        {
            proof {
                lemma_pow2_unfold(shift as nat);
                let half = pow2((shift - 1) as nat);
                assert((2 * k) * half == k * (2 * half)) by (nonlinear_arith);
            }
            k = 2 * k;
            shift = shift - 1;
        }
        proof {
            lemma_round_small(x as nat);
            lemma_magnitude_of_parts(k as nat, shift as nat);
        }
        shift * EXPONENT_STEP + k as u32
    } else {
        let mut unit: u128 = 1;
        let mut e: u32 = 0;
        proof {
            lemma_round_coarse(x as nat, 1, 0);
        }
        while x >= unit * 0x100_0000
            invariant
                0x100_0000 <= x < 0x1_0000_0000_0000_0000,
                e <= 40,
                unit == pow2(e as nat),
                1 <= unit <= 0x100_0000_0000,
                x >= unit * 0x80_0000,
                round_ratio(x as nat, 1) == pow2(e as nat) * round_ratio(x as nat, unit as nat),
            decreases x - unit,
        {
            proof {
                lemma_pow2_unfold((e + 1) as nat);
                vstd::arithmetic::power2::lemma2_to64_rest();
                if e < 39 {
                    lemma_pow2_strictly_increases(e as nat, 39);
                }
                let rest = round_ratio(x as nat, 2 * unit as nat);
                assert(round_ratio(x as nat, unit as nat) == 2 * rest);
                assert(pow2(e as nat) * (2 * rest) == (2 * pow2(e as nat)) * rest)
                    by (nonlinear_arith);
            }
            unit = 2 * unit;
            e = e + 1;
        }
        let k: u128 = divide_half_even(x, unit);
        proof {
            lemma_quotient_bounds(x as nat, unit as nat);
        }
        let m: u32 = (s + e) * EXPONENT_STEP + k as u32;
        proof {
            lemma_magnitude_of_parts(k as nat, (s + e) as nat);
            lemma_pow2_adds(s as nat, e as nat);
            let (a, b) = (pow2(s as nat), pow2(e as nat));
            assert((b * k as nat) * a == k as nat * (a * b)) by (nonlinear_arith);
            if m > INFINITY {
                lemma_magnitude_increases(INFINITY as nat, m as nat);
            }
        }
        if m < INFINITY {
            m
        } else {
            INFINITY
        }
    }
}

/// A quotient between `2^23` and `2^24` rounds to an integer between them, both included.
proof fn lemma_quotient_bounds(p: nat, q: nat)
    requires
        q > 0,
        q * 0x80_0000 <= p < q * 0x100_0000,
    ensures
        0x80_0000 <= p / q < 0x100_0000,
        0x80_0000 <= half_even(p, q) <= 0x100_0000,
{
    vstd::arithmetic::div_mod::lemma_fundamental_div_mod(p as int, q as int);
    let k = p / q;
    let r = p % q;
    assert(0x80_0000 <= k < 0x100_0000) by (nonlinear_arith)
        requires
            p == q * k + r,
            r < q,
            q * 0x80_0000 <= p < q * 0x100_0000,
    ;
}

/// The number with magnitude `m` and the given sign.
fn with_sign(negative: bool, m: u32) -> (number: Binary32)
    requires
        m <= INFINITY,
    ensures
        number.value() == (if m == INFINITY {
            if negative {
                Value::NegativeInfinity
            } else {
                Value::PositiveInfinity
            }
        } else if negative {
            Value::Finite(-(magnitude(m as nat) as int))
        } else {
            Value::Finite(magnitude(m as nat) as int)
        }),
{
    if negative {
        Binary32 { bits: m + SIGN }
    } else {
        Binary32 { bits: m }
    }
}

/// Adding or taking away a magnitude more than `2^32` times smaller than the spacing
/// changes nothing.
proof fn lemma_absorbs(k: nat, d: nat, small: nat, negative: bool)
    requires
        0x80_0000 <= k < 0x100_0000,
        small < 0x100_0000,
        d > 32,
    ensures
        k * pow2(d) > small,
        negative ==> round_ratio((k * pow2(d) - small) as nat, 1) == k * pow2(d),
        !negative ==> round_ratio(k * pow2(d) + small, 1) == k * pow2(d),
{
    vstd::arithmetic::power2::lemma2_to64();
    if d > 33 {
        lemma_pow2_strictly_increases(33, d);
    }
    lemma_pow2_unfold(33);
    let c = (d - 1) as nat;
    let b = (d - 2) as nat;
    lemma_pow2_unfold(d);
    lemma_pow2_unfold(c);
    let unit = pow2(d);
    assert(k * unit >= 0x80_0000 * unit) by (nonlinear_arith)
        requires
            k >= 0x80_0000,
    ;
    if !negative || small == 0 {
        let p = (k * unit + small) as nat;
        lemma_round_coarse(p, 1, d);
        lemma_quotient_unique(p, unit, k, small);
        assert(p < unit * 0x100_0000) by (nonlinear_arith)
            requires
                p == k * unit + small,
                small < unit,
                k + 1 <= 0x100_0000,
        ;
        assert(round_ratio(p, unit) == k);
        assert(unit * k == k * unit) by (nonlinear_arith);
    } else {
        let p = (k * unit - small) as nat;
        if k == 0x80_0000 {
            let half = pow2(c);
            lemma_round_coarse(p, 1, c);
            lemma_quotient_unique(p, half, 0xff_ffff, (half - small) as nat);
            assert(round_ratio(p, half) == 0x100_0000);
        } else {
            assert(k * unit >= 0x80_0001 * unit) by (nonlinear_arith)
                requires
                    k >= 0x80_0001,
            ;
            lemma_round_coarse(p, 1, d);
            assert((k - 1) * unit + unit == k * unit) by (nonlinear_arith);
            lemma_quotient_unique(p, unit, (k - 1) as nat, (unit - small) as nat);
            assert(k * unit < 0x100_0000 * unit) by (nonlinear_arith)
                requires
                    k < 0x100_0000,
                    unit > 0,
            ;
            assert(round_ratio(p, unit) == k);
            assert(unit * k == k * unit) by (nonlinear_arith);
        }
    }
}

/// Counts of 64 bits are in the range of the format, and a positive one is not below one.
proof fn lemma_counts_are_finite(count: nat, m: nat)
    requires
        count < 0x1_0000_0000_0000_0000,
        m <= INFINITY,
        m < INFINITY ==> magnitude(m) == round_ratio(count * pow2(149), 1),
        m == INFINITY ==> round_ratio(count * pow2(149), 1) >= magnitude(INFINITY as nat),
    ensures
        m <= 0x5f80_0000,
        count > 0 ==> m >= 0x3f80_0000,
{
    vstd::arithmetic::power2::lemma2_to64();
    lemma_round_pow2(count, 149);
    let r = round_ratio(count, 1);
    rounding_is_monotonic(count, 0x1_0000_0000_0000_0000, 1);
    lemma_round_small(1);
    lemma_round_pow2(1, 64);
    lemma_pow2_adds(64, 149);
    assert(r * pow2(149) <= 0x1_0000_0000_0000_0000 * pow2(149)) by (nonlinear_arith)
        requires
            r <= 0x1_0000_0000_0000_0000,
    ;
    lemma_magnitude_of_parts(0x80_0000, 190);
    lemma_pow2_adds(23, 190);
    if m > 0x5f80_0000 {
        lemma_magnitude_increases(0x5f80_0000, m);
    }
    if count > 0 {
        rounding_is_monotonic(1, count, 1);
        assert(r * pow2(149) >= pow2(149)) by (nonlinear_arith)
            requires
                r >= 1,
        ;
        lemma_magnitude_of_parts(0x80_0000, 126);
        lemma_pow2_adds(23, 126);
        if m < 0x3f80_0000 {
            lemma_magnitude_increases(m, 0x3f80_0000);
        }
    }
}

/// The inverse of a number with significand `k` at shift `s`, in units of `2^-149`.
proof fn lemma_inverse(k: nat, s: nat)
    requires
        0x80_0000 <= k < 0x100_0000,
        s <= 251,
    ensures
        0x80_0000 <= half_even(0x8000_0000_0000, k) <= 0x100_0000,
        round_ratio(pow2(298), k * pow2(s)) == half_even(0x8000_0000_0000, k) * pow2(
            (251 - s) as nat,
        ),
{
    vstd::arithmetic::power2::lemma2_to64_rest();
    let j = (251 - s) as nat;
    let q = k * pow2(s);
    let unit = pow2(251);
    lemma_pow2_pos(s);
    lemma_pow2_pos(j);
    lemma_pow2_pos(251);
    lemma_pow2_adds(s, j);
    lemma_pow2_adds(47, 251);
    assert(q > 0) by (nonlinear_arith)
        requires
            q == k * pow2(s),
            k > 0,
            pow2(s) > 0,
    ;
    assert(q * pow2(j) == k * unit) by (nonlinear_arith)
        requires
            q == k * pow2(s),
            pow2(s) * pow2(j) == unit,
    ;
    if j > 0 {
        let i = (j - 1) as nat;
        lemma_pow2_unfold(j);
        assert(0x8000_0000_0000 * unit >= q * pow2(i) * 0x100_0000) by (nonlinear_arith)
            requires
                q * pow2(j) == k * unit,
                pow2(j) == 2 * pow2(i),
                k <= 0x100_0000,
        ;
    }
    lemma_round_coarse(pow2(298), q, j);
    lemma_round_ratio_scale(0x8000_0000_0000, k, unit);
    assert(pow2(298) == unit * 0x8000_0000_0000);
    assert(k * unit == unit * k) by (nonlinear_arith);
    let h = half_even(0x8000_0000_0000, k);
    if k > 0x80_0000 {
        assert(k * 0x80_0000 <= 0x8000_0000_0000 < k * 0x100_0000);
        lemma_quotient_bounds(0x8000_0000_0000, k);
    } else {
        lemma_quotient_unique(0x8000_0000_0000, k, 0x100_0000, 0);
        lemma_quotient_unique(0x8000_0000_0000, 2 * k, 0x80_0000, 0);
        assert(round_ratio(0x8000_0000_0000, 2 * k) == 0x80_0000);
    }
    assert(round_ratio(0x8000_0000_0000, k) == h);
    assert(pow2(j) * h == h * pow2(j)) by (nonlinear_arith);
}

/// The integer with the given sign and magnitude.
pub open spec fn signed(negative: bool, m: nat) -> int {
    if negative {
        -(m as int)
    } else {
        m as int
    }
}

/// The rounded sum of two finite numbers, the one with the larger shift first.
fn add_finite(
    negative1: bool,
    k1: u32,
    s1: u32,
    negative2: bool,
    k2: u32,
    s2: u32,
) -> (sum: Binary32)
    requires
        k1 < 0x100_0000,
        k2 < 0x100_0000,
        s2 <= s1 <= 253,
        s1 > 0 ==> k1 >= 0x80_0000,
        s1 * EXPONENT_STEP + k1 < INFINITY,
    ensures
        sum.value() == nearest_integer(
            signed(negative1, k1 as nat * pow2(s1 as nat)) + signed(
                negative2,
                k2 as nat * pow2(s2 as nat),
            ),
        ),
{
    let d: u32 = s1 - s2;
    let ghost unit = pow2(s2 as nat);
    let ghost high = k1 as nat * pow2(d as nat);
    let ghost total = signed(negative1, high) + signed(negative2, k2 as nat);
    proof {
        lemma_pow2_adds(d as nat, s2 as nat);
        lemma_pow2_pos(s2 as nat);
        let p = pow2(d as nat);
        assert(k1 as nat * (p * unit) == high * unit) by (nonlinear_arith)
            requires
                high == k1 as nat * p,
        ;
        assert(signed(negative1, high * unit) + signed(negative2, k2 as nat * unit) == total * unit)
            by (nonlinear_arith)
            requires
                total == signed(negative1, high) + signed(negative2, k2 as nat),
        ;
        let t: nat = if total < 0 {
            (-total) as nat
        } else {
            total as nat
        };
        lemma_round_pow2(t, s2 as nat);
        assert(total * unit < 0 <==> total < 0) by (nonlinear_arith)
            requires
                unit > 0,
        ;
        assert((-total) * unit == -(total * unit)) by (nonlinear_arith);
        assert(nearest_integer(total * unit) == (if total < 0 {
            nearest(true, t * unit, 1)
        } else {
            nearest(false, t * unit, 1)
        }));
    }
    if d > 32 {
        proof {
            lemma_absorbs(k1 as nat, d as nat, k2 as nat, negative1 != negative2);
            lemma_magnitude_of_parts(k1 as nat, s1 as nat);
            lemma_magnitude_increases((s1 * EXPONENT_STEP + k1) as nat, INFINITY as nat);
            assert(total < 0 <==> negative1);
        }
        with_sign(negative1, s1 * EXPONENT_STEP + k1)
    } else {
        let power: u128 = power_of_two(d);
        proof {
            vstd::arithmetic::power2::lemma2_to64();
            if d < 32 {
                lemma_pow2_strictly_increases(d as nat, 32);
            }
            assert(k1 * power < 0x100_0000_0000_0000) by (nonlinear_arith)
                requires
                    k1 < 0x100_0000,
                    power <= 0x1_0000_0000,
                    power >= 0,
            ;
        }
        let large: u128 = k1 as u128 * power;
        let small: u128 = k2 as u128;
        let (negative, x) = if negative1 == negative2 {
            (negative1, large + small)
        } else if large >= small {
            (negative1, large - small)
        } else {
            (negative2, small - large)
        };
        let m: u32 = encode(x, s2);
        proof {
            if m < INFINITY {
                lemma_magnitude_increases(m as nat, INFINITY as nat);
            }
            assert(signed(negative, x as nat) == total);
            lemma_round_small(0);
            lemma_magnitude_increases(0, INFINITY as nat);
        }
        with_sign(negative, m)
    }
}

} // verus!
