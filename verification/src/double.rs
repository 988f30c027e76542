//! Double precision: sums, products and quotients of numbers that are not negative, each rounded to 53
//! significant bits.
//!
//! A number is told as a whole number of the least positive steps of double precision, so every one
//! of them is an integer, and one is `2` to the power of 1074 steps.

use vstd::prelude::*;
use vstd::arithmetic::div_mod::{lemma_fundamental_div_mod, lemma_fundamental_div_mod_converse};
use vstd::arithmetic::power2::{
    lemma2_to64, lemma2_to64_rest, lemma_pow2_adds, lemma_pow2_pos,
    lemma_pow2_strictly_increases, lemma_pow2_unfold, pow2,
};

verus! {

/// The least number of 54 significant bits.
pub const LIMIT: u64 = 0x20_0000_0000_0000;

/// The least number of 53 significant bits.
pub const NORMAL: u64 = 0x10_0000_0000_0000;

/// The power of two steps that make one.
pub const SCALE: u32 = 1074;

/// One, in steps.
pub open spec fn one() -> int {
    pow2(SCALE as nat) as int
}

/// The distance between neighbouring numbers around a number of whole steps.
pub open spec fn unit(steps: int) -> int
    decreases steps,
{
    if steps < LIMIT {
        1
    } else {
        2 * unit(steps / 2)
    }
}

/// The integer closest to a ratio; the even one of two that are equally close.
pub open spec fn nearest_even(numerator: int, denominator: int) -> int {
    let floor = numerator / denominator;
    let rest = numerator % denominator;
    if 2 * rest > denominator || (2 * rest == denominator && floor % 2 == 1) {
        floor + 1
    } else {
        floor
    }
}

/// The number closest to a ratio.
pub open spec fn closest(numerator: int, denominator: int) -> int {
    let step = unit(numerator / denominator);
    step * nearest_even(numerator, denominator * step)
}

/// The number closest to an integer.
pub open spec fn whole(value: int) -> int {
    closest(value * one(), 1)
}

pub open spec fn product(left: int, right: int) -> int {
    closest(left * right, one())
}

pub open spec fn quotient(left: int, right: int) -> int {
    closest(left * one(), right)
}

pub open spec fn sum(left: int, right: int) -> int {
    closest(left + right, 1)
}

/// How far two numbers are apart.
pub open spec fn distance(left: int, right: int) -> int {
    if left <= right {
        closest(right - left, 1)
    } else {
        closest(left - right, 1)
    }
}

/// The integer closest to a number, halves rounding up.
pub open spec fn round(number: int) -> int {
    (2 * number + one()) / (2 * one())
}

/// A number: `mantissa` times `2` to the power of `exponent` steps.
#[derive(Clone, Copy, Debug, PartialEq, Eq, Structural)]
pub struct Double {
    pub mantissa: u64,
    pub exponent: u32,
}

/// The greatest exponent of a number that is calculated with.
pub const REACH: u32 = 0x0fff_ffff;

impl Double {
    /// The mantissa has 53 bits, or fewer where the number is as fine as it can be.
    pub open spec fn well_formed(&self) -> bool {
        &&& self.mantissa < LIMIT
        &&& self.mantissa >= NORMAL || self.exponent == 0
    }

    /// The number in steps.
    pub open spec fn value(&self) -> int {
        self.mantissa * pow2(self.exponent as nat)
    }
}

/// Equal ratios have the same quotient and are rounded alike.
proof fn lemma_same_ratio(n: int, d: int, m: int, e: int)
    requires
        0 <= n,
        0 <= m,
        0 < d,
        0 < e,
        n * e == m * d,
    ensures
        n / d == m / e,
        nearest_even(n, d) == nearest_even(m, e),
{
    let q = n / d;
    let r = n % d;
    lemma_fundamental_div_mod(n, d);
    let s = m - q * e;
    assert(r * e == s * d) by (nonlinear_arith)
        requires
            n == d * q + r,
            n * e == m * d,
            s == m - q * e,
    ;
    assert(0 <= s < e) by (nonlinear_arith)
        requires
            r * e == s * d,
            0 <= r < d,
            0 < e,
    ;
    lemma_fundamental_div_mod_converse(m, e, q, s);
    assert((2 * r > d) == (2 * s > e)) by (nonlinear_arith)
        requires
            r * e == s * d,
            0 < d,
            0 < e,
    ;
    assert((2 * r == d) == (2 * s == e)) by (nonlinear_arith)
        requires
            r * e == s * d,
            0 < d,
            0 < e,
    ;
}

/// The unit of a number within the 53 bits above it.
proof fn lemma_unit(steps: int, shift: nat)
    requires
        0 <= steps < LIMIT * pow2(shift),
        shift == 0 || NORMAL * pow2(shift) <= steps,
    ensures
        unit(steps) == pow2(shift),
    decreases shift,
{
    lemma2_to64();
    if shift > 0 {
        lemma_pow2_unfold(shift);
        lemma_unit(steps / 2, (shift - 1) as nat);
        assert(steps >= LIMIT) by {
            lemma_pow2_pos((shift - 1) as nat);
            assert(NORMAL * pow2(shift) >= LIMIT) by (nonlinear_arith)
                requires
                    pow2(shift) == 2 * pow2((shift - 1) as nat),
                    pow2((shift - 1) as nat) >= 1,
            ;
        }
    }
}

/// A whole number of at most 53 significant bits is what it is closest to.
pub proof fn lemma_exact(mantissa: int, shift: nat)
    requires
        0 <= mantissa < LIMIT,
    ensures
        closest(mantissa * pow2(shift), 1) == mantissa * pow2(shift),
    decreases shift,
{
    lemma2_to64();
    let steps = mantissa * pow2(shift);
    if mantissa < NORMAL && shift > 0 {
        lemma_pow2_unfold(shift);
        assert(steps == (2 * mantissa) * pow2((shift - 1) as nat)) by (nonlinear_arith)
            requires
                steps == mantissa * pow2(shift),
                pow2(shift) == 2 * pow2((shift - 1) as nat),
        ;
        lemma_exact(2 * mantissa, (shift - 1) as nat);
    } else {
        lemma_pow2_pos(shift);
        let power = pow2(shift) as int;
        assert(steps < LIMIT * power) by (nonlinear_arith)
            requires
                steps == mantissa * power,
                mantissa < LIMIT,
                power > 0,
        ;
        assert(0 <= steps) by (nonlinear_arith)
            requires
                steps == mantissa * power,
                mantissa >= 0,
                power > 0,
        ;
        if shift > 0 {
            assert(NORMAL * power <= steps) by (nonlinear_arith)
                requires
                    steps == mantissa * power,
                    mantissa >= NORMAL,
                    power > 0,
            ;
        }
        lemma_unit(steps, shift);
        assert(steps / 1 == steps);
        lemma_fundamental_div_mod_converse(steps, power, mantissa, 0);
        assert(power * mantissa == mantissa * power) by (nonlinear_arith);
    }
}

/// Dropping `shift` bits of a mantissa and rounding gives the number closest to a ratio that lies
/// between the mantissa and the next one.
proof fn lemma_settle(
    numerator: int,
    denominator: int,
    mantissa: int,
    up: nat,
    down: nat,
    shift: nat,
    kept: int,
    rest: int,
)
    requires
        0 < denominator,
        mantissa * denominator <= numerator < (mantissa + 1) * denominator,
        numerator != mantissa * denominator ==> shift >= 1,
        up == 0 || down == 0,
        shift >= down,
        mantissa == pow2(shift) * kept + rest,
        0 <= rest < pow2(shift),
        0 <= kept < LIMIT,
        up + shift > down ==> kept >= NORMAL,
    ensures
        closest(numerator * pow2(up), denominator * pow2(down)) == (kept + if shift >= 1 && (2 * rest
            > pow2(shift) || (2 * rest == pow2(shift) && (numerator != mantissa * denominator
            || kept % 2 == 1))) {
            1int
        } else {
            0int
        }) * pow2((up + shift - down) as nat),
{
    let p = pow2(shift) as int;
    let a = pow2(up) as int;
    let b = pow2(down) as int;
    let j = (up + shift - down) as nat;
    let u = pow2(j) as int;
    lemma_pow2_pos(shift);
    lemma_pow2_pos(up);
    lemma_pow2_pos(down);
    lemma_pow2_pos(j);
    let n = numerator * a;
    let d = denominator * b;
    let rho = numerator - mantissa * denominator;
    let over = denominator * rest + rho;
    assert(b * u == a * p) by {
        lemma_pow2_adds(down, j);
        lemma_pow2_adds(up, shift);
        assert(down + j == up + shift);
    }
    assert(0 < d && 0 < d * u && 0 < denominator * p) by (nonlinear_arith)
        requires
            0 < denominator,
            0 < b,
            0 < u,
            0 < p,
            d == denominator * b,
    ;
    assert(0 <= mantissa) by (nonlinear_arith)
        requires
            mantissa == p * kept + rest,
            0 <= rest,
            0 <= kept,
            0 < p,
    ;
    assert(0 <= numerator && 0 <= n) by (nonlinear_arith)
        requires
            0 <= mantissa,
            0 < denominator,
            0 < a,
            mantissa * denominator <= numerator,
            n == numerator * a,
    ;
    assert(0 <= rho < denominator) by (nonlinear_arith)
        requires
            rho == numerator - mantissa * denominator,
            mantissa * denominator <= numerator < (mantissa + 1) * denominator,
    ;
    assert(n * (denominator * p) == numerator * (d * u)) by (nonlinear_arith)
        requires
            n == numerator * a,
            d == denominator * b,
            b * u == a * p,
    ;
    lemma_same_ratio(n, d * u, numerator, denominator * p);
    assert(numerator == (denominator * p) * kept + over) by (nonlinear_arith)
        requires
            rho == numerator - mantissa * denominator,
            mantissa == p * kept + rest,
            over == denominator * rest + rho,
    ;
    assert(0 <= over < denominator * p) by (nonlinear_arith)
        requires
            over == denominator * rest + rho,
            0 <= rho < denominator,
            0 <= rest < p,
            0 < denominator,
    ;
    assert((denominator * p) * kept == kept * (denominator * p)) by (nonlinear_arith);
    lemma_fundamental_div_mod_converse(numerator, denominator * p, kept, over);
    // The unit.
    let k = n / d;
    vstd::arithmetic::div_mod::lemma_div_denominator(n, d, u);
    assert(k / u == kept);
    lemma_fundamental_div_mod(k, u);
    let low = k % u;
    assert(kept * u <= k < (kept + 1) * u) by (nonlinear_arith)
        requires
            k == u * kept + low,
            0 <= low < u,
    ;
    assert(0 <= kept * u && (kept + 1) * u <= LIMIT * u) by (nonlinear_arith)
        requires
            0 <= kept,
            kept + 1 <= LIMIT,
            0 < u,
    ;
    if j > 0 {
        assert(NORMAL * u <= kept * u) by (nonlinear_arith)
            requires
                NORMAL <= kept,
                0 < u,
        ;
    }
    lemma_unit(k, j);
    // The rounding.
    if shift >= 1 {
        let h = pow2((shift - 1) as nat) as int;
        lemma_pow2_unfold(shift);
        assert(denominator * p == 2 * (denominator * h)) by (nonlinear_arith)
            requires
                p == 2 * h,
        ;
        if rest > h {
            assert(denominator * rest >= denominator * h + denominator) by (nonlinear_arith)
                requires
                    rest >= h + 1,
                    denominator > 0,
            ;
        } else if rest < h {
            assert(denominator * rest <= denominator * h - denominator) by (nonlinear_arith)
                requires
                    rest <= h - 1,
                    denominator > 0,
            ;
        }
    } else {
        lemma2_to64();
        assert(over == 0) by (nonlinear_arith)
            requires
                over == denominator * rest + rho,
                rest == 0,
                rho == 0,
        ;
    }
    let result = nearest_even(n, d * u);
    assert(u * result == result * u) by (nonlinear_arith);
}

/// The number closest to `(mantissa + fraction) * 2^up / 2^down`, where `fraction` is less than one
/// and is there exactly if the mantissa is not the whole ratio.
fn settle(
    mantissa: u128,
    inexact: bool,
    up: u32,
    down: u32,
    Ghost(numerator): Ghost<int>,
    Ghost(denominator): Ghost<int>,
) -> (number: Double)
    requires
        0 < denominator,
        mantissa * denominator <= numerator < (mantissa + 1) * denominator,
        inexact <==> numerator != mantissa * denominator,
        inexact ==> mantissa >= 2 * LIMIT,
        mantissa < 0x0100_0000_0000_0000_0000_0000_0000_0000,
        up == 0 || down == 0,
        up <= 0x7fff_ffff,
    ensures
        number.well_formed(),
        number.value() == closest(
            numerator * pow2(up as nat),
            denominator * pow2(down as nat),
        ),
        number.exponent <= up + 128,
{
    proof {
        lemma2_to64();
    }
    if down > 126 {
        proof {
            lemma_underflow(numerator, denominator, mantissa as int, down as nat);
        }
        return Double { mantissa: 0, exponent: 0 };
    }
    if down == 0 && mantissa < NORMAL as u128 {
        let mut grown: u64 = mantissa as u64;
        let mut left: u32 = up;
        while grown < NORMAL && left > 0
            invariant
                grown < LIMIT,
                grown * pow2(left as nat) == mantissa * pow2(up as nat),
                left <= up,
            decreases left,
        {
            proof {
                lemma_pow2_unfold(left as nat);
                assert((2 * grown) * pow2((left - 1) as nat) == grown * pow2(left as nat))
                    by (nonlinear_arith)
                    requires
                        pow2(left as nat) == 2 * pow2((left - 1) as nat),
                ;
            }
            grown = grown * 2;
            left = left - 1;
        }
        proof {
            let power = pow2(up as nat) as int;
            lemma_pow2_pos(up as nat);
            lemma_exact(mantissa as int, up as nat);
            let n = numerator * power;
            assert(0 <= mantissa * power && 0 <= n && n * 1 == (mantissa * power) * denominator)
                by (nonlinear_arith)
                requires
                    numerator == mantissa * denominator,
                    n == numerator * power,
                    mantissa >= 0,
                    power > 0,
                    denominator > 0,
            ;
            assert(denominator * pow2(0) == denominator);
            lemma_same_closest(n, denominator, mantissa * power, 1);
        }
        return Double { mantissa: grown, exponent: left };
    }
    let mut power: u128 = 1;
    let mut shift: u32 = 0;
    if down == 0 && mantissa >= 0x0100_0000_0000_0000_0000_0000_0000 {
        power = 0x10_0000_0000_0000;
        shift = 52;
        proof {
            lemma2_to64_rest();
        }
        assert(mantissa / 0x10_0000_0000_0000 >= 0x10_0000_0000_0000);
    }
    while shift < down || mantissa / power >= LIMIT as u128
        invariant
            power == pow2(shift as nat),
            power >= 1,
            shift <= 126,
            down <= 126,
            shift < 126 ==> power <= 0x2000_0000_0000_0000_0000_0000_0000_0000,
            mantissa < 0x0100_0000_0000_0000_0000_0000_0000_0000,
            shift > down ==> mantissa / power >= NORMAL as u128,
        decreases 127 - shift,
    {
        proof {
            lemma_pow2_unfold((shift + 1) as nat);
            lemma_power_bound(shift as nat, mantissa as int, power as int);
        }
        power = power * 2;
        shift = shift + 1;
    }
    let kept: u64 = (mantissa / power) as u64;
    let rest: u128 = mantissa % power;
    let half: u128 = power / 2;
    let raise: bool = shift >= 1 && (rest > half || (rest == half && (inexact || kept % 2 == 1)));
    let exponent: u32 = up + shift - down;
    let raised: u64 = if raise {
        kept + 1
    } else {
        kept
    };
    proof {
        lemma_fundamental_div_mod(mantissa as int, power as int);
        if shift >= 1 {
            lemma_pow2_unfold(shift as nat);
        }
        lemma_settle(
            numerator,
            denominator,
            mantissa as int,
            up as nat,
            down as nat,
            shift as nat,
            kept as int,
            rest as int,
        );
    }
    if raised == LIMIT {
        proof {
            lemma_pow2_unfold((exponent + 1) as nat);
            assert(LIMIT * pow2(exponent as nat) == NORMAL * pow2((exponent + 1) as nat))
                by (nonlinear_arith)
                requires
                    pow2((exponent + 1) as nat) == 2 * pow2(exponent as nat),
            ;
        }
        Double { mantissa: NORMAL, exponent: exponent + 1 }
    } else {
        Double { mantissa: raised, exponent }
    }
}

/// Equal ratios have the same closest number.
pub(crate) proof fn lemma_same_closest(n: int, d: int, m: int, e: int)
    requires
        0 <= n,
        0 <= m,
        0 < d,
        0 < e,
        n * e == m * d,
    ensures
        closest(n, d) == closest(m, e),
{
    lemma_same_ratio(n, d, m, e);
    let step = unit(n / d);
    lemma_unit_positive(n / d);
    assert(n * (e * step) == m * (d * step)) by (nonlinear_arith)
        requires
            n * e == m * d,
    ;
    assert(0 < e * step && 0 < d * step) by (nonlinear_arith)
        requires
            0 < e,
            0 < d,
            0 < step,
    ;
    lemma_same_ratio(n, d * step, m, e * step);
}

pub(crate) proof fn lemma_unit_positive(steps: int)
    ensures
        unit(steps) >= 1,
    decreases steps,
{
    if steps >= LIMIT {
        lemma_unit_positive(steps / 2);
    }
}

proof fn lemma_power_bound(shift: nat, mantissa: int, power: int)
    requires
        shift <= 126,
        power == pow2(shift),
        power >= 1,
        0 <= mantissa < 0x0100_0000_0000_0000_0000_0000_0000_0000,
    ensures
        shift < 126 ==> power <= 0x2000_0000_0000_0000_0000_0000_0000_0000,
        shift < 125 ==> 2 * power <= 0x2000_0000_0000_0000_0000_0000_0000_0000,
        mantissa / power >= LIMIT ==> shift < 125 && mantissa / (2 * power) >= NORMAL,
{
    lemma_large_powers();
    if shift < 125 {
        lemma_pow2_strictly_increases(shift, 125);
        lemma_pow2_unfold((shift + 1) as nat);
        if shift < 124 {
            lemma_pow2_strictly_increases((shift + 1) as nat, 125);
        }
    } else if shift > 125 {
        lemma_pow2_strictly_increases(125, shift);
    }
    let most = mantissa / power;
    lemma_fundamental_div_mod(mantissa, power);
    if most >= LIMIT {
        assert(power * most <= mantissa);
        assert(power * LIMIT <= power * most) by (nonlinear_arith)
            requires
                most >= LIMIT,
                power >= 1,
        ;
        let twice = mantissa / (2 * power);
        lemma_fundamental_div_mod(mantissa, 2 * power);
        assert(twice >= NORMAL) by (nonlinear_arith)
            requires
                mantissa >= power * LIMIT,
                mantissa < (2 * power) * twice + 2 * power,
                power >= 1,
                LIMIT == 2 * NORMAL,
        ;
    }
}

proof fn lemma_large_powers()
    ensures
        pow2(125) == 0x2000_0000_0000_0000_0000_0000_0000_0000,
        pow2(127) == 0x8000_0000_0000_0000_0000_0000_0000_0000,
{
    lemma2_to64();
    lemma2_to64_rest();
    lemma_pow2_adds(64, 61);
    lemma_pow2_adds(64, 63);
}

proof fn lemma_underflow(numerator: int, denominator: int, mantissa: int, down: nat)
    requires
        0 < denominator,
        0 <= mantissa,
        mantissa * denominator <= numerator < (mantissa + 1) * denominator,
        mantissa < 0x0100_0000_0000_0000_0000_0000_0000_0000,
        down > 126,
    ensures
        closest(numerator * pow2(0), denominator * pow2(down)) == 0,
{
    lemma2_to64();
    lemma_large_powers();
    if down > 127 {
        lemma_pow2_strictly_increases(127, down);
    }
    let power = pow2(down) as int;
    let d = denominator * power;
    let bound = 0x0100_0000_0000_0000_0000_0000_0000_0000int;
    assert(0 <= numerator < bound * denominator) by (nonlinear_arith)
        requires
            0 <= mantissa,
            mantissa + 1 <= bound,
            0 < denominator,
            mantissa * denominator <= numerator < (mantissa + 1) * denominator,
    ;
    assert(d >= (128 * bound) * denominator) by (nonlinear_arith)
        requires
            d == denominator * power,
            power >= 128 * bound,
            denominator > 0,
    ;
    assert((128 * bound) * denominator == 128 * (bound * denominator)) by (nonlinear_arith);
    assert(bound * denominator > 0) by (nonlinear_arith)
        requires
            bound > 0,
            denominator > 0,
    ;
    assert(2 * numerator < d);
    assert(numerator * pow2(0) == numerator);
    lemma_fundamental_div_mod_converse(numerator, d, 0, numerator);
    assert(numerator / d == 0 && numerator % d == numerator);
    assert(nearest_even(numerator, d) == 0);
    let step = unit(numerator / d);
    assert(step == 1);
    assert(d * step == d);
    assert(closest(numerator, d) == 0);
}

fn power_of_two(exponent: u32) -> (power: u64)
    requires
        exponent <= 63,
    ensures
        power == pow2(exponent as nat),
        power >= 1,
{
    proof {
        lemma2_to64();
        lemma2_to64_rest();
        vstd::bits::lemma_u64_pow2_no_overflow(exponent as nat);
        vstd::bits::lemma_u64_shl_is_mul(1, exponent as u64);
        assert(1u64 << (exponent as u64) == 1u64 << exponent) by (bit_vector);
    }
    1u64 << exponent
}

/// Scaling by powers of two on both sides of a ratio.
proof fn lemma_shifted(n: int, up: nat, down: nat, m: int, d: int, lift: nat, drop: nat)
    requires
        0 <= n,
        0 <= m,
        0 < d,
        n == m,
        up + drop == lift + down,
    ensures
        closest(n * pow2(up), d * pow2(down)) == closest(m * pow2(lift), d * pow2(drop)),
{
    lemma_pow2_pos(up);
    lemma_pow2_pos(down);
    lemma_pow2_pos(lift);
    lemma_pow2_pos(drop);
    lemma_pow2_adds(up, drop);
    lemma_pow2_adds(lift, down);
    let (a, b, c, e) = (
        pow2(up) as int,
        pow2(down) as int,
        pow2(lift) as int,
        pow2(drop) as int,
    );
    assert((n * a) * (d * e) == (m * c) * (d * b)) by (nonlinear_arith)
        requires
            n == m,
            a * e == c * b,
    ;
    assert(0 <= n * a && 0 <= m * c && 0 < d * b && 0 < d * e) by (nonlinear_arith)
        requires
            0 <= n,
            n == m,
            0 < d,
            0 < a,
            0 < b,
            0 < c,
            0 < e,
    ;
    lemma_same_closest(n * a, d * b, m * c, d * e);
}

proof fn lemma_regroup(s: int, e: int, f: int, a: int, c: int, d: int, b: int)
    ensures
        (((s * e) * f) * (a * c)) * (d * b) == ((s * a) * c) * (d * (b * f * e)),
{
    let first = (s * e) * f;
    let second = a * c;
    let third = d * b;
    assert((s * a) * c == s * second) by (nonlinear_arith)
        requires
            second == a * c,
    ;
    assert(d * (b * f * e) == third * (e * f)) by (nonlinear_arith)
        requires
            third == d * b,
    ;
    let g = e * f;
    assert(first == s * g) by (nonlinear_arith)
        requires
            first == (s * e) * f,
            g == e * f,
    ;
    assert(((s * g) * second) * third == (s * second) * (third * g)) by (nonlinear_arith);
}

impl Double {
    /// The number closest to an integer.
    pub fn of(value: u64) -> (number: Double)
        ensures
            number.well_formed(),
            number.value() == whole(value as int),
            number.exponent <= 1202,
    {
        proof {
            lemma2_to64();
            assert(1 * pow2(0) == 1);
        }
        settle(value as u128, false, SCALE, 0, Ghost(value as int), Ghost(1))
    }

    /// The number whose double-precision bits are given, if it is finite and not negative.
    pub fn from_bits(bits: u64) -> (number: Option<Double>)
        ensures
            number is Some <==> bits < 0x7ff0_0000_0000_0000,
            number matches Some(number) ==> number.well_formed() && number.exponent <= 2046
                && number.value() == steps_of(bits),
    {
        if bits >= 0x7ff0_0000_0000_0000 {
            None
        } else {
            Some(Double::decode(bits))
        }
    }

    /// The number whose double-precision bits are given.
    pub(crate) fn decode(bits: u64) -> (number: Double)
        requires
            bits < 0x7ff0_0000_0000_0000,
        ensures
            number.well_formed(),
            number.exponent <= 2046,
            number.value() == steps_of(bits),
    {
        let exponent: u64 = bits / NORMAL;
        let fraction: u64 = bits % NORMAL;
        if exponent == 0 {
            Double { mantissa: fraction, exponent: 0 }
        } else {
            Double { mantissa: NORMAL + fraction, exponent: (exponent - 1) as u32 }
        }
    }

    /// The double-precision bits of a number.
    pub fn to_bits(self) -> (bits: u64)
        requires
            self.well_formed(),
            self.exponent <= 2045,
        ensures
            bits < 0x7ff0_0000_0000_0000,
            steps_of(bits) == self.value(),
    {
        if self.mantissa < NORMAL {
            self.mantissa
        } else {
            let bits: u64 = (self.exponent as u64 + 1) * NORMAL + (self.mantissa - NORMAL);
            proof {
                lemma_fundamental_div_mod_converse(
                    bits as int,
                    NORMAL as int,
                    self.exponent + 1,
                    self.mantissa - NORMAL,
                );
            }
            bits
        }
    }

    pub fn times(self, other: Double) -> (number: Double)
        requires
            self.well_formed(),
            other.well_formed(),
            self.exponent <= REACH,
            other.exponent <= REACH,
        ensures
            number.well_formed(),
            number.value() == product(self.value(), other.value()),
            number.exponent <= self.exponent + other.exponent + 128,
            self.exponent + other.exponent >= 1074 ==> number.exponent <= self.exponent
                + other.exponent - 946,
            self.exponent + other.exponent < 1074 ==> number.exponent <= 128,
    {
        let exponent: u32 = self.exponent + other.exponent;
        proof {
            assert(self.mantissa * other.mantissa < 0x0100_0000_0000_0000_0000_0000_0000_0000)
                by (nonlinear_arith)
                requires
                    self.mantissa < LIMIT,
                    other.mantissa < LIMIT,
            ;
        }
        let mantissa: u128 = self.mantissa as u128 * other.mantissa as u128;
        let (up, down): (u32, u32) = if exponent >= SCALE {
            (exponent - SCALE, 0)
        } else {
            (0, SCALE - exponent)
        };
        proof {
            lemma_pow2_adds(self.exponent as nat, other.exponent as nat);
            let (a, b) = (pow2(self.exponent as nat) as int, pow2(other.exponent as nat) as int);
            let (m, n) = (self.mantissa as int, other.mantissa as int);
            assert((m * a) * (n * b) == (m * n) * (a * b)) by (nonlinear_arith);
            lemma_shifted(
                mantissa as int,
                up as nat,
                down as nat,
                mantissa as int,
                1,
                exponent as nat,
                SCALE as nat,
            );
        }
        settle(mantissa, false, up, down, Ghost(mantissa as int), Ghost(1))
    }

    pub fn over(self, other: Double) -> (number: Double)
        requires
            self.well_formed(),
            other.well_formed(),
            other.mantissa > 0,
            self.exponent <= REACH,
            other.exponent <= REACH,
        ensures
            number.well_formed(),
            number.value() == quotient(self.value(), other.value()),
            number.exponent <= self.exponent + 1202,
            self.exponent + 1010 >= other.exponent ==> number.exponent <= self.exponent + 1138
                - other.exponent,
            self.exponent + 1010 < other.exponent ==> number.exponent <= 128,
    {
        let ghost x = self.value();
        let ghost y = other.value();
        proof {
            lemma_pow2_pos(self.exponent as nat);
            lemma_pow2_pos(other.exponent as nat);
            lemma_pow2_pos(SCALE as nat);
            assert(y > 0) by (nonlinear_arith)
                requires
                    y == other.mantissa * pow2(other.exponent as nat),
                    other.mantissa > 0,
                    pow2(other.exponent as nat) > 0,
            ;
        }
        if self.mantissa == 0 {
            proof {
                lemma_fundamental_div_mod_converse(0, y, 0, 0);
                assert(x * one() == 0) by (nonlinear_arith)
                    requires
                        x == 0 * pow2(self.exponent as nat),
                ;
                assert(y * 1 == y);
                assert(0 * pow2(0) == 0);
            }
            return Double { mantissa: 0, exponent: 0 };
        }
        let mut grown: u64 = self.mantissa;
        let mut extra: u32 = 0;
        proof {
            lemma2_to64();
            lemma2_to64_rest();
        }
        while grown < NORMAL
            invariant
                0 < grown < LIMIT,
                grown == self.mantissa * pow2(extra as nat),
                extra <= 52,
                grown >= pow2(extra as nat),
                self.mantissa > 0,
                pow2(52) == NORMAL,
            decreases LIMIT - grown,
        {
            proof {
                lemma_pow2_unfold((extra + 1) as nat);
                assert(2 * grown == self.mantissa * pow2((extra + 1) as nat)) by (nonlinear_arith)
                    requires
                        grown == self.mantissa * pow2(extra as nat),
                        pow2((extra + 1) as nat) == 2 * pow2(extra as nat),
                ;
                if extra == 52 {
                    assert(false);
                }
            }
            grown = grown * 2;
            extra = extra + 1;
        }
        let numerator: u128 = grown as u128 * 0x1_0000_0000_0000_0000;
        let denominator: u128 = other.mantissa as u128;
        let mantissa: u128 = numerator / denominator;
        let inexact: bool = numerator % denominator != 0;
        let top: u32 = self.exponent + SCALE;
        let bottom: u32 = other.exponent + 64 + extra;
        let (up, down): (u32, u32) = if top >= bottom {
            (top - bottom, 0)
        } else {
            (0, bottom - top)
        };
        proof {
            let (n, d, m) = (numerator as int, denominator as int, mantissa as int);
            lemma_fundamental_div_mod(n, d);
            assert(m * d <= n < (m + 1) * d) by (nonlinear_arith)
                requires
                    n == d * m + n % d,
                    0 <= n % d < d,
            ;
            assert(m >= 0x40_0000_0000_0000) by (nonlinear_arith)
                requires
                    n < (m + 1) * d,
                    n >= 0x10_0000_0000_0000 * 0x1_0000_0000_0000_0000,
                    0 < d < 0x20_0000_0000_0000,
            ;
            assert(m <= n) by (nonlinear_arith)
                requires
                    m * d <= n,
                    d >= 1,
                    m >= 0,
            ;
            // The ratio of the values.
            lemma_shifted(n, up as nat, down as nat, n, d, top as nat, bottom as nat);
            let (a, b, c, e) = (
                pow2(self.exponent as nat) as int,
                pow2(other.exponent as nat) as int,
                one(),
                pow2(extra as nat) as int,
            );
            let f = 0x1_0000_0000_0000_0000int;
            lemma2_to64();
            lemma2_to64_rest();
            lemma_pow2_adds(self.exponent as nat, SCALE as nat);
            lemma_pow2_adds(other.exponent as nat, 64);
            lemma_pow2_adds((other.exponent + 64) as nat, extra as nat);
            lemma_pow2_pos(extra as nat);
            let sm = self.mantissa as int;
            lemma_regroup(sm, e, f, a, c, d, b);
            assert(0 <= n * (a * c) && 0 <= x * c && 0 < d * (b * f * e)) by (nonlinear_arith)
                requires
                    n >= 0,
                    a > 0,
                    c > 0,
                    b > 0,
                    e > 0,
                    f > 0,
                    d > 0,
                    sm >= 0,
                    x == sm * a,
            ;
            lemma_same_closest(n * (a * c), d * (b * f * e), x * c, y);
        }
        settle(mantissa, inexact, up, down, Ghost(numerator as int), Ghost(denominator as int))
    }
}

/// Numbers are ordered by their exponents first.
proof fn lemma_order(left: Double, right: Double)
    requires
        left.well_formed(),
        right.well_formed(),
    ensures
        left.exponent > right.exponent ==> left.value() > right.value(),
        left.exponent == right.exponent ==> (left.value() >= right.value() <==> left.mantissa
            >= right.mantissa),
        left.value() >= 0,
{
    let (m, n) = (left.mantissa as int, right.mantissa as int);
    let p = pow2(right.exponent as nat) as int;
    lemma_pow2_pos(left.exponent as nat);
    lemma_pow2_pos(right.exponent as nat);
    let q = pow2(left.exponent as nat) as int;
    assert(m * q >= 0) by (nonlinear_arith)
        requires
            m >= 0,
            q > 0,
    ;
    if left.exponent > right.exponent {
        let gap = (left.exponent - right.exponent) as nat;
        lemma_pow2_adds(right.exponent as nat, gap);
        let g = pow2(gap) as int;
        lemma_pow2_unfold(gap);
        lemma_pow2_pos((gap - 1) as nat);
        assert(m * (p * g) > n * p) by (nonlinear_arith)
            requires
                m >= NORMAL,
                n < 2 * NORMAL,
                g >= 2,
                p > 0,
        ;
    }
    if left.exponent == right.exponent {
        assert((m * p >= n * p) == (m >= n)) by (nonlinear_arith)
            requires
                p > 0,
        ;
    }
}

/// A number and a multiple of it by a power of two, over the same power.
proof fn lemma_aligned(total: int, base: nat, drop: nat, n: int, d: int)
    requires
        0 <= n,
        d == pow2(drop),
        total * pow2(drop) == n * pow2(base),
    ensures
        closest(total, 1) == closest(n * pow2(base), d * pow2(0)),
{
    lemma2_to64();
    lemma_pow2_pos(drop);
    lemma_pow2_pos(base);
    let (p, q) = (pow2(drop) as int, pow2(base) as int);
    assert(d * pow2(0) == p);
    assert(0 <= n * q && 0 <= total) by (nonlinear_arith)
        requires
            0 <= n,
            0 < q,
            0 < p,
            total * p == n * q,
    ;
    assert(total * p == (n * q) * 1);
    lemma_same_closest(total, 1, n * q, p);
}

impl Double {
    /// Whether a number is at least another.
    pub fn at_least(self, other: Double) -> (result: bool)
        requires
            self.well_formed(),
            other.well_formed(),
        ensures
            result == (self.value() >= other.value()),
    {
        proof {
            lemma_order(self, other);
            lemma_order(other, self);
        }
        if self.exponent == other.exponent {
            self.mantissa >= other.mantissa
        } else {
            self.exponent > other.exponent
        }
    }

    pub fn plus(self, other: Double) -> (number: Double)
        requires
            self.well_formed(),
            other.well_formed(),
            self.exponent <= REACH,
            other.exponent <= REACH,
        ensures
            number.well_formed(),
            number.value() == sum(self.value(), other.value()),
            number.exponent <= self.exponent + other.exponent + 128,
            number.exponent <= self.exponent + 128 || number.exponent <= other.exponent + 128,
    {
        let (high, low) = if self.exponent >= other.exponent {
            (self, other)
        } else {
            (other, self)
        };
        proof {
            assert(self.value() + other.value() == high.value() + low.value());
            lemma_order(high, low);
            lemma_order(low, high);
        }
        high.combine(low, true)
    }

    /// How far two numbers are apart.
    pub fn apart(self, other: Double) -> (number: Double)
        requires
            self.well_formed(),
            other.well_formed(),
            self.exponent <= REACH,
            other.exponent <= REACH,
        ensures
            number.well_formed(),
            number.value() == distance(self.value(), other.value()),
            number.exponent <= self.exponent + 128 || number.exponent <= other.exponent + 128,
    {
        proof {
            lemma_order(self, other);
            lemma_order(other, self);
        }
        if self.at_least(other) {
            self.combine(other, false)
        } else {
            other.combine(self, false)
        }
    }

    /// The sum with a number of no greater exponent, or the difference to one that is not greater.
    #[verifier::rlimit(40)]
    fn combine(self, low: Double, plus: bool) -> (number: Double)
        requires
            self.well_formed(),
            low.well_formed(),
            low.exponent <= self.exponent <= REACH,
            !plus ==> low.value() <= self.value(),
        ensures
            number.well_formed(),
            number.value() == (if plus {
                sum(self.value(), low.value())
            } else {
                closest(self.value() - low.value(), 1)
            }),
            number.exponent <= self.exponent + 128,
    {
        let gap: u32 = self.exponent - low.exponent;
        let ghost total = if plus {
            self.value() + low.value()
        } else {
            self.value() - low.value()
        };
        let ghost (m, n) = (self.mantissa as int, low.mantissa as int);
        let ghost base = pow2(low.exponent as nat) as int;
        proof {
            lemma2_to64();
            lemma2_to64_rest();
            lemma_pow2_pos(low.exponent as nat);
            lemma_pow2_adds(low.exponent as nat, gap as nat);
        }
        if gap <= 63 {
            let power: u64 = power_of_two(gap);
            proof {
                let g = power as int;
                assert(m * (base * g) == (m * g) * base) by (nonlinear_arith);
                assert(m * g < 0x20_0000_0000_0000_0000_0000_0000_0000) by (nonlinear_arith)
                    requires
                        0 <= m < 0x20_0000_0000_0000,
                        0 <= g <= 0xffff_ffff_ffff_ffff,
                ;
                if plus {
                    assert((m * g) * base + n * base == (m * g + n) * base) by (nonlinear_arith);
                } else {
                    assert((m * g) * base - n * base == (m * g - n) * base) by (nonlinear_arith);
                    assert(m * g >= n) by (nonlinear_arith)
                        requires
                            n * base <= (m * g) * base,
                            base > 0,
                    ;
                }
            }
            let shifted: u128 = self.mantissa as u128 * power as u128;
            let mantissa: u128 = if plus {
                shifted + low.mantissa as u128
            } else {
                shifted - low.mantissa as u128
            };
            proof {
                lemma_aligned(total, low.exponent as nat, 0, mantissa as int, 1);
            }
            return settle(
                mantissa,
                false,
                low.exponent,
                0,
                Ghost(mantissa as int),
                Ghost(1),
            );
        }
        let drop: u32 = gap - 64;
        let (part, inexact): (u64, bool) = if drop > 63 {
            (0, low.mantissa != 0)
        } else {
            let divisor: u64 = power_of_two(drop);
            (low.mantissa / divisor, low.mantissa % divisor != 0)
        };
        let ghost d = pow2(drop as nat) as int;
        let shifted: u128 = self.mantissa as u128 * 0x1_0000_0000_0000_0000;
        let ghost big = m * 0x1_0000_0000_0000_0000int;
        proof {
            lemma_pow2_pos(drop as nat);
            if drop > 63 {
                if drop > 64 {
                    lemma_pow2_strictly_increases(64, drop as nat);
                }
                assert(n < d);
                lemma_fundamental_div_mod_converse(n, d, 0, n);
            }
            lemma_fundamental_div_mod(n, d);
            assert(part == n / d);
            assert(inexact == (n % d != 0));
            assert(part <= n) by (nonlinear_arith)
                requires
                    n == d * part + n % d,
                    0 <= n % d,
                    d >= 1,
                    part >= 0,
            ;
        }
        let mantissa: u128 = if plus {
            shifted + part as u128
        } else if inexact {
            shifted - part as u128 - 1
        } else {
            shifted - part as u128
        };
        let base_exponent: u32 = self.exponent - 64;
        let ghost numerator = if plus {
            big * d + n
        } else {
            big * d - n
        };
        proof {
            let r = n % d;
            let q = part as int;
            assert(mantissa * d <= numerator < (mantissa + 1) * d && (inexact <==> numerator
                != mantissa * d)) by {
                if plus {
                    assert((big + q) * d == big * d + d * q) by (nonlinear_arith);
                    assert((big + q + 1) * d == big * d + d * q + d) by (nonlinear_arith);
                } else if inexact {
                    assert((big - q - 1) * d == big * d - d * q - d) by (nonlinear_arith);
                    assert((big - q) * d == big * d - d * q) by (nonlinear_arith);
                } else {
                    assert((big - q) * d == big * d - d * q) by (nonlinear_arith);
                    assert((big - q + 1) * d == big * d - d * q + d) by (nonlinear_arith);
                }
            }
            // The total over the dropped power.
            lemma_pow2_adds(low.exponent as nat, drop as nat);
            lemma_pow2_adds((low.exponent + drop) as nat, 64);
            assert(low.exponent + drop == base_exponent);
            let up = pow2(base_exponent as nat) as int;
            let f = 0x1_0000_0000_0000_0000int;
            assert(pow2(self.exponent as nat) == up * f);
            assert(up == base * d);
            assert((m * (up * f)) * d == (big * d) * up) by (nonlinear_arith)
                requires
                    big == m * f,
            ;
            assert((n * base) * d == n * up) by (nonlinear_arith)
                requires
                    up == base * d,
            ;
            assert(total * d == numerator * up) by (nonlinear_arith)
                requires
                    total == m * (up * f) + n * base && numerator == big * d + n || total == m * (up
                        * f) - n * base && numerator == big * d - n,
                    (m * (up * f)) * d == (big * d) * up,
                    (n * base) * d == n * up,
            ;
            assert(0 <= numerator) by (nonlinear_arith)
                requires
                    mantissa * d <= numerator,
                    d > 0,
                    mantissa >= 0,
            ;
            lemma_aligned(total, base_exponent as nat, drop as nat, numerator, d);
        }
        settle(mantissa, inexact, base_exponent, 0, Ghost(numerator), Ghost(d))
    }

    /// The integer closest to a number, halves rounding up, or the greatest one there is.
    pub fn rounded(self) -> (value: u64)
        requires
            self.well_formed(),
        ensures
            value == (if round(self.value()) <= u64::MAX {
                round(self.value())
            } else {
                u64::MAX as int
            }),
    {
        let ghost m = self.mantissa as int;
        let ghost p = pow2(self.exponent as nat) as int;
        let ghost o = one();
        proof {
            lemma2_to64();
            lemma2_to64_rest();
            lemma_pow2_pos(self.exponent as nat);
            lemma_pow2_pos(SCALE as nat);
        }
        if self.exponent >= SCALE {
            let lift: u32 = self.exponent - SCALE;
            proof {
                lemma_pow2_adds(SCALE as nat, lift as nat);
                let l = pow2(lift as nat) as int;
                lemma_pow2_pos(lift as nat);
                assert(2 * (m * (o * l)) + o == (m * l) * (2 * o) + o) by (nonlinear_arith);
                lemma_fundamental_div_mod_converse(2 * (m * p) + o, 2 * o, m * l, o);
                assert(round(self.value()) == m * l);
                if lift > 11 {
                    if lift > 12 {
                        lemma_pow2_strictly_increases(12, lift as nat);
                    }
                    assert(m * l >= 0x10_0000_0000_0000 * 0x1000) by (nonlinear_arith)
                        requires
                            m >= 0x10_0000_0000_0000,
                            l >= 0x1000,
                    ;
                } else {
                    if lift < 11 {
                        lemma_pow2_strictly_increases(lift as nat, 11);
                    }
                    assert(0 <= m * l <= u64::MAX) by (nonlinear_arith)
                        requires
                            0 <= m < 0x20_0000_0000_0000,
                            0 <= l <= 0x800,
                    ;
                }
            }
            if lift > 11 {
                u64::MAX
            } else {
                self.mantissa * power_of_two(lift)
            }
        } else {
            let drop: u32 = SCALE - self.exponent;
            if drop > 54 {
                proof {
                    lemma_pow2_adds(self.exponent as nat, drop as nat);
                    let d = pow2(drop as nat) as int;
                    lemma_pow2_strictly_increases(54, drop as nat);
                    assert(2 * (m * p) < p * d) by (nonlinear_arith)
                        requires
                            2 * m < d,
                            p > 0,
                    ;
                    assert(0 <= m * p) by (nonlinear_arith)
                        requires
                            0 <= m,
                            p > 0,
                    ;
                    lemma_fundamental_div_mod_converse(
                        2 * (m * p) + o,
                        2 * o,
                        0,
                        2 * (m * p) + o,
                    );
                }
                0
            } else {
                let power: u64 = power_of_two(drop);
                proof {
                    lemma_pow2_adds(self.exponent as nat, drop as nat);
                    lemma_pow2_unfold(drop as nat);
                    if drop < 54 {
                        lemma_pow2_strictly_increases(drop as nat, 54);
                    }
                    let d = power as int;
                    let h = d / 2;
                    let q = (m + h) / d;
                    let r = (m + h) % d;
                    lemma_fundamental_div_mod(m + h, d);
                    assert(2 * (m * p) + p * d == q * (2 * (p * d)) + 2 * (p * r))
                        by (nonlinear_arith)
                        requires
                            m + h == d * q + r,
                            d == 2 * h,
                    ;
                    assert(0 <= 2 * (p * r) < 2 * (p * d)) by (nonlinear_arith)
                        requires
                            0 <= r < d,
                            p > 0,
                    ;
                    lemma_fundamental_div_mod_converse(2 * (m * p) + o, 2 * o, q, 2 * (p * r));
                }
                (self.mantissa + power / 2) / power
            }
        }
    }
}

/// The least bits that stand for no finite number that is not negative.
pub const INFINITE_BITS: u64 = 0x7ff0_0000_0000_0000;

/// The bits of a number.
pub open spec fn bits_of(steps: int) -> u64 {
    choose|bits: u64| bits < INFINITE_BITS && steps_of(bits) == steps
}

/// Different bits stand for different numbers.
pub proof fn lemma_bits_of(bits: u64)
    requires
        bits < INFINITE_BITS,
    ensures
        bits_of(steps_of(bits)) == bits,
{
    let other = bits_of(steps_of(bits));
    assert(other < INFINITE_BITS && steps_of(other) == steps_of(bits));
    if other < bits {
        lemma_bits_strict(other, bits);
    } else if other > bits {
        lemma_bits_strict(bits, other);
    }
}

/// Numbers are strictly ordered as their bits are.
pub proof fn lemma_bits_strict(bits: u64, more: u64)
    requires
        bits < more < INFINITE_BITS,
    ensures
        0 <= steps_of(bits) < steps_of(more),
{
    let (low, high) = (decoded(bits), decoded(more));
    assert(low.value() == steps_of(bits) && high.value() == steps_of(more));
    lemma_order(high, low);
    lemma_order(low, high);
}

/// A number that is no greater than a finite one has a small exponent.
pub proof fn lemma_finite(number: Double, bits: u64)
    requires
        number.well_formed(),
        bits < INFINITE_BITS,
        number.value() <= steps_of(bits),
    ensures
        number.exponent <= 2045,
{
    let other = decoded(bits);
    assert(other.value() == steps_of(bits));
    lemma_order(number, other);
}

/// The bits of one.
pub const ONE_BITS: u64 = 0x3ff0_0000_0000_0000;

spec fn decoded(bits: u64) -> Double {
    let exponent = bits / NORMAL;
    let fraction = (bits % NORMAL) as u64;
    if exponent == 0 {
        Double { mantissa: fraction, exponent: 0 }
    } else {
        Double { mantissa: (NORMAL + fraction) as u64, exponent: (exponent - 1) as u32 }
    }
}

/// Numbers are ordered as their bits are.
pub proof fn lemma_bits_order(bits: u64, more: u64)
    requires
        bits <= more < 0x7ff0_0000_0000_0000,
    ensures
        0 <= steps_of(bits) <= steps_of(more),
{
    let (low, high) = (decoded(bits), decoded(more));
    assert(low.value() == steps_of(bits) && high.value() == steps_of(more));
    lemma_order(high, low);
    lemma_order(low, high);
}

/// The value of the bits of one.
pub proof fn lemma_one_bits()
    ensures
        steps_of(ONE_BITS) == one(),
{
    lemma2_to64();
    lemma2_to64_rest();
    lemma_pow2_adds(52, 1022);
    assert(ONE_BITS / NORMAL == 1023 && ONE_BITS % NORMAL == 0);
}

/// The steps of the number whose double-precision bits are given.
pub open spec fn steps_of(bits: u64) -> int {
    let exponent = bits / NORMAL;
    let fraction = bits % NORMAL;
    if exponent == 0 {
        fraction * pow2(0)
    } else {
        (NORMAL + fraction) * pow2((exponent - 1) as nat)
    }
}

} // verus!
