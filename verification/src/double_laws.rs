//! What rounding to double precision keeps.

use vstd::prelude::*;
use vstd::arithmetic::div_mod::{lemma_fundamental_div_mod, lemma_fundamental_div_mod_converse};
use vstd::arithmetic::power2::{
    lemma2_to64, lemma2_to64_rest, lemma_pow2_adds, lemma_pow2_pos, lemma_pow2_unfold, pow2,
};

use crate::double;
use crate::double::{Double, LIMIT, NORMAL, SCALE};

verus! {

/// Whether some steps are a number of double precision.
pub open spec fn is_number(steps: int) -> bool {
    steps >= 0 && double::closest(steps, 1) == steps
}

/// A bound on the error of rounding numbers up to `2` to the power of 17: a `2` to the power of 35th
/// part of one.
pub open spec fn slack() -> int {
    pow2(1039) as int
}

/// One is more than the slack by far.
pub proof fn lemma_slack()
    ensures
        double::one() == 0x8_0000_0000 * slack(),
        slack() > 0x10_0000_0000_0000,
{
    lemma2_to64();
    lemma2_to64_rest();
    lemma_pow2_adds(1039, 35);
    lemma_pow2_adds(53, 986);
    lemma_pow2_pos(986);
    assert(slack() == 0x20_0000_0000_0000 * pow2(986));
    assert(0x20_0000_0000_0000 * pow2(986) >= 0x20_0000_0000_0000) by (nonlinear_arith)
        requires
            pow2(986) >= 1,
    ;
    assert(pow2(1039) * pow2(35) == 0x8_0000_0000 * pow2(1039)) by (nonlinear_arith)
        requires
            pow2(35) == 0x8_0000_0000,
    ;
}

proof fn lemma_unit_facts(steps: int) -> (shift: nat)
    requires
        steps >= 0,
    ensures
        double::unit(steps) == pow2(shift),
        double::unit(steps) >= 1,
        steps < LIMIT * double::unit(steps),
        double::unit(steps) > 1 ==> NORMAL * double::unit(steps) <= steps,
    decreases steps,
{
    lemma2_to64();
    if steps < LIMIT {
        0
    } else {
        let before = lemma_unit_facts(steps / 2);
        lemma_pow2_unfold(before + 1);
        before + 1
    }
}

proof fn lemma_unit_order(steps: int, more: int)
    requires
        0 <= steps <= more,
    ensures
        double::unit(steps) == double::unit(more) || 2 * double::unit(steps) <= double::unit(more),
    decreases more,
{
    if more >= LIMIT {
        double::lemma_unit_positive(more / 2);
        if steps >= LIMIT {
            lemma_unit_order(steps / 2, more / 2);
        }
    }
}

/// The closest integer is at most half of one away.
proof fn lemma_even_bounds(n: int, d: int)
    requires
        0 <= n,
        0 < d,
    ensures
        -d <= 2 * (double::nearest_even(n, d) * d - n) <= d,
        n / d <= double::nearest_even(n, d) <= n / d + 1,
        0 <= double::nearest_even(n, d),
        0 <= n / d,
{
    lemma_fundamental_div_mod(n, d);
    let q = n / d;
    let r = n % d;
    assert(q >= 0) by (nonlinear_arith)
        requires
            n == d * q + r,
            r < d,
            n >= 0,
            d > 0,
    ;
    assert((q + 1) * d == d * q + d) by (nonlinear_arith);
    assert(q * d == d * q) by (nonlinear_arith);
}

proof fn lemma_even_order(n: int, d: int, m: int, e: int)
    requires
        0 <= n,
        0 <= m,
        0 < d,
        0 < e,
        n * e <= m * d,
    ensures
        n / d <= m / e,
        double::nearest_even(n, d) <= double::nearest_even(m, e),
{
    lemma_fundamental_div_mod(n, d);
    lemma_fundamental_div_mod(m, e);
    let (q, r) = (n / d, n % d);
    let (p, s) = (m / e, m % e);
    assert(q <= p) by (nonlinear_arith)
        requires
            n == d * q + r,
            m == e * p + s,
            0 <= r,
            s < e,
            n * e <= m * d,
            0 < d,
            0 < e,
    ;
    if q == p {
        assert(r * e <= s * d) by (nonlinear_arith)
            requires
                n == d * q + r,
                m == e * q + s,
                n * e <= m * d,
        ;
        if 2 * r > d {
            assert(2 * s > e) by (nonlinear_arith)
                requires
                    2 * r > d,
                    r * e <= s * d,
                    d > 0,
                    e > 0,
            ;
        }
        if 2 * r == d {
            assert(2 * s >= e) by (nonlinear_arith)
                requires
                    2 * r == d,
                    r * e <= s * d,
                    d > 0,
                    e > 0,
            ;
        }
    }
}

/// A greater ratio is not rounded to a lesser number.
pub proof fn law_rounding_keeps_the_order(n: int, d: int, m: int, e: int)
    requires
        0 <= n,
        0 <= m,
        0 < d,
        0 < e,
        n * e <= m * d,
    ensures
        0 <= double::closest(n, d) <= double::closest(m, e),
{
    lemma_even_order(n, d, m, e);
    lemma_even_bounds(n, d);
    let k = n / d;
    let l = m / e;
    let s = lemma_unit_facts(k);
    let t = lemma_unit_facts(l);
    lemma_unit_order(k, l);
    let u = double::unit(k);
    let v = double::unit(l);
    assert(0 < d * u && 0 < e * v && 0 < e * u) by (nonlinear_arith)
        requires
            0 < d,
            0 < e,
            0 < u,
            0 < v,
    ;
    let a = double::nearest_even(n, d * u);
    let b = double::nearest_even(m, e * v);
    lemma_even_bounds(n, d * u);
    lemma_even_bounds(m, e * v);
    assert(u * a >= 0) by (nonlinear_arith)
        requires
            a >= 0,
            u > 0,
    ;
    if u == v {
        assert(n * (e * u) <= m * (d * u)) by (nonlinear_arith)
            requires
                n * e <= m * d,
                u > 0,
        ;
        lemma_even_order(n, d * u, m, e * u);
        assert(u * a <= u * b) by (nonlinear_arith)
            requires
                a <= b,
                u > 0,
        ;
    } else {
        vstd::arithmetic::div_mod::lemma_div_denominator(n, d, u);
        vstd::arithmetic::div_mod::lemma_div_denominator(m, e, v);
        lemma_fundamental_div_mod(k, u);
        lemma_fundamental_div_mod(l, v);
        let (x, y) = (k / u, l / v);
        assert(x < LIMIT) by (nonlinear_arith)
            requires
                k == u * x + k % u,
                k % u >= 0,
                k < LIMIT * u,
                u > 0,
        ;
        assert(y >= NORMAL) by (nonlinear_arith)
            requires
                l == v * y + l % v,
                l % v < v,
                l >= NORMAL * v,
                v > 0,
        ;
        assert(u * a <= v * b) by (nonlinear_arith)
            requires
                a <= LIMIT,
                b >= NORMAL,
                2 * u <= v,
                u > 0,
                LIMIT == 2 * NORMAL,
        ;
    }
}

/// Rounding moves a ratio by at most a part in `2` to the power of 53, or by half a step.
pub proof fn lemma_error(n: int, d: int)
    requires
        0 <= n,
        0 < d,
    ensures
        -(n + NORMAL * d) <= 2 * NORMAL * (double::closest(n, d) * d - n) <= n + NORMAL * d,
{
    lemma_even_bounds(n, d);
    lemma_fundamental_div_mod(n, d);
    let k = n / d;
    let shift = lemma_unit_facts(k);
    let u = double::unit(k);
    assert(0 < d * u) by (nonlinear_arith)
        requires
            0 < d,
            0 < u,
    ;
    lemma_even_bounds(n, d * u);
    let a = double::nearest_even(n, d * u);
    let off = (u * a) * d - n;
    assert(a * (d * u) == (u * a) * d) by (nonlinear_arith);
    assert(-(d * u) <= 2 * off <= d * u);
    if u > 1 {
        assert(NORMAL * (d * u) <= n) by (nonlinear_arith)
            requires
                NORMAL * u <= k,
                n == d * k + n % d,
                n % d >= 0,
                d > 0,
        ;
    } else {
        assert(d * u == d) by (nonlinear_arith)
            requires
                u == 1,
        ;
    }
    assert(0 <= NORMAL * d);
}

/// The error of rounding a ratio up to `2` to the power of 17.
pub proof fn lemma_small_error(n: int, d: int)
    requires
        0 < d,
        0 <= n <= 0x2_0000 * double::one() * d,
    ensures
        -(slack() * d) <= double::closest(n, d) * d - n <= slack() * d,
{
    lemma_error(n, d);
    lemma_slack();
    let e = slack();
    let off = double::closest(n, d) * d - n;
    let o = double::one();
    assert(n <= NORMAL * (e * d)) by (nonlinear_arith)
        requires
            n <= 0x2_0000 * o * d,
            o == 0x8_0000_0000 * e,
            NORMAL == 0x2_0000 * 0x8_0000_0000,
            d > 0,
    ;
    assert(NORMAL * d <= NORMAL * (e * d)) by (nonlinear_arith)
        requires
            e >= 1,
            d > 0,
    ;
}

/// A bound on the error of rounding numbers up to `bound`.
pub open spec fn slack_up_to(bound: int) -> int {
    bound / (NORMAL as int) + 1
}

/// The error of rounding a ratio up to `bound`.
pub proof fn lemma_error_up_to(n: int, d: int, bound: int)
    requires
        0 < d,
        0 <= bound,
        0 <= n <= bound * d,
    ensures
        -(slack_up_to(bound) * d) <= double::closest(n, d) * d - n <= slack_up_to(bound) * d,
{
    lemma_error(n, d);
    let e = slack_up_to(bound);
    let p = e * d;
    let off = double::closest(n, d) * d - n;
    assert(1 <= e && bound <= NORMAL * e);
    assert(bound * d <= NORMAL * p) by (nonlinear_arith)
        requires
            bound <= NORMAL * e,
            p == e * d,
            d > 0,
    ;
    assert(d <= p) by (nonlinear_arith)
        requires
            1 <= e,
            p == e * d,
            d > 0,
    ;
    let twice = 0x20_0000_0000_0000int;
    assert(n + NORMAL * d <= twice * p);
    assert(-p <= off <= p) by (nonlinear_arith)
        requires
            -(twice * p) <= twice * off <= twice * p,
            twice > 0,
    ;
}

/// A bound on the error of rounding numbers up to four: a `2` to the power of 50th part of one.
pub open spec fn fine() -> int {
    pow2(1024) as int
}

/// One is more than the fine slack by far.
pub proof fn lemma_fine()
    ensures
        double::one() == 0x4_0000_0000_0000 * fine(),
        slack() == 0x8000 * fine(),
        fine() > 0x10_0000_0000_0000,
{
    lemma2_to64();
    lemma2_to64_rest();
    lemma_pow2_adds(50, 1024);
    lemma_pow2_adds(15, 1024);
    lemma_pow2_adds(53, 971);
    lemma_pow2_pos(971);
    assert(0x20_0000_0000_0000 * pow2(971) >= 0x20_0000_0000_0000) by (nonlinear_arith)
        requires
            pow2(971) >= 1,
    ;
}

/// The error of rounding a ratio up to four.
pub proof fn lemma_fine_error(n: int, d: int)
    requires
        0 < d,
        0 <= n <= 4 * double::one() * d,
    ensures
        -(fine() * d) <= double::closest(n, d) * d - n <= fine() * d,
{
    lemma_error(n, d);
    lemma_fine();
    let e = fine();
    let off = double::closest(n, d) * d - n;
    let o = double::one();
    assert(n <= NORMAL * (e * d)) by (nonlinear_arith)
        requires
            n <= 4 * o * d,
            o == 0x4_0000_0000_0000 * e,
            NORMAL == 4 * 0x4_0000_0000_0000,
            d > 0,
    ;
    assert(NORMAL * d <= NORMAL * (e * d)) by (nonlinear_arith)
        requires
            e >= 1,
            d > 0,
    ;
}

/// Dividing a bound by a positive factor.
pub proof fn lemma_divide(off: int, bound: int, factor: int)
    by (nonlinear_arith)
    requires
        -(bound * factor) <= off * factor <= bound * factor,
        factor > 0,
    ensures
        -bound <= off <= bound,
{
}

/// What was rounded stays as it is.
pub proof fn lemma_closest_is_number(n: int, d: int)
    requires
        0 <= n,
        0 < d,
    ensures
        is_number(double::closest(n, d)),
{
    lemma_even_bounds(n, d);
    let k = n / d;
    let shift = lemma_unit_facts(k);
    let u = double::unit(k);
    assert(0 < d * u) by (nonlinear_arith)
        requires
            0 < d,
            0 < u,
    ;
    lemma_even_bounds(n, d * u);
    vstd::arithmetic::div_mod::lemma_div_denominator(n, d, u);
    lemma_fundamental_div_mod(k, u);
    let x = k / u;
    assert(x < LIMIT) by (nonlinear_arith)
        requires
            k == u * x + k % u,
            k % u >= 0,
            k < LIMIT * u,
            u > 0,
    ;
    let a = double::nearest_even(n, d * u);
    assert(u * a == a * u) by (nonlinear_arith);
    assert(a * u >= 0) by (nonlinear_arith)
        requires
            a >= 0,
            u > 0,
    ;
    if a < LIMIT {
        double::lemma_exact(a, shift);
    } else {
        lemma_pow2_unfold(shift + 1);
        assert(a * u == NORMAL * pow2(shift + 1)) by (nonlinear_arith)
            requires
                a == 2 * NORMAL,
                pow2(shift + 1) == 2 * u,
        ;
        double::lemma_exact(NORMAL as int, shift + 1);
    }
}

/// The value of a number is a number.
pub proof fn lemma_value_is_number(number: Double)
    requires
        number.well_formed(),
    ensures
        is_number(number.value()),
{
    lemma_pow2_pos(number.exponent as nat);
    double::lemma_exact(number.mantissa as int, number.exponent as nat);
    assert(number.mantissa * pow2(number.exponent as nat) >= 0) by (nonlinear_arith)
        requires
            number.mantissa >= 0,
            pow2(number.exponent as nat) > 0,
    ;
}

/// What bits stand for is a number.
pub proof fn lemma_bits_are_number(bits: u64)
    requires
        bits < double::INFINITE_BITS,
    ensures
        is_number(double::steps_of(bits)),
{
    let exponent = bits / NORMAL;
    let fraction = bits % NORMAL;
    double::lemma_bits_order(bits, bits);
    if exponent == 0 {
        double::lemma_exact(fraction as int, 0);
    } else {
        double::lemma_exact(NORMAL + fraction, (exponent - 1) as nat);
    }
}

/// A number that is not greater than a finite one has bits.
pub proof fn lemma_number_has_bits(number: int, greatest: u64) -> (bits: u64)
    requires
        is_number(number),
        greatest < double::INFINITE_BITS,
        number <= double::steps_of(greatest),
    ensures
        bits < double::INFINITE_BITS,
        double::steps_of(bits) == number,
{
    lemma2_to64();
    let shift = lemma_unit_facts(number);
    let u = double::unit(number);
    assert(number / 1 == number);
    lemma_even_bounds(number, u);
    let a = double::nearest_even(number, u);
    assert(1 * u == u);
    assert(u * a == number);
    lemma_fundamental_div_mod(number, u);
    let x = number / u;
    assert(x < LIMIT) by (nonlinear_arith)
        requires
            number == u * x + number % u,
            number % u >= 0,
            number < LIMIT * u,
            u > 0,
    ;
    assert(a < LIMIT) by (nonlinear_arith)
        requires
            u * a < LIMIT * u,
            u > 0,
    ;
    assert(u * a == a * u) by (nonlinear_arith);
    if shift == 0 {
        assert(number == a);
        if a < NORMAL {
            let bits = a as u64;
            assert(bits / NORMAL == 0 && bits % NORMAL == a);
            bits
        } else {
            let bits = a as u64;
            assert(bits / NORMAL == 1 && bits % NORMAL == a - NORMAL);
            bits
        }
    } else {
        lemma_pow2_unfold(shift);
        lemma_pow2_pos((shift - 1) as nat);
        assert(a >= NORMAL) by (nonlinear_arith)
            requires
                NORMAL * u <= u * a,
                u > 0,
        ;
        // The shift is not too great.
        let exponent = greatest / NORMAL;
        let mantissa = if exponent == 0 {
            (greatest % NORMAL) as int
        } else {
            NORMAL + greatest % NORMAL
        };
        let power = if exponent == 0 {
            0nat
        } else {
            (exponent - 1) as nat
        };
        assert(double::steps_of(greatest) == mantissa * pow2(power));
        if shift > 2045 {
            lemma_pow2_unfold(2046);
            if power < 2045 {
                vstd::arithmetic::power2::lemma_pow2_strictly_increases(power, 2045);
            }
            if shift > 2046 {
                vstd::arithmetic::power2::lemma_pow2_strictly_increases(2046, shift);
            }
            let (p, q) = (pow2(power) as int, pow2(2045) as int);
            lemma_pow2_pos(power);
            assert(mantissa * p < LIMIT * q) by (nonlinear_arith)
                requires
                    0 <= mantissa < LIMIT,
                    0 < p <= q,
            ;
            assert(u * a >= NORMAL * (2 * q)) by (nonlinear_arith)
                requires
                    a >= NORMAL,
                    u >= 2 * q,
                    q > 0,
            ;
            assert(false);
        }
        let bits = ((shift + 1) * NORMAL + (a - NORMAL)) as u64;
        lemma_fundamental_div_mod_converse(bits as int, NORMAL as int, (shift + 1) as int, a - NORMAL);
        bits
    }
}

/// Twice a number is a number.
pub proof fn lemma_doubled(number: int)
    requires
        is_number(number),
    ensures
        is_number(2 * number),
        double::sum(number, number) == 2 * number,
{
    let shift = lemma_unit_facts(number);
    let u = double::unit(number);
    assert(number / 1 == number);
    assert(1 * u == u);
    lemma_even_bounds(number, u);
    let a = double::nearest_even(number, u);
    assert(u * a == number);
    assert(a < LIMIT) by (nonlinear_arith)
        requires
            u * a < LIMIT * u,
            u > 0,
    ;
    lemma_pow2_unfold(shift + 1);
    assert(2 * number == a * pow2(shift + 1)) by (nonlinear_arith)
        requires
            u * a == number,
            pow2(shift + 1) == 2 * u,
    ;
    double::lemma_exact(a, shift + 1);
    assert(number + number == 2 * number);
}

/// A ratio that is a number is rounded to it.
pub proof fn lemma_exact_ratio(n: int, d: int, number: int)
    requires
        is_number(number),
        0 < d,
        n == number * d,
    ensures
        double::closest(n, d) == number,
{
    assert(n >= 0) by (nonlinear_arith)
        requires
            n == number * d,
            number >= 0,
            d > 0,
    ;
    assert(n * 1 == number * d);
    double::lemma_same_closest(n, d, number, 1);
}

/// Integers of at most 53 bits are numbers.
pub proof fn lemma_whole(value: int)
    requires
        0 <= value < LIMIT,
    ensures
        double::whole(value) == value * double::one(),
        is_number(value * double::one()),
        double::one() > 0,
{
    lemma_pow2_pos(SCALE as nat);
    double::lemma_exact(value, SCALE as nat);
    assert(value * double::one() >= 0) by (nonlinear_arith)
        requires
            value >= 0,
            double::one() > 0,
    ;
}

/// A positive integer is rounded to a positive number.
pub proof fn lemma_whole_positive(value: int)
    requires
        0 < value,
    ensures
        double::whole(value) >= double::one(),
        double::one() > 0,
{
    lemma_whole(1);
    let o = double::one();
    assert(o <= value * o) by (nonlinear_arith)
        requires
            value >= 1,
            o > 0,
    ;
    law_rounding_keeps_the_order(o, 1, value * o, 1);
}

/// A number times one, in either order.
pub proof fn lemma_product_one(number: int)
    requires
        is_number(number),
    ensures
        double::product(number, double::one()) == number,
        double::product(double::one(), number) == number,
{
    lemma_pow2_pos(SCALE as nat);
    lemma_exact_ratio(number * double::one(), double::one(), number);
    assert(double::one() * number == number * double::one()) by (nonlinear_arith);
}

/// A number over itself is one.
pub proof fn lemma_quotient_same(number: int)
    requires
        0 < number,
    ensures
        double::quotient(number, number) == double::one(),
{
    lemma_whole(1);
    assert(number * double::one() == double::one() * number) by (nonlinear_arith);
    lemma_exact_ratio(number * double::one(), number, double::one());
}

/// Products grow with their factors.
pub proof fn lemma_product_order(left: int, right: int, more: int, other: int)
    requires
        0 <= left <= more,
        0 <= right <= other,
    ensures
        0 <= double::product(left, right) <= double::product(more, other),
        is_number(double::product(left, right)),
{
    lemma_pow2_pos(SCALE as nat);
    let o = double::one();
    assert(0 <= left * right <= more * other) by (nonlinear_arith)
        requires
            0 <= left <= more,
            0 <= right <= other,
    ;
    assert((left * right) * o <= (more * other) * o) by (nonlinear_arith)
        requires
            left * right <= more * other,
            o > 0,
    ;
    law_rounding_keeps_the_order(left * right, o, more * other, o);
    lemma_closest_is_number(left * right, o);
}

/// A greater number over the same one is not less.
pub proof fn lemma_quotient_order(left: int, more: int, right: int)
    requires
        0 <= left <= more,
        0 < right,
    ensures
        0 <= double::quotient(left, right) <= double::quotient(more, right),
        is_number(double::quotient(left, right)),
{
    lemma_pow2_pos(SCALE as nat);
    let o = double::one();
    assert(0 <= left * o <= more * o) by (nonlinear_arith)
        requires
            0 <= left <= more,
            o > 0,
    ;
    assert((left * o) * right <= (more * o) * right) by (nonlinear_arith)
        requires
            left * o <= more * o,
            right > 0,
    ;
    law_rounding_keeps_the_order(left * o, right, more * o, right);
    lemma_closest_is_number(left * o, right);
}

/// A greater number is rounded to an integer that is not less.
pub proof fn lemma_round_order(number: int, more: int)
    requires
        0 <= number <= more,
    ensures
        0 <= double::round(number) <= double::round(more),
{
    lemma_pow2_pos(SCALE as nat);
    let o = double::one();
    lemma_fundamental_div_mod(2 * number + o, 2 * o);
    lemma_fundamental_div_mod(2 * more + o, 2 * o);
    let (p, q) = (double::round(number), double::round(more));
    let (r, s) = ((2 * number + o) % (2 * o), (2 * more + o) % (2 * o));
    assert(p <= q && 0 <= p) by (nonlinear_arith)
        requires
            2 * number + o == (2 * o) * p + r,
            2 * more + o == (2 * o) * q + s,
            0 <= r < 2 * o,
            0 <= s < 2 * o,
            0 <= number <= more,
            o > 0,
    ;
}

/// A number that is less than a half away from an integer is rounded to it.
pub proof fn lemma_round_to(number: int, value: int)
    requires
        -double::one() <= 2 * (number - value * double::one()) < double::one(),
    ensures
        double::round(number) == value,
{
    lemma_pow2_pos(SCALE as nat);
    let o = double::one();
    let rest = 2 * (number - value * o) + o;
    assert(value * (2 * o) == 2 * (value * o)) by (nonlinear_arith);
    lemma_fundamental_div_mod_converse(2 * number + o, 2 * o, value, rest);
}

/// An integer is at most a half away from what is rounded to it.
pub proof fn lemma_round_bounds(number: int)
    ensures
        -double::one() <= 2 * (double::round(number) * double::one() - number) <= double::one(),
{
    lemma_pow2_pos(SCALE as nat);
    let o = double::one();
    lemma_fundamental_div_mod(2 * number + o, 2 * o);
    let q = double::round(number);
    assert((2 * o) * q == 2 * (q * o)) by (nonlinear_arith);
}

/// A number strictly between two neighbouring multiples of the unit of a ratio is not a number of double
/// precision.
proof fn lemma_no_number_between(k: int, q: int, number: int)
    requires
        0 <= k,
        is_number(number),
        q == k / double::unit(k),
    ensures
        !(double::unit(k) * q < number < double::unit(k) * (q + 1)),
{
    let u = double::unit(k);
    let shift = lemma_unit_facts(k);
    lemma_fundamental_div_mod(k, u);
    if u * q < number < u * (q + 1) {
        assert(u * (q + 1) == u * q + u) by (nonlinear_arith);
        if u > 1 {
            let more = lemma_unit_facts(number);
            let v = double::unit(number);
            assert(NORMAL <= q < LIMIT) by (nonlinear_arith)
                requires
                    k == u * q + k % u,
                    0 <= k % u < u,
                    NORMAL * u <= k < LIMIT * u,
                    u > 0,
            ;
            assert(NORMAL * u <= u * q && u * (q + 1) <= LIMIT * u) by (nonlinear_arith)
                requires
                    NORMAL <= q < LIMIT,
                    u > 0,
            ;
            if number <= k {
                lemma_unit_order(number, k);
            } else {
                lemma_unit_order(k, number);
            }
            assert(LIMIT * u == 2 * (NORMAL * u)) by (nonlinear_arith)
                requires
                    LIMIT == 2 * NORMAL,
            ;
            assert(v == u) by (nonlinear_arith)
                requires
                    v == u || 2 * v <= u || 2 * u <= v,
                    NORMAL * u < number < LIMIT * u,
                    number < LIMIT * v,
                    v > 1 ==> NORMAL * v <= number,
                    LIMIT == 2 * NORMAL,
                    u > 1,
                    v >= 1,
            ;
            assert(number / 1 == number);
            let a = double::nearest_even(number, u);
            assert(1 * u == u);
            assert(u * a == number);
            assert(false) by (nonlinear_arith)
                requires
                    u * q < u * a < u * (q + 1),
                    u > 0,
            ;
        } else {
            assert(u == 1);
        }
    }
}

/// Rounding is to the nearest: no number is closer to a ratio than the one that it is rounded to.
pub proof fn law_rounding_is_to_the_nearest(n: int, d: int, number: int)
    requires
        0 <= n,
        0 < d,
        is_number(number),
    ensures
        ({
            let off = double::closest(n, d) * d - n;
            let other = number * d - n;
            let (distance, farther) = (
                if off >= 0 {
                    off
                } else {
                    -off
                },
                if other >= 0 {
                    other
                } else {
                    -other
                },
            );
            distance <= farther
        }),
        is_number(double::closest(n, d)),
{
    lemma_closest_is_number(n, d);
    let k = n / d;
    lemma_even_bounds(n, d);
    let shift = lemma_unit_facts(k);
    let u = double::unit(k);
    let w = d * u;
    assert(w > 0) by (nonlinear_arith)
        requires
            w == d * u,
            d > 0,
            u > 0,
    ;
    let q = k / u;
    vstd::arithmetic::div_mod::lemma_div_denominator(n, d, u);
    assert(q == n / w);
    lemma_even_bounds(n, w);
    lemma_fundamental_div_mod(n, w);
    let a = double::nearest_even(n, w);
    let r = n - w * q;
    let c = double::closest(n, d);
    assert(c * d == a * w) by (nonlinear_arith)
        requires
            c == u * a,
            w == d * u,
    ;
    assert(a * w == w * q + (a - q) * w) by (nonlinear_arith);
    assert(a == q || a == q + 1);
    lemma_no_number_between(k, q, number);
    if number * d <= n {
        assert(number <= u * q) by (nonlinear_arith)
            requires
                number * d <= n,
                n < w * q + w,
                w == d * u,
                !(u * q < number < u * (q + 1)),
                d > 0,
        ;
        assert(number * d <= w * q) by (nonlinear_arith)
            requires
                number <= u * q,
                w == d * u,
                d > 0,
        ;
    } else {
        assert(number >= u * (q + 1)) by (nonlinear_arith)
            requires
                number * d > n,
                n >= w * q,
                w == d * u,
                !(u * q < number < u * (q + 1)),
                d > 0,
        ;
        assert(number * d >= w * q + w) by (nonlinear_arith)
            requires
                number >= u * (q + 1),
                w == d * u,
                d > 0,
        ;
    }
    if a == q {
        assert((a - q) * w == 0) by (nonlinear_arith)
            requires
                a == q,
        ;
    } else {
        assert((a - q) * w == w) by (nonlinear_arith)
            requires
                a == q + 1,
        ;
    }
}

/// Products, quotients, sums, differences and integers are rounded to the nearest number, and so lie
/// within a part in `2` to the power of 53 of the exact ones, or within half of the least step.
pub proof fn law_arithmetic_is_rounded(left: int, right: int)
    requires
        0 <= left,
        0 < right,
    ensures
        double::product(left, right) == double::closest(left * right, double::one()),
        double::quotient(left, right) == double::closest(left * double::one(), right),
        double::sum(left, right) == double::closest(left + right, 1),
        left >= right ==> double::distance(left, right) == double::closest(left - right, 1),
        left >= right ==> double::distance(right, left) == double::closest(left - right, 1),
        double::whole(left) == double::closest(left * double::one(), 1),
        left < LIMIT ==> double::whole(left) == left * double::one(),
        -double::one() <= 2 * (double::round(left) * double::one() - left) <= double::one(),
{
    if left < LIMIT {
        lemma_whole(left);
    }
    lemma_round_bounds(left);
    if left == right {
    }
}

/// A ratio is at most a half away from the integer it is rounded to, and halfway between two integers
/// it is rounded to the even one.
pub proof fn law_halves_are_rounded_to_even(n: int, d: int)
    requires
        0 < d,
    ensures
        -d <= 2 * (double::nearest_even(n, d) * d - n) <= d,
        2 * (double::nearest_even(n, d) * d - n) == d ==> double::nearest_even(n, d) % 2 == 0,
        2 * (double::nearest_even(n, d) * d - n) == -d ==> double::nearest_even(n, d) % 2 == 0,
{
    lemma_fundamental_div_mod(n, d);
    let floor = n / d;
    let rest = n % d;
    assert(0 <= rest < d) by {
        vstd::arithmetic::div_mod::lemma_mod_bound(n, d);
    }
    let rounded = double::nearest_even(n, d);
    assert(rounded * d == d * floor + (rounded - floor) * d) by (nonlinear_arith);
    assert(rounded == floor || rounded == floor + 1);
    if rounded == floor {
        assert((rounded - floor) * d == 0) by (nonlinear_arith)
            requires
                rounded == floor,
        ;
    } else {
        assert((rounded - floor) * d == d) by (nonlinear_arith)
            requires
                rounded == floor + 1,
        ;
    }
}

} // verus!
