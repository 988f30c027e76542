//! What gamma ramps promise.

use vstd::prelude::*;

use crate::double;
use crate::double_laws;

use super::ramp;
use super::ramp::{WhitePoints, NEUTRAL_TEMPERATURE, TOP};

verus! {

/// The white point of a temperature within range is at most one.
pub(crate) proof fn lemma_white(points: WhitePoints, temperature: u64, channel: int)
    requires
        points.valid(),
        0 <= channel < 3,
    ensures
        0 <= points.white(ramp::clamped_temperature(temperature), channel) <= double::one(),
{
    let clamped = ramp::clamped_temperature(temperature);
    assert(points.gains[clamped - ramp::MIN_TEMPERATURE]@[channel] <= double::ONE_BITS);
    double::lemma_bits_order(points.bits(clamped, channel), double::ONE_BITS);
    double::lemma_one_bits();
}

/// What is left of the light is between nothing and all of it.
pub(crate) proof fn lemma_intensity(dim: u64)
    ensures
        0 <= ramp::intensity(dim) <= double::one(),
        double_laws::is_number(ramp::intensity(dim)),
        dim == 0 ==> ramp::intensity(dim) == double::one(),
        dim >= 100 ==> ramp::intensity(dim) == 0,
{
    let left = ramp::remainder(dim);
    double_laws::lemma_whole(left);
    double_laws::lemma_whole(100);
    let o = double::one();
    assert(0 <= left * o <= 100 * o) by (nonlinear_arith)
        requires
            0 <= left <= 100,
            o > 0,
    ;
    double_laws::lemma_quotient_order(left * o, 100 * o, 100 * o);
    double_laws::lemma_quotient_same(100 * o);
    if dim >= 100 {
        double_laws::lemma_whole(0);
        assert(0 * o == 0 && 0 * (100 * o) == 0);
        double_laws::lemma_exact_ratio((0 * o) * o, 100 * o, 0);
    }
}

/// A gain is a number that is at most one.
pub proof fn lemma_gain(points: WhitePoints, dim: u64, temperature: u64, channel: int)
    requires
        points.valid(),
        0 <= channel < 3,
    ensures
        0 <= points.gain(dim, temperature, channel) <= double::one(),
        double_laws::is_number(points.gain(dim, temperature, channel)),
{
    lemma_white(points, temperature, channel);
    lemma_intensity(dim);
    double_laws::lemma_whole(1);
    let white = points.white(ramp::clamped_temperature(temperature), channel);
    double_laws::lemma_product_order(white, ramp::intensity(dim), double::one(), double::one());
    double_laws::lemma_product_one(double::one());
}

/// Without dimming, the neutral temperature leaves every lookup table as it is.
pub proof fn law_neutral_controls_change_nothing(points: WhitePoints, curve: Seq<u16>, channel: int)
    requires
        points.valid(),
        0 <= channel < 3,
    ensures
        points.gain(0, NEUTRAL_TEMPERATURE, channel) == double::one(),
        ramp::applied_curve(curve, points.gain(0, NEUTRAL_TEMPERATURE, channel)) == curve,
{
    assert(points.bits(NEUTRAL_TEMPERATURE as int, channel) == double::ONE_BITS);
    double::lemma_one_bits();
    lemma_intensity(0);
    double_laws::lemma_whole(1);
    double_laws::lemma_product_one(double::one());
    assert forall|i: int| 0 <= i < curve.len() implies ramp::applied_value(
        curve[i] as int,
        double::one(),
    ) == curve[i] by {
        double_laws::lemma_whole(curve[i] as int);
        double_laws::lemma_product_one(curve[i] * double::one());
        double_laws::lemma_round_to(curve[i] * double::one(), curve[i] as int);
    }
    assert(ramp::applied_curve(curve, double::one()) =~= curve);
}

/// Dimming by a hundred percent turns every value dark.
pub proof fn law_full_dim_is_dark(
    points: WhitePoints,
    curve: Seq<u16>,
    dim: u64,
    temperature: u64,
    channel: int,
)
    requires
        dim >= 100,
    ensures
        forall|i: int|
            0 <= i < curve.len() ==> #[trigger] ramp::applied_curve(
                curve,
                points.gain(dim, temperature, channel),
            )[i] == 0,
{
    lemma_intensity(dim);
    let white = points.white(ramp::clamped_temperature(temperature), channel);
    lemma_product_nothing(white);
    assert forall|i: int| 0 <= i < curve.len() implies #[trigger] ramp::applied_curve(
        curve,
        points.gain(dim, temperature, channel),
    )[i] == 0 by {
        lemma_product_nothing(double::whole(curve[i] as int));
        double_laws::lemma_round_to(0, 0);
    }
}

proof fn lemma_product_nothing(number: int)
    ensures
        double::product(number, 0) == 0,
        double::one() > 0,
{
    double_laws::lemma_whole(0);
    assert(number * 0 == 0 * double::one()) by (nonlinear_arith);
    assert(0 * double::one() == 0);
    double_laws::lemma_exact_ratio(number * 0, double::one(), 0);
}

/// A greater number gives a value that is not less.
proof fn lemma_level_order(number: int, more: int)
    requires
        0 <= number <= more,
    ensures
        0 <= ramp::level(number) <= ramp::level(more) <= TOP,
{
    double_laws::lemma_round_order(number, more);
}

/// More dimming never makes a channel brighter.
pub proof fn law_dimming_darkens(
    points: WhitePoints,
    dim: u64,
    more: u64,
    temperature: u64,
    channel: int,
    value: u16,
)
    requires
        points.valid(),
        0 <= channel < 3,
        dim <= more,
    ensures
        points.gain(more, temperature, channel) <= points.gain(dim, temperature, channel),
        ramp::applied_value(value as int, points.gain(more, temperature, channel))
            <= ramp::applied_value(value as int, points.gain(dim, temperature, channel)),
{
    lemma_white(points, temperature, channel);
    let white = points.white(ramp::clamped_temperature(temperature), channel);
    let (less, most) = (ramp::remainder(more), ramp::remainder(dim));
    double_laws::lemma_whole(less);
    double_laws::lemma_whole(most);
    double_laws::lemma_whole(100);
    double_laws::lemma_whole(value as int);
    let o = double::one();
    assert(0 <= less * o <= most * o && 0 <= value * o) by (nonlinear_arith)
        requires
            0 <= less <= most,
            value >= 0,
            o > 0,
    ;
    double_laws::lemma_quotient_order(less * o, most * o, 100 * o);
    double_laws::lemma_product_order(white, ramp::intensity(more), white, ramp::intensity(dim));
    let (low, high) = (
        points.gain(more, temperature, channel),
        points.gain(dim, temperature, channel),
    );
    double_laws::lemma_product_order(value * o, low, value * o, high);
    lemma_level_order(double::product(value * o, low), double::product(value * o, high));
}

/// The greatest value of a lookup table as a number.
pub open spec fn top() -> int {
    double::whole(TOP as int)
}

pub(crate) proof fn lemma_top()
    ensures
        top() == TOP * double::one(),
        double::one() > 0,
        double_laws::is_number(top()),
{
    double_laws::lemma_whole(TOP as int);
}

/// A position is a number that is at most one.
proof fn lemma_position(size: int, index: int, later: int)
    requires
        0 <= index <= later < size,
    ensures
        0 <= ramp::position(size, index) <= ramp::position(size, later),
        size > 1 && later == size - 1 ==> ramp::position(size, later) == double::one(),
{
    if size > 1 {
        double_laws::lemma_whole_positive(size - 1);
        let o = double::one();
        assert(0 <= index * o <= later * o) by (nonlinear_arith)
            requires
                0 <= index <= later,
                o > 0,
        ;
        double_laws::law_rounding_keeps_the_order(index * o, 1, later * o, 1);
        double_laws::lemma_quotient_order(
            double::whole(index),
            double::whole(later),
            double::whole(size - 1),
        );
        if later == size - 1 {
            double_laws::lemma_quotient_same(double::whole(size - 1));
        }
    }
}

/// A later value of an evenly rising curve is not less than an earlier one.
pub(crate) proof fn lemma_linear_rises(size: int, gain: int, index: int, later: int)
    requires
        0 <= index <= later < size,
        0 <= gain,
    ensures
        0 <= ramp::linear_value(size, gain, index) <= ramp::linear_value(size, gain, later) <= TOP,
{
    lemma_position(size, index, later);
    lemma_top();
    let (first, second) = (ramp::position(size, index), ramp::position(size, later));
    double_laws::lemma_product_order(first, gain, second, gain);
    let (less, more) = (double::product(first, gain), double::product(second, gain));
    double_laws::lemma_product_order(less, top(), more, top());
    lemma_level_order(double::product(less, top()), double::product(more, top()));
}

/// The peak of an evenly rising curve with this gain.
pub open spec fn highest(gain: int) -> int {
    ramp::level(double::product(gain, top()))
}

/// The last value of an evenly rising curve is its peak.
proof fn lemma_linear_peak(size: int, gain: int)
    requires
        size > 1,
        double_laws::is_number(gain),
    ensures
        ramp::peak(ramp::linear_curve(size, gain)) == highest(gain),
        ramp::linear_value(size, gain, size - 1) == highest(gain),
{
    let curve = ramp::linear_curve(size, gain);
    lemma_position(size, 0, size - 1);
    double_laws::lemma_product_one(gain);
    lemma_linear_rises(size, gain, size - 1, size - 1);
    ramp::lemma_peak(curve);
    assert(curve[size - 1] == ramp::linear_value(size, gain, size - 1));
    lemma_peak_at_most(curve.drop_last(), ramp::linear_value(size, gain, size - 1), size, gain);
}

proof fn lemma_peak_at_most(curve: Seq<u16>, bound: int, size: int, gain: int)
    requires
        0 <= gain,
        curve.len() < size,
        forall|i: int| 0 <= i < curve.len() ==> curve[i] == ramp::linear_curve(size, gain)[i],
        bound == ramp::linear_value(size, gain, size - 1),
    ensures
        ramp::peak(curve) <= bound,
    decreases curve.len(),
{
    lemma_linear_rises(size, gain, size - 1, size - 1);
    if curve.len() > 0 {
        let front = curve.drop_last();
        assert forall|i: int| 0 <= i < front.len() implies front[i] == ramp::linear_curve(
            size,
            gain,
        )[i] by {
            assert(front[i] == curve[i]);
        }
        lemma_peak_at_most(front, bound, size, gain);
        let last = curve.len() - 1;
        lemma_linear_rises(size, gain, last, size - 1);
        assert(curve.last() == ramp::linear_value(size, gain, last));
    }
}

/// A level is close to the number that it stands for, which is at most the top and a little more.
pub(crate) proof fn lemma_level_bounds(number: int)
    requires
        0 <= number <= TOP * double::one() + double_laws::slack(),
    ensures
        -double::one() <= 2 * (ramp::level(number) * double::one() - number) <= double::one(),
        0 <= ramp::level(number) <= TOP,
{
    double_laws::lemma_slack();
    double_laws::lemma_round_bounds(number);
    double_laws::lemma_round_order(0, number);
    let o = double::one();
    let value = double::round(number);
    if value > TOP {
        assert(value * o >= TOP * o + o) by (nonlinear_arith)
            requires
                value >= TOP + 1,
                o > 0,
        ;
    }
}

/// How close a product with an integer of a table is to the exact one.
pub(crate) proof fn lemma_scaled(value: int, gain: int)
    requires
        0 <= value <= TOP,
        0 <= gain <= 2 * double::one(),
    ensures
        ({
            let scaled = double::product(value * double::one(), gain);
            &&& -double_laws::slack() <= scaled - value * gain <= double_laws::slack()
            &&& double::product(gain, value * double::one()) == scaled
            &&& 0 <= scaled
        }),
{
    double_laws::lemma_slack();
    let o = double::one();
    let e = double_laws::slack();
    let n = (value * o) * gain;
    assert(0 <= n <= 0x2_0000 * o * o) by (nonlinear_arith)
        requires
            n == (value * o) * gain,
            0 <= value <= 65535,
            0 <= gain <= 2 * o,
            o > 0,
    ;
    double_laws::lemma_small_error(n, o);
    let scaled = double::closest(n, o);
    assert(n == (value * gain) * o) by (nonlinear_arith)
        requires
            n == (value * o) * gain,
    ;
    assert(-e <= scaled - value * gain <= e) by (nonlinear_arith)
        requires
            -(e * o) <= scaled * o - (value * gain) * o <= e * o,
            o > 0,
    ;
    assert(gain * (value * o) == (value * o) * gain) by (nonlinear_arith);
    double_laws::lemma_closest_is_number(n, o);
}

/// How close a quotient of integers of a table is to the exact one.
pub(crate) proof fn lemma_share(value: int, peak: int)
    requires
        0 <= value <= peak <= TOP,
        0 < peak,
    ensures
        ({
            let share = double::quotient(value * double::one(), peak * double::one());
            &&& -(double_laws::slack() * peak) <= share * peak - value * double::one()
                <= double_laws::slack() * peak
            &&& 0 <= share <= double::one()
        }),
{
    double_laws::lemma_slack();
    let o = double::one();
    let e = double_laws::slack();
    let d = peak * o;
    let n = (value * o) * o;
    assert(0 < d && 0 <= value * o <= d) by (nonlinear_arith)
        requires
            d == peak * o,
            0 <= value <= peak,
            peak > 0,
            o > 0,
    ;
    assert(0 <= n <= 0x2_0000 * o * d) by (nonlinear_arith)
        requires
            n == (value * o) * o,
            0 <= value * o <= d,
            o > 0,
    ;
    double_laws::lemma_small_error(n, d);
    let share = double::closest(n, d);
    assert(-(e * peak) <= share * peak - value * o <= e * peak) by (nonlinear_arith)
        requires
            -(e * d) <= share * d - n <= e * d,
            d == peak * o,
            n == (value * o) * o,
            o > 0,
    ;
    double_laws::lemma_quotient_order(value * o, d, d);
    double_laws::lemma_quotient_same(d);
}

/// How close a stretched value is to the exact one.
pub(crate) proof fn lemma_stretched_value(value: int, peak: int)
    requires
        0 <= value <= peak <= TOP,
        0 < peak,
    ensures
        ({
            let stretched = ramp::stretched_value(value, peak);
            let o = double::one();
            let e = double_laws::slack();
            &&& 2 * (stretched * o) * peak <= 2 * (value * o) * TOP + o * peak + 0x2_0002 * (e * peak)
            &&& 2 * (stretched * o) * peak >= 2 * (value * o) * TOP - o * peak - 0x2_0002 * (e * peak)
            &&& 0 <= stretched <= TOP
        }),
{
    double_laws::lemma_slack();
    double_laws::lemma_whole(value);
    double_laws::lemma_whole(peak);
    lemma_top();
    let o = double::one();
    let e = double_laws::slack();
    let share = double::quotient(value * o, peak * o);
    lemma_share(value, peak);
    lemma_scaled(TOP as int, share);
    let number = double::product(share, top());
    assert(number == double::product(TOP * o, share));
    assert(TOP * share <= TOP * o) by (nonlinear_arith)
        requires
            share <= o,
    ;
    lemma_level_bounds(number);
    let stretched = ramp::stretched_value(value, peak);
    let s = stretched * o;
    let t = TOP as int;
    let v = value * o;
    assert(2 * s <= 2 * (t * share) + o + 2 * e && 2 * s >= 2 * (t * share) - o - 2 * e);
    assert(2 * s * peak <= 2 * v * t + o * peak + 0x2_0002 * (e * peak)) by (nonlinear_arith)
        requires
            2 * s <= 2 * (t * share) + o + 2 * e,
            share * peak <= v + e * peak,
            t == 65535,
            peak > 0,
            e > 0,
    ;
    assert(2 * s * peak >= 2 * v * t - o * peak - 0x2_0002 * (e * peak)) by (nonlinear_arith)
        requires
            2 * s >= 2 * (t * share) - o - 2 * e,
            share * peak >= v - e * peak,
            t == 65535,
            peak > 0,
            e > 0,
    ;
}

/// Rounding three times in a row moves a value by at most one.
proof fn lemma_three_roundings(value: int, gain: int)
    requires
        0 <= gain <= double::one(),
        0 < highest(gain),
        0 <= value <= highest(gain),
    ensures
        ({
            let again = ramp::applied_value(
                ramp::stretched_value(value, highest(gain)),
                gain,
            );
            -1 <= again - value <= 1
        }),
{
    double_laws::lemma_slack();
    lemma_top();
    let o = double::one();
    let e = double_laws::slack();
    let t = TOP as int;
    let g = gain;
    // The peak.
    lemma_scaled(t, g);
    assert(t * g <= t * o) by (nonlinear_arith)
        requires
            g <= o,
            t >= 0,
    ;
    lemma_level_bounds(double::product(g, top()));
    let p = highest(g);
    assert(2 * (t * g) <= 2 * (p * o) + o + 2 * e && 2 * (t * g) >= 2 * (p * o) - o - 2 * e);
    // The stretched value.
    lemma_stretched_value(value, p);
    let u = ramp::stretched_value(value, p);
    // The value with the gain again.
    double_laws::lemma_whole(u);
    lemma_scaled(u, g);
    assert(u * g <= t * o) by (nonlinear_arith)
        requires
            0 <= u <= t,
            0 <= g <= o,
    ;
    lemma_level_bounds(double::product(u * o, g));
    let r = ramp::applied_value(u, g);
    lemma_close(value, u, r, p, g, o, e, t);
}

proof fn lemma_close(v: int, u: int, r: int, p: int, g: int, o: int, e: int, t: int)
    requires
        0 <= v <= p,
        0 < p,
        0 <= g <= o,
        0 < e,
        o == 0x8_0000_0000 * e,
        t == 65535,
        2 * (t * g) <= 2 * (p * o) + o + 2 * e,
        2 * (t * g) >= 2 * (p * o) - o - 2 * e,
        2 * (u * o) * p <= 2 * (v * o) * t + o * p + 0x2_0002 * (e * p),
        2 * (u * o) * p >= 2 * (v * o) * t - o * p - 0x2_0002 * (e * p),
        2 * (r * o) <= 2 * (u * g) + o + 2 * e,
        2 * (r * o) >= 2 * (u * g) - o - 2 * e,
    ensures
        -1 <= r - v <= 1,
{
    let d = 0x2_0002 * e;
    let unit = o * p;
    let x = 2 * (u * o) * p;
    let y = 2 * (v * o) * t;
    let z = v * o;
    assert(unit > 0) by (nonlinear_arith)
        requires
            unit == o * p,
            o > 0,
            p > 0,
    ;
    assert(0x2_0002 * (e * p) == d * p) by (nonlinear_arith)
        requires
            d == 0x2_0002 * e,
    ;
    // Times the gain.
    assert(x * g <= y * g + (o + d) * p * g) by (nonlinear_arith)
        requires
            x <= y + o * p + d * p,
            g >= 0,
    ;
    assert(x * g >= y * g - (o + d) * p * g) by (nonlinear_arith)
        requires
            x >= y - o * p - d * p,
            g >= 0,
    ;
    assert((o + d) * p * g <= (o + d) * unit) by (nonlinear_arith)
        requires
            unit == o * p,
            g <= o,
            p > 0,
            o > 0,
            d > 0,
    ;
    // The peak stands for the gain.
    assert(y * g == z * (2 * (t * g))) by (nonlinear_arith)
        requires
            y == 2 * z * t,
    ;
    assert(0 <= z && z <= unit) by (nonlinear_arith)
        requires
            z == v * o,
            unit == o * p,
            0 <= v <= p,
            o > 0,
    ;
    let w = o + 2 * e;
    assert(z * (2 * (t * g)) <= z * (2 * (p * o)) + w * unit) by (nonlinear_arith)
        requires
            2 * (t * g) <= 2 * (p * o) + w,
            0 <= z <= unit,
            w > 0,
    ;
    assert(z * (2 * (t * g)) >= z * (2 * (p * o)) - w * unit) by (nonlinear_arith)
        requires
            2 * (t * g) >= 2 * (p * o) - w,
            0 <= z <= unit,
            w > 0,
    ;
    assert(z * (2 * (p * o)) == (2 * z) * unit) by (nonlinear_arith)
        requires
            unit == o * p,
    ;
    // The last rounding.
    let q = 2 * (u * g);
    assert(q * unit == x * g) by (nonlinear_arith)
        requires
            q == 2 * (u * g),
            unit == o * p,
            x == 2 * (u * o) * p,
    ;
    assert((2 * (r * o)) * unit <= q * unit + w * unit) by (nonlinear_arith)
        requires
            2 * (r * o) <= q + w,
            unit > 0,
    ;
    assert((2 * (r * o)) * unit >= q * unit - w * unit) by (nonlinear_arith)
        requires
            2 * (r * o) >= q - w,
            unit > 0,
    ;
    let most = 2 * w + o + d;
    assert((2 * (r * o)) * unit <= (2 * z + most) * unit) by (nonlinear_arith)
        requires
            (2 * (r * o)) * unit <= (2 * z) * unit + w * unit + (o + d) * unit + w * unit,
            most == 2 * w + o + d,
    ;
    assert((2 * (r * o)) * unit >= (2 * z - most) * unit) by (nonlinear_arith)
        requires
            (2 * (r * o)) * unit >= (2 * z) * unit - w * unit - (o + d) * unit - w * unit,
            most == 2 * w + o + d,
    ;
    assert(2 * (r * o) <= 2 * z + most && 2 * (r * o) >= 2 * z - most) by (nonlinear_arith)
        requires
            (2 * (r * o)) * unit <= (2 * z + most) * unit,
            (2 * (r * o)) * unit >= (2 * z - most) * unit,
            unit > 0,
    ;
    assert(most < 4 * o);
    assert(-1 <= r - v <= 1) by (nonlinear_arith)
        requires
            2 * (r * o) <= 2 * (v * o) + most,
            2 * (r * o) >= 2 * (v * o) - most,
            most < 4 * o,
            o > 0,
    ;
}

/// The lookup table of evenly rising curves with the given gains.
pub open spec fn linear_lut(size: int, gains: Seq<int>) -> Seq<Seq<u16>> {
    Seq::new(3, |channel: int| ramp::linear_curve(size, gains[channel]))
}

/// Applying gains to the neutralized form of a table that already has them restores the table,
/// up to one unit of rounding: the gains do not compound.
pub proof fn law_reapplying_gains_does_not_compound(size: int, gains: Seq<int>, channel: int, index: int)
    requires
        0 <= channel < 3,
        gains.len() == 3,
        forall|c: int|
            0 <= c < 3 ==> 0 <= #[trigger] gains[c] <= double::one() && double_laws::is_number(
                gains[c],
            ),
        0 <= index < size,
    ensures
        ramp::neutral_curve(linear_lut(size, gains), channel).len() == size,
        ({
            let existing = linear_lut(size, gains)[channel][index] as int;
            let reapplied = ramp::applied_curve(
                ramp::neutral_curve(linear_lut(size, gains), channel),
                gains[channel],
            )[index] as int;
            -1 <= reapplied - existing <= 1
        }),
{
    let lut = linear_lut(size, gains);
    let gain = gains[channel];
    let existing = ramp::linear_value(size, gain, index);
    lemma_linear_rises(size, gain, index, index);
    assert(lut[channel][index] == existing);
    let neutral = ramp::neutral_curve(lut, channel);
    assert(lut[0] == ramp::linear_curve(size, gains[0]));
    assert(lut[1] == ramp::linear_curve(size, gains[1]));
    assert(lut[2] == ramp::linear_curve(size, gains[2]));
    if size == 1 {
        assert forall|c: int| 0 <= c < 3 implies ramp::peak(#[trigger] lut[c]) == 0 by {
            lemma_single(gains[c]);
            let curve = ramp::linear_curve(size, gains[c]);
            assert(lut[c] == curve);
            assert(curve.drop_last() =~= Seq::<u16>::empty());
            assert(ramp::peak(curve.drop_last()) == 0);
            assert(curve.last() == 0);
        }
        double_laws::lemma_whole(1);
        lemma_single(double::one());
        lemma_single(gain);
        assert(neutral[index] == 0);
        double_laws::lemma_whole(0);
        assert(0 * double::one() == 0);
        lemma_nothing_product(gain);
        double_laws::lemma_round_to(0, 0);
    } else {
        lemma_linear_peak(size, gain);
        let peak = ramp::peak(lut[channel]);
        lemma_linear_rises(size, gain, index, size - 1);
        let value = neutral[index] as int;
        double_laws::lemma_whole(value);
        lemma_top();
        let o = double::one();
        assert(0 <= value * o <= TOP * o) by (nonlinear_arith)
            requires
                0 <= value <= TOP,
                o > 0,
        ;
        double_laws::lemma_product_order(value * o, gain, TOP * o, gain);
        lemma_level_order(double::product(value * o, gain), double::product(TOP * o, gain));
        assert(double::product(TOP * o, gain) == double::product(gain, top())) by {
            assert((TOP * o) * gain == gain * (TOP * o)) by (nonlinear_arith);
        }
        if peak > 0 {
            lemma_stretched_value(existing, peak);
            lemma_three_roundings(existing, gain);
            assert(value == ramp::stretched_value(existing, peak));
        } else {
            assert(existing == 0);
            assert(ramp::applied_value(value, gain) <= highest(gain));
        }
    }
}

proof fn lemma_nothing_product(number: int)
    ensures
        double::product(0, number) == 0,
{
    lemma_product_nothing(number);
    assert(0 * number == number * 0);
}

/// A curve of one value is dark.
proof fn lemma_single(gain: int)
    ensures
        ramp::linear_value(1, gain, 0) == 0,
{
    lemma_nothing_product(gain);
    lemma_nothing_product(top());
    lemma_top();
    double_laws::lemma_round_to(0, 0);
}

/// A peak above zero is one of the values.
proof fn lemma_peak_is_reached(curve: Seq<u16>) -> (at: int)
    requires
        ramp::peak(curve) > 0,
    ensures
        0 <= at < curve.len(),
        curve[at] == ramp::peak(curve),
    decreases curve.len(),
{
    let front = curve.drop_last();
    if curve.last() > ramp::peak(front) {
        curve.len() - 1
    } else {
        let at = lemma_peak_is_reached(front);
        assert(front[at] == curve[at]);
        at
    }
}

/// A peak is stretched to the top.
proof fn lemma_stretched_peak(peak: int)
    requires
        0 < peak <= TOP,
    ensures
        ramp::stretched_value(peak, peak) == TOP,
{
    double_laws::lemma_whole(peak);
    lemma_top();
    let o = double::one();
    assert(peak * o > 0) by (nonlinear_arith)
        requires
            peak > 0,
            o > 0,
    ;
    double_laws::lemma_quotient_same(peak * o);
    double_laws::lemma_product_one(top());
    double_laws::lemma_round_to(TOP * o, TOP as int);
}

/// Stretching a curve that is not all dark brings its peak to the top, and doing so again changes
/// nothing.
proof fn lemma_stretched(curve: Seq<u16>)
    requires
        ramp::peak(curve) > 0,
    ensures
        ramp::peak(ramp::stretched_curve(curve)) == TOP,
        ramp::stretched_curve(ramp::stretched_curve(curve)) == ramp::stretched_curve(curve),
{
    let top = ramp::peak(curve);
    let stretched = ramp::stretched_curve(curve);
    let at = lemma_peak_is_reached(curve);
    ramp::lemma_peak(curve);
    lemma_stretched_peak(top);
    assert(stretched[at] == TOP);
    ramp::lemma_peak(stretched);
    lemma_full_curve(stretched);
}

/// A curve that reaches the top is not stretched.
proof fn lemma_full_curve(curve: Seq<u16>)
    requires
        ramp::peak(curve) == TOP,
    ensures
        ramp::stretched_curve(curve) == curve,
{
    double_laws::lemma_slack();
    let o = double::one();
    let e = double_laws::slack();
    assert forall|i: int| 0 <= i < curve.len() implies ramp::stretched_value(
        curve[i] as int,
        TOP as int,
    ) == curve[i] by {
        let value = curve[i] as int;
        lemma_stretched_value(value, TOP as int);
        let again = ramp::stretched_value(value, TOP as int);
        assert(2 * (again * o) * 65535 == 131070 * (again * o)) by (nonlinear_arith);
        assert(2 * (value * o) * 65535 == 131070 * (value * o)) by (nonlinear_arith);
        assert(-o < again * o - value * o < o);
        assert(again == value) by (nonlinear_arith)
            requires
                -o < again * o - value * o < o,
                o > 0,
        ;
    }
    assert(ramp::stretched_curve(curve) =~= curve);
}

/// The neutralized form of a lookup table.
pub open spec fn neutral_lut(lut: Seq<Seq<u16>>) -> Seq<Seq<u16>> {
    Seq::new(3, |channel: int| ramp::neutral_curve(lut, channel))
}

/// A neutralized table is neutral: its curves reach the top unless they have no room to rise, and
/// neutralizing it again changes nothing.
pub proof fn law_neutralizing_twice_changes_nothing(lut: Seq<Seq<u16>>, channel: int)
    requires
        lut.len() == 3,
        lut[0].len() == lut[1].len() == lut[2].len(),
        0 <= channel < 3,
    ensures
        lut[0].len() >= 2 ==> ramp::peak(neutral_lut(lut)[channel]) == TOP,
        ramp::neutral_curve(neutral_lut(lut), channel) == neutral_lut(lut)[channel],
{
    let neutral = neutral_lut(lut);
    let size = lut[0].len() as int;
    assert(neutral[channel] == ramp::neutral_curve(lut, channel));
    if ramp::top_peak(lut) > 0 {
        lemma_stretched(lut[ramp::source(lut, channel)]);
        lemma_full_curve(neutral[channel]);
    } else {
        ramp::lemma_peak(lut[0]);
        ramp::lemma_peak(lut[1]);
        ramp::lemma_peak(lut[2]);
        let even = ramp::linear_curve(size, double::one());
        assert(neutral[0] == even && neutral[1] == even && neutral[2] == even);
        if size >= 2 {
            double_laws::lemma_whole(1);
            lemma_top();
            lemma_linear_peak(size, double::one());
            double_laws::lemma_product_one(top());
            double_laws::lemma_round_to(TOP * double::one(), TOP as int);
            assert(ramp::peak(even) == TOP);
            lemma_full_curve(even);
        } else if size == 1 {
            lemma_single(double::one());
            assert(even.drop_last() =~= Seq::<u16>::empty());
            assert(ramp::peak(even.drop_last()) == 0);
            assert(even.last() == 0);
        } else {
            assert(even =~= Seq::<u16>::empty());
        }
    }
}

/// The channel gains at a dim percentage and a temperature.
pub open spec fn channel_gains(points: WhitePoints, dim: u64, temperature: u64) -> Seq<int> {
    Seq::new(3, |channel: int| points.gain(dim, temperature, channel))
}

/// The dimming of a generated table is estimated exactly, at every temperature; a dim percentage
/// above 100 counts as 100, and a table without light is neutral.
pub proof fn law_generated_dimming_is_estimated(
    points: WhitePoints,
    size: int,
    dim: u64,
    temperature: u64,
    controls: (u64, u64),
)
    requires
        points.valid(),
        size >= 2,
        ramp::represents(
            points,
            linear_lut(size, channel_gains(points, dim, temperature)),
            controls,
        ),
    ensures
        controls.0 == (if dim <= 100 {
            dim
        } else {
            100
        }),
        dim >= 100 ==> controls == (100u64, ramp::NEUTRAL_TEMPERATURE),
{
    let gains = channel_gains(points, dim, temperature);
    let lut = linear_lut(size, gains);
    let full = ramp::intensity(dim);
    let clamped = ramp::clamped_temperature(temperature);
    let white = points.gains[clamped - ramp::MIN_TEMPERATURE];
    assert(ramp::has_full(white));
    let full_channel = if white@[0] == double::ONE_BITS {
        0int
    } else if white@[1] == double::ONE_BITS {
        1
    } else {
        2
    };
    assert(points.bits(clamped, full_channel) == double::ONE_BITS);
    double::lemma_one_bits();
    lemma_intensity(dim);
    double_laws::lemma_product_one(full);
    assert(gains[full_channel] == full);
    lemma_top();
    let best = highest(full);
    assert forall|channel: int| 0 <= channel < 3 implies ramp::peak(#[trigger] lut[channel]) <= best by {
        lemma_white(points, temperature, channel);
        lemma_gain(points, dim, temperature, channel);
        let gain = gains[channel];
        double_laws::lemma_product_order(
            points.white(clamped, channel),
            full,
            double::one(),
            full,
        );
        lemma_linear_peak(size, gain);
        double_laws::lemma_product_order(gain, top(), full, top());
        lemma_level_order(double::product(gain, top()), double::product(full, top()));
        assert(lut[channel] == ramp::linear_curve(size, gain));
    }
    lemma_linear_peak(size, full);
    assert(lut[full_channel] == ramp::linear_curve(size, full));
    assert(ramp::peak(lut[0]) <= best && ramp::peak(lut[1]) <= best && ramp::peak(lut[2]) <= best);
    assert(ramp::peak(lut[full_channel]) == best);
    assert(ramp::top_peak(lut) == best);
    lemma_dim_of_peak(dim);
}

/// The dimming is estimated from the peak that it leads to.
proof fn lemma_dim_of_peak(dim: u64)
    ensures
        ({
            let peak = highest(ramp::intensity(dim));
            &&& peak == 0 <==> dim >= 100
            &&& dim < 100 ==> ramp::estimated_dim(peak) == dim
        }),
{
    lemma_intensity(dim);
    lemma_top();
    double_laws::lemma_slack();
    let o = double::one();
    let e = double_laws::slack();
    let left = ramp::remainder(dim);
    let full = ramp::intensity(dim);
    if dim >= 100 {
        lemma_nothing_product(top());
        double_laws::lemma_round_to(0, 0);
    } else {
        // What is left of the light.
        double_laws::lemma_whole(left);
        double_laws::lemma_whole(100);
        lemma_share(left, 100);
        // The peak.
        lemma_scaled(TOP as int, full);
        assert(TOP * full <= TOP * o);
        lemma_level_bounds(double::product(full, top()));
        let peak = highest(full);
        assert(100 * (peak * o) <= 65535 * (left * o) + 51 * o);
        assert(100 * (peak * o) >= 65535 * (left * o) - 51 * o);
        assert(100 * peak <= 65535 * left + 51 && 100 * peak >= 65535 * left - 51)
            by (nonlinear_arith)
            requires
                100 * (peak * o) <= 65535 * (left * o) + 51 * o,
                100 * (peak * o) >= 65535 * (left * o) - 51 * o,
                o > 0,
        ;
        // The estimate.
        double_laws::lemma_whole(peak);
        lemma_share(peak, TOP as int);
        let share = double::quotient(peak * o, TOP * o);
        let n = o - share;
        assert(n <= 0x2_0000 * o * 1);
        double_laws::lemma_small_error(n, 1);
        let rest = double::distance(o, share);
        assert(-e <= rest - n <= e);
        double_laws::lemma_closest_is_number(n, 1);
        lemma_scaled(100, rest);
        let number = double::product(100 * o, rest);
        let d = dim as int;
        assert(65535 * share <= peak * o + 65535 * e && 65535 * share >= peak * o - 65535 * e);
        assert(left == 100 - d);
        assert(65535 * (left * o) == 6553500 * o - 65535 * (d * o)) by (nonlinear_arith)
            requires
                left == 100 - d,
        ;
        assert(100 * (peak * o) <= 6553500 * o - 65535 * (d * o) + 51 * o);
        assert(100 * (peak * o) >= 6553500 * o - 65535 * (d * o) - 51 * o);
        assert(-o <= 2 * (number - d * o) < o);
        double_laws::lemma_round_to(number, d);
    }
}

proof fn lemma_dark_peak(curve: Seq<u16>)
    requires
        forall|index: int| 0 <= index < curve.len() ==> curve[index] == 0,
    ensures
        ramp::peak(curve) == 0,
    decreases curve.len(),
{
    if curve.len() > 0 {
        lemma_dark_peak(curve.drop_last());
    }
}

/// A table whose values are all zero, or that has none, counts as fully dimmed and neutral.
pub proof fn law_dark_tables_are_fully_dimmed(
    points: WhitePoints,
    lut: Seq<Seq<u16>>,
    controls: (u64, u64),
)
    requires
        lut.len() == 3,
        forall|channel: int, index: int|
            0 <= channel < 3 && 0 <= index < lut[channel].len() ==> #[trigger] lut[channel][index] == 0,
        ramp::represents(points, lut, controls),
    ensures
        controls == (100u64, ramp::NEUTRAL_TEMPERATURE),
{
    lemma_dark_peak(lut[ramp::reference(lut)]);
}

} // verus!
