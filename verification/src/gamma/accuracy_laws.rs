//! How close gamma ramps come to what they stand for.

use vstd::prelude::*;

use crate::double;
use crate::double_laws;

use super::ramp;
use super::ramp::WhitePoints;
use super::ramp_laws;

verus! {

/// A ratio of integers is close to the exact one.
proof fn lemma_ratio(value: int, whole: int)
    requires
        0 <= value <= whole,
        0 < whole < double::LIMIT,
    ensures
        ({
            let share = double::quotient(double::whole(value), double::whole(whole));
            &&& -(double_laws::fine() * whole) <= share * whole - value * double::one()
                <= double_laws::fine() * whole
            &&& 0 <= share <= double::one()
        }),
{
    double_laws::lemma_fine();
    double_laws::lemma_whole(value);
    double_laws::lemma_whole(whole);
    let o = double::one();
    let f = double_laws::fine();
    let d = whole * o;
    let n = (value * o) * o;
    assert(0 < d && 0 <= value * o <= d) by (nonlinear_arith)
        requires
            d == whole * o,
            0 <= value <= whole,
            whole > 0,
            o > 0,
    ;
    assert(0 <= n <= 4 * o * d) by (nonlinear_arith)
        requires
            n == (value * o) * o,
            0 <= value * o <= d,
            o > 0,
    ;
    double_laws::lemma_fine_error(n, d);
    let share = double::closest(n, d);
    let off = share * whole - value * o;
    assert(off * o == share * d - n) by (nonlinear_arith)
        requires
            off == share * whole - value * o,
            d == whole * o,
            n == (value * o) * o,
    ;
    assert(f * d == (f * whole) * o) by (nonlinear_arith)
        requires
            d == whole * o,
    ;
    double_laws::lemma_divide(off, f * whole, o);
    double_laws::lemma_quotient_order(value * o, d, d);
    double_laws::lemma_quotient_same(d);
}

/// A product of numbers up to one is close to the exact one.
proof fn lemma_product_close(left: int, right: int)
    requires
        0 <= left <= double::one(),
        0 <= right <= double::one(),
    ensures
        ({
            let off = double::product(left, right) * double::one() - left * right;
            -(double_laws::fine() * double::one()) <= off <= double_laws::fine() * double::one()
        }),
        0 <= double::product(left, right) <= double::one(),
{
    double_laws::lemma_whole(1);
    let o = double::one();
    let n = left * right;
    assert(0 <= n <= o * o && o * o <= 4 * o * o) by (nonlinear_arith)
        requires
            n == left * right,
            0 <= left <= o,
            0 <= right <= o,
    ;
    double_laws::lemma_fine_error(n, o);
    double_laws::lemma_product_order(left, right, o, o);
    double_laws::lemma_product_one(o);
}

/// The gain of a channel is that of the temperature, brought within range, times what the dimming
/// leaves, but for rounding by less than a part in `2` to the power of 40.
pub proof fn law_gains_follow_the_controls(
    points: WhitePoints,
    dim: u64,
    temperature: u64,
    channel: int,
)
    requires
        points.valid(),
        0 <= channel < 3,
    ensures
        ({
            let place = if temperature < 1000 {
                0int
            } else if temperature > 25000 {
                24000
            } else {
                temperature - 1000
            };
            let white = double::steps_of(points.gains@[place]@[channel]);
            let left = if dim < 100 {
                100 - dim
            } else {
                0int
            };
            let off = 100 * points.gain(dim, temperature, channel) - white * left;
            -double::one() <= 0x100_0000_0000 * off <= double::one()
        }),
{
    double_laws::lemma_fine();
    ramp_laws::lemma_white(points, temperature, channel);
    let (o, f) = (double::one(), double_laws::fine());
    let left = ramp::remainder(dim);
    let white = points.white(ramp::clamped_temperature(temperature), channel);
    lemma_ratio(left, 100);
    let part = ramp::intensity(dim);
    lemma_product_close(white, part);
    let gain = points.gain(dim, temperature, channel);
    let off = 100 * gain - white * left;
    // The error of what is left, and that of the product.
    let (first, second) = (part * 100 - left * o, gain * o - white * part);
    assert(off * o == 100 * second + white * first) by (nonlinear_arith)
        requires
            off == 100 * gain - white * left,
            first == part * 100 - left * o,
            second == gain * o - white * part,
    ;
    assert(-((100 * f) * o) <= white * first <= (100 * f) * o) by (nonlinear_arith)
        requires
            -(f * 100) <= first <= f * 100,
            0 <= white <= o,
            f > 0,
    ;
    assert((200 * f) * o == 200 * (f * o) && (100 * f) * o == 100 * (f * o)) by (nonlinear_arith);
    double_laws::lemma_divide(off, 200 * f, o);
}

/// A value of a table that a gain is applied to becomes the integer closest to their product, but for
/// rounding by less than a part in `2` to the power of 30.
pub proof fn law_applied_values_are_scaled(value: u16, gain: int)
    requires
        0 <= gain <= double::one(),
    ensures
        ({
            let off = ramp::applied_value(value as int, gain) * double::one() - value * gain;
            &&& -(double::one() + 2 * double_laws::slack()) <= 2 * off
            &&& 2 * off <= double::one() + 2 * double_laws::slack()
        }),
        double::one() == 0x8_0000_0000 * double_laws::slack(),
        0 <= ramp::applied_value(value as int, gain) <= value,
{
    double_laws::lemma_slack();
    double_laws::lemma_whole(value as int);
    ramp_laws::lemma_scaled(value as int, gain);
    let (o, e) = (double::one(), double_laws::slack());
    assert(0 <= value * gain <= value * o && value * o <= 65535 * o) by (nonlinear_arith)
        requires
            0 <= gain <= o,
            0 <= value <= 65535,
    ;
    ramp_laws::lemma_level_bounds(double::product(value * o, gain));
    let applied = ramp::applied_value(value as int, gain);
    assert(applied <= value) by (nonlinear_arith)
        requires
            2 * (applied * o) <= 2 * (value * o) + o + 2 * e,
            2 * e < o,
            o > 0,
    ;
}

/// The values of an evenly rising curve are where they belong: the one at an index is the integer
/// closest to the share of the way times the gain times the greatest value, but for rounding by less
/// than a part in `2` to the power of 30.
pub proof fn law_even_curves_rise_evenly(size: int, gain: int, index: int)
    requires
        2 <= size < double::LIMIT,
        0 <= index < size,
        0 <= gain <= double::one(),
    ensures
        ({
            let steps = size - 1;
            let off = (ramp::linear_value(size, gain, index) * double::one()) * steps - 65535 * (index
                * gain);
            let bound = (double::one() + 16 * double_laws::slack()) * steps;
            -bound <= 2 * off <= bound
        }),
        double::one() == 0x8_0000_0000 * double_laws::slack(),
{
    double_laws::lemma_slack();
    double_laws::lemma_fine();
    ramp_laws::lemma_top();
    let (o, e, f) = (double::one(), double_laws::slack(), double_laws::fine());
    let steps = size - 1;
    lemma_ratio(index, steps);
    let place = ramp::position(size, index);
    lemma_product_close(place, gain);
    let part = double::product(place, gain);
    ramp_laws::lemma_scaled(65535, part);
    let number = double::product(part, ramp_laws::top());
    assert(65535 * part <= 65535 * o);
    ramp_laws::lemma_level_bounds(number);
    let value = ramp::linear_value(size, gain, index);
    let off = (value * o) * steps - 65535 * (index * gain);
    let high = value * o - 65535 * part;
    assert(-(o + 2 * e) <= 2 * high <= o + 2 * e);
    let middle = part * o - place * gain;
    let low = place * steps - index * o;
    // The three errors, each on its scale.
    let (hs, ps, ig, pl) = (high * steps, part * steps, index * gain, place * steps);
    assert(hs == (value * o) * steps - 65535 * ps) by (nonlinear_arith)
        requires
            hs == (value * o - 65535 * part) * steps,
            ps == part * steps,
    ;
    assert(middle * steps == ps * o - pl * gain) by (nonlinear_arith)
        requires
            middle == part * o - place * gain,
            ps == part * steps,
            pl == place * steps,
    ;
    assert(low * gain == pl * gain - ig * o) by (nonlinear_arith)
        requires
            low == pl - index * o,
            ig == index * gain,
    ;
    assert(off * o == hs * o + 65535 * (ps * o) - 65535 * (ig * o)) by (nonlinear_arith)
        requires
            off == hs + 65535 * ps - 65535 * ig,
    ;
    let bound = (o + 2 * e) * steps;
    assert(-bound <= 2 * (high * steps) <= bound) by (nonlinear_arith)
        requires
            -(o + 2 * e) <= 2 * high <= o + 2 * e,
            bound == (o + 2 * e) * steps,
            steps > 0,
    ;
    let fine = (f * steps) * o;
    assert(-fine <= middle * steps <= fine) by (nonlinear_arith)
        requires
            -(f * o) <= middle <= f * o,
            fine == (f * steps) * o,
            steps > 0,
    ;
    assert(-fine <= low * gain <= fine) by (nonlinear_arith)
        requires
            -(f * steps) <= low <= f * steps,
            fine == (f * steps) * o,
            0 <= gain <= o,
            f > 0,
            steps > 0,
    ;
    let whole = (o + 16 * e) * steps;
    let (fs, es) = (f * steps, e * steps);
    assert(es == 0x8000 * fs) by (nonlinear_arith)
        requires
            e == 0x8000 * f,
            fs == f * steps,
            es == e * steps,
    ;
    assert(whole == bound + 14 * es) by (nonlinear_arith)
        requires
            whole == (o + 16 * e) * steps,
            bound == (o + 2 * e) * steps,
            es == e * steps,
    ;
    assert(fs > 0) by (nonlinear_arith)
        requires
            fs == f * steps,
            f > 0,
            steps > 0,
    ;
    let most = bound + 4 * (65535 * fs);
    assert(-(most * o) <= (2 * off) * o <= most * o) by (nonlinear_arith)
        requires
            off * o == (high * steps) * o + 65535 * (middle * steps) + 65535 * (low * gain),
            -bound <= 2 * (high * steps) <= bound,
            -(fs * o) <= middle * steps <= fs * o,
            -(fs * o) <= low * gain <= fs * o,
            most == bound + 4 * (65535 * fs),
            o > 0,
    ;
    double_laws::lemma_divide(2 * off, most, o);
}

/// A value of a curve is stretched in proportion: its share of the peak becomes its share of the
/// greatest value, to the closest integer, but for rounding by less than a part in `2` to the power of
/// 17.
pub proof fn law_curves_are_stretched_in_proportion(value: u16, peak: u16)
    requires
        value <= peak,
        0 < peak,
    ensures
        ({
            let stretched = ramp::stretched_value(value as int, peak as int);
            let (o, e) = (double::one(), double_laws::slack());
            let off = 2 * (stretched * o) * peak - 2 * (value * o) * 65535;
            &&& -(o * peak + 0x2_0002 * (e * peak)) <= off
            &&& off <= o * peak + 0x2_0002 * (e * peak)
            &&& value == peak ==> stretched == 65535
            &&& value == 0 ==> stretched == 0
        }),
        double::one() == 0x8_0000_0000 * double_laws::slack(),
{
    double_laws::lemma_slack();
    ramp_laws::lemma_stretched_value(value as int, peak as int);
    let stretched = ramp::stretched_value(value as int, peak as int);
    let (o, e) = (double::one(), double_laws::slack());
    let p = peak as int;
    let so = stretched * o;
    if value == peak {
        let (s, vo) = (2 * so * p, 2 * (value * o) * 65535);
        assert(stretched >= 65535) by (nonlinear_arith)
            requires
                2 * so * p >= 2 * (p * o) * 65535 - o * p - 0x2_0002 * (e * p),
                so == stretched * o,
                o == 0x8_0000_0000 * e,
                p > 0,
                e > 0,
        ;
    }
    if value == 0 {
        assert(0 * o == 0);
        assert(stretched <= 0) by (nonlinear_arith)
            requires
                2 * so * p <= o * p + 0x2_0002 * (e * p),
                so == stretched * o,
                o == 0x8_0000_0000 * e,
                p > 0,
                e > 0,
        ;
    }
}

/// The peak of a curve is its greatest value.
pub proof fn law_peaks_are_greatest(curve: Seq<u16>, at: int)
    ensures
        0 <= at < curve.len() ==> curve[at] <= ramp::peak(curve),
        curve.len() > 0 ==> exists|i: int| 0 <= i < curve.len() && #[trigger] curve[i] == ramp::peak(
            curve,
        ),
        curve.len() == 0 ==> ramp::peak(curve) == 0,
    decreases curve.len(),
{
    if curve.len() > 0 {
        let front = curve.drop_last();
        let last = curve.len() - 1;
        law_peaks_are_greatest(front, at);
        if curve[last] > ramp::peak(front) {
            assert(curve[last] == ramp::peak(curve));
        } else if front.len() > 0 {
            let i = choose|i: int| 0 <= i < front.len() && #[trigger] front[i] == ramp::peak(front);
            assert(curve[i] == ramp::peak(curve));
        } else {
            assert(curve[last] == ramp::peak(curve));
        }
        if 0 <= at < front.len() {
            assert(front[at] == curve[at]);
        }
    }
}

/// The brightest channel has the greatest peak of all.
pub proof fn law_the_brightest_channel_leads(lut: Seq<Seq<u16>>, channel: int)
    requires
        0 <= channel < 3,
    ensures
        0 <= ramp::reference(lut) < 3,
        ramp::peak(lut[channel]) <= ramp::top_peak(lut),
        ramp::top_peak(lut) == ramp::peak(lut[ramp::reference(lut)]),
        channel > ramp::reference(lut) ==> ramp::peak(lut[channel]) < ramp::top_peak(lut),
{
}

/// Neutralizing stretches the curve of each channel by itself. A channel without light takes over the
/// brightest one, and a table without any light becomes an even one.
pub proof fn law_neutralizing_keeps_the_curves(lut: Seq<Seq<u16>>, channel: int, index: int)
    requires
        lut.len() == 3,
        0 <= channel < 3,
        lut[0].len() == lut[1].len() == lut[2].len(),
        0 <= index < lut[channel].len(),
    ensures
        ({
            let curve = ramp::neutral_curve(lut, channel);
            let top = ramp::peak(lut[channel]);
            let all = ramp::top_peak(lut);
            &&& curve.len() == lut[channel].len()
            &&& top > 0 ==> curve[index] == ramp::stretched_value(lut[channel][index] as int, top)
            &&& top == 0 && all > 0 ==> curve[index] == ramp::stretched_value(
                lut[ramp::reference(lut)][index] as int,
                all,
            )
            &&& all == 0 ==> curve[index] == ramp::linear_value(
                lut[channel].len() as int,
                double::one(),
                index,
            )
        }),
{
    law_the_brightest_channel_leads(lut, 0);
    law_the_brightest_channel_leads(lut, 1);
    law_the_brightest_channel_leads(lut, 2);
    ramp::lemma_peak(lut[0]);
    ramp::lemma_peak(lut[1]);
    ramp::lemma_peak(lut[2]);
    let source = ramp::source(lut, channel);
    let top = ramp::peak(lut[source]);
    if top > 0 {
        let value = lut[source][index];
        assert(value <= top);
        ramp_laws::lemma_stretched_value(value as int, top);
    } else {
        double_laws::lemma_whole(1);
        ramp_laws::lemma_linear_rises(lut[channel].len() as int, double::one(), index, index);
    }
}

/// The dim percentage of a table is what its greatest value lacks, to the closest percent, but for
/// rounding by less than a part in `2` to the power of 16.
pub proof fn law_dimming_is_what_is_missing(top: u16)
    ensures
        ({
            let dim = ramp::estimated_dim(top as int);
            let off = 65535 * dim - 100 * (65535 - top);
            &&& 0 <= dim <= 100
            &&& -65536 <= 2 * off <= 65536
        }),
{
    double_laws::lemma_slack();
    ramp_laws::lemma_top();
    double_laws::lemma_whole(top as int);
    double_laws::lemma_whole(100);
    let (o, e) = (double::one(), double_laws::slack());
    ramp_laws::lemma_share(top as int, 65535);
    let share = double::quotient(top * o, 65535 * o);
    let n = o - share;
    double_laws::lemma_small_error(n, 1);
    let rest = double::distance(o, share);
    assert(-e <= rest - n <= e);
    double_laws::lemma_closest_is_number(n, 1);
    ramp_laws::lemma_scaled(100, rest);
    let number = double::product(100 * o, rest);
    double_laws::lemma_round_bounds(number);
    double_laws::lemma_round_order(0, number);
    let rounded = double::round(number);
    let dim = ramp::estimated_dim(top as int);
    let ro = rounded * o;
    assert(2 * (65535 * ro) <= 200 * (65535 * o - top * o) + 65535 * o + 30_000_000 * e);
    assert(2 * (65535 * ro) >= 200 * (65535 * o - top * o) - 65535 * o - 30_000_000 * e);
    let off = 65535 * rounded - 100 * (65535 - top);
    assert(off * o == 65535 * ro - 100 * (65535 * o - top * o)) by (nonlinear_arith)
        requires
            off == 65535 * rounded - 100 * (65535 - top),
            ro == rounded * o,
    ;
    assert(-65536 <= 2 * off <= 65536) by (nonlinear_arith)
        requires
            -(65536 * o) <= 2 * (off * o) <= 65536 * o,
            o > 0,
    ;
}

/// The squared distance between a gain and a share, times the square of the whole, is close to the
/// exact one.
proof fn lemma_squared(white: int, value: int, top: int)
    requires
        0 <= white <= double::one(),
        0 <= value <= top,
        0 < top <= 65535,
    ensures
        ({
            let observed = double::quotient(double::whole(value), double::whole(top));
            let off = double::distance(white, observed);
            let squared = double::product(off, off);
            let exact = white * top - value * double::one();
            let (o, f) = (double::one(), double_laws::fine());
            &&& 0 <= squared <= o
            &&& -(5 * (f * o * (top * top))) <= squared * o * (top * top) - exact * exact
            &&& squared * o * (top * top) - exact * exact <= 5 * (f * o * (top * top))
        }),
{
    double_laws::lemma_fine();
    double_laws::lemma_whole(1);
    let (o, f) = (double::one(), double_laws::fine());
    lemma_ratio(value, top);
    let observed = double::quotient(double::whole(value), double::whole(top));
    let n = if white >= observed {
        white - observed
    } else {
        observed - white
    };
    double_laws::lemma_fine_error(n, 1);
    double_laws::lemma_product_one(o);
    double_laws::law_rounding_keeps_the_order(n, 1, o, 1);
    let off = double::distance(white, observed);
    assert(off == double::closest(n, 1)) by {
        if white == observed {
        }
    }
    assert(double::closest(o, 1) == o);
    lemma_product_close(off, off);
    let squared = double::product(off, off);
    let exact = white * top - value * o;
    let size = if exact >= 0 {
        exact
    } else {
        -exact
    };
    let (wt, bt) = (white * top, observed * top);
    let nt = n * top;
    assert(nt == (if white >= observed {
        wt - bt
    } else {
        bt - wt
    }) && (white >= observed ==> wt >= bt) && (white < observed ==> wt <= bt)) by (nonlinear_arith)
        requires
            nt == n * top,
            n == (if white >= observed {
                white - observed
            } else {
                observed - white
            }),
            wt == white * top,
            bt == observed * top,
            top > 0,
    ;
    let ft = f * top;
    assert(-ft <= nt - size <= ft);
    let ot = off * top;
    assert(-ft <= ot - nt <= ft) by (nonlinear_arith)
        requires
            -f <= off - n <= f,
            ot == off * top,
            nt == n * top,
            ft == f * top,
            top > 0,
    ;
    let most = o * top;
    assert(0 <= ot <= most && 0 <= size <= most) by (nonlinear_arith)
        requires
            ot == off * top,
            most == o * top,
            0 <= off <= o,
            0 <= white <= o,
            0 <= value <= top,
            top > 0,
            size == white * top - value * o || size == value * o - white * top,
            size >= 0,
    ;
    let gap = ot - size;
    assert(ot * ot - size * size == gap * (ot + size)) by (nonlinear_arith)
        requires
            gap == ot - size,
    ;
    let bound = f * o * (top * top);
    assert(ft * most == bound) by (nonlinear_arith)
        requires
            ft == f * top,
            most == o * top,
            bound == f * o * (top * top),
    ;
    assert(-(4 * (ft * most)) <= gap * (ot + size) <= 4 * (ft * most)) by (nonlinear_arith)
        requires
            -(2 * ft) <= gap <= 2 * ft,
            0 <= ot + size <= 2 * most,
    ;
    assert(size * size == exact * exact) by (nonlinear_arith)
        requires
            size == exact || size == -exact,
    ;
    let (so, oo, tt) = (squared * o, off * off, top * top);
    assert(ot * ot == oo * tt) by (nonlinear_arith)
        requires
            ot == off * top,
            oo == off * off,
            tt == top * top,
    ;
    assert(-bound <= so * tt - oo * tt <= bound) by (nonlinear_arith)
        requires
            -(f * o) <= so - oo <= f * o,
            bound == f * o * tt,
            tt >= 0,
    ;
}

/// How far the gains of a temperature are from the proportions of a table: the sum of the squares of
/// the differences, times the square of the table's greatest value.
pub open spec fn mismatch(points: WhitePoints, lut: Seq<Seq<u16>>, temperature: int) -> int {
    let top = ramp::top_peak(lut);
    let gains = points.gains@[temperature - 1000]@;
    let red = double::steps_of(gains[0]) * top - ramp::peak(lut[0]) * double::one();
    let green = double::steps_of(gains[1]) * top - ramp::peak(lut[1]) * double::one();
    let blue = double::steps_of(gains[2]) * top - ramp::peak(lut[2]) * double::one();
    red * red + green * green + blue * blue
}

proof fn lemma_mismatch(points: WhitePoints, lut: Seq<Seq<u16>>, temperature: int)
    requires
        points.valid(),
        lut.len() == 3,
        ramp::top_peak(lut) > 0,
        1000 <= temperature <= 25000,
    ensures
        ({
            let (o, f) = (double::one(), double_laws::fine());
            let square = ramp::top_peak(lut) * ramp::top_peak(lut);
            let off = ramp::error(points, lut, temperature) * o * square - mismatch(
                points,
                lut,
                temperature,
            );
            -(17 * (f * o * square)) <= off <= 17 * (f * o * square)
        }),
{
    double_laws::lemma_fine();
    double_laws::lemma_whole(1);
    let (o, f) = (double::one(), double_laws::fine());
    let top = ramp::top_peak(lut);
    let tt = top * top;
    ramp::lemma_peak(lut[ramp::reference(lut)]);
    let warmth = temperature as u64;
    assert forall|channel: int| 0 <= channel < 3 implies points.gain(0, warmth, channel)
        == double::steps_of(points.gains@[temperature - 1000]@[channel]) && 0
        <= #[trigger] points.gain(0, warmth, channel) <= o by {
        ramp_laws::lemma_white(points, warmth, channel);
        ramp_laws::lemma_intensity(0);
        let bits = points.gains[temperature - 1000]@[channel];
        assert(bits <= double::ONE_BITS);
        double_laws::lemma_bits_are_number(bits);
        double_laws::lemma_product_one(double::steps_of(bits));
    }
    let (red, green, blue) = (
        points.gain(0, warmth, 0),
        points.gain(0, warmth, 1),
        points.gain(0, warmth, 2),
    );
    law_the_brightest_channel_leads(lut, 0);
    law_the_brightest_channel_leads(lut, 1);
    law_the_brightest_channel_leads(lut, 2);
    ramp::lemma_peak(lut[0]);
    ramp::lemma_peak(lut[1]);
    ramp::lemma_peak(lut[2]);
    lemma_squared(red, ramp::peak(lut[0]), top);
    lemma_squared(green, ramp::peak(lut[1]), top);
    lemma_squared(blue, ramp::peak(lut[2]), top);
    let (a, b, c) = (
        ramp::channel_error(points, lut, temperature, 0),
        ramp::channel_error(points, lut, temperature, 1),
        ramp::channel_error(points, lut, temperature, 2),
    );
    double_laws::lemma_fine_error(a + b, 1);
    let two = double::sum(a, b);
    double_laws::lemma_closest_is_number(a + b, 1);
    double_laws::lemma_fine_error(two + c, 1);
    let all = ramp::error(points, lut, temperature);
    let gap = all - (a + b + c);
    assert(-(2 * f) <= gap <= 2 * f);
    let bound = f * o * tt;
    let ott = o * tt;
    assert(ott >= 0 && f * ott == bound) by (nonlinear_arith)
        requires
            ott == o * tt,
            tt == top * top,
            bound == f * o * tt,
            o > 0,
    ;
    assert(-(2 * (f * ott)) <= gap * ott <= 2 * (f * ott)) by (nonlinear_arith)
        requires
            -(2 * f) <= gap <= 2 * f,
            ott >= 0,
    ;
    assert(all * o * tt == gap * ott + a * o * tt + b * o * tt + c * o * tt) by (nonlinear_arith)
        requires
            gap == all - (a + b + c),
            ott == o * tt,
    ;
}

/// The temperature that a table represents is the one whose gains are closest to the proportions of its
/// channels: no other one is closer, but for rounding by less than a part in `2` to the power of 44.
pub proof fn law_the_closest_temperature_is_estimated(
    points: WhitePoints,
    lut: Seq<Seq<u16>>,
    controls: (u64, u64),
    other: int,
)
    requires
        points.valid(),
        lut.len() == 3,
        ramp::top_peak(lut) > 0,
        ramp::represents(points, lut, controls),
        1000 <= other <= 25000,
    ensures
        1000 <= controls.1 <= 25000,
        mismatch(points, lut, controls.1 as int) <= mismatch(points, lut, other) + 34 * (
        double_laws::fine() * double::one() * (ramp::top_peak(lut) * ramp::top_peak(lut))),
        double::one() == 0x4_0000_0000_0000 * double_laws::fine(),
        controls.1 != other ==> ramp::error(points, lut, controls.1 as int) < ramp::error(
            points,
            lut,
            other,
        ) || controls.1 < other,
{
    double_laws::lemma_fine();
    let chosen = controls.1 as int;
    lemma_mismatch(points, lut, chosen);
    lemma_mismatch(points, lut, other);
    let (o, tt) = (double::one(), ramp::top_peak(lut) * ramp::top_peak(lut));
    let (first, second) = (ramp::error(points, lut, chosen), ramp::error(points, lut, other));
    assert(first <= second);
    assert(first * o * tt <= second * o * tt) by (nonlinear_arith)
        requires
            first <= second,
            o > 0,
            tt >= 0,
    ;
}

/// Gains are applied to a table value by value, and an even curve is made value by value: neither
/// changes the number of values.
pub proof fn law_curves_are_made_value_by_value(curve: Seq<u16>, gain: int, index: int)
    requires
        0 <= index < curve.len(),
        0 <= gain <= double::one(),
    ensures
        ramp::applied_curve(curve, gain).len() == curve.len(),
        ramp::applied_curve(curve, gain)[index] == ramp::applied_value(curve[index] as int, gain),
        ramp::linear_curve(curve.len() as int, gain).len() == curve.len(),
        ramp::linear_curve(curve.len() as int, gain)[index] == ramp::linear_value(
            curve.len() as int,
            gain,
            index,
        ),
{
    law_applied_values_are_scaled(curve[index], gain);
    ramp_laws::lemma_linear_rises(curve.len() as int, gain, index, index);
}

/// The curves of a table are those of its channels, red, green and blue.
pub proof fn law_channels_keep_their_places(lut: ramp::Lut)
    ensures
        ramp::curves(lut).len() == 3,
        ramp::curves(lut)[0] == lut@[0]@,
        ramp::curves(lut)[1] == lut@[1]@,
        ramp::curves(lut)[2] == lut@[2]@,
{
}

/// A table of white points is accepted if it has gains for every temperature from 1000 to 25000, none
/// above one, some channel of each at one, and all channels of the neutral temperature at one.
pub proof fn law_white_points_are_complete(points: WhitePoints)
    ensures
        points.valid() <==> {
            &&& points.gains@.len() == 24001
            &&& forall|i: int|
                0 <= i < 24001 ==> (#[trigger] points.gains@[i])@[0] <= double::ONE_BITS
                    && points.gains@[i]@[1] <= double::ONE_BITS && points.gains@[i]@[2]
                    <= double::ONE_BITS
            &&& forall|i: int|
                0 <= i < 24001 ==> (#[trigger] points.gains@[i])@[0] == double::ONE_BITS
                    || points.gains@[i]@[1] == double::ONE_BITS || points.gains@[i]@[2]
                    == double::ONE_BITS
            &&& points.gains@[5500]@[0] == double::ONE_BITS
            &&& points.gains@[5500]@[1] == double::ONE_BITS
            &&& points.gains@[5500]@[2] == double::ONE_BITS
        },
        double::steps_of(double::ONE_BITS) == double::one(),
{
    double::lemma_one_bits();
    assert(points.bits(6500, 0) == points.gains@[5500]@[0]);
    assert(points.bits(6500, 1) == points.gains@[5500]@[1]);
    assert(points.bits(6500, 2) == points.gains@[5500]@[2]);
    if points.valid() {
        assert forall|i: int| 0 <= i < 24001 implies (#[trigger] points.gains@[i])@[0]
            <= double::ONE_BITS && points.gains@[i]@[1] <= double::ONE_BITS && points.gains@[i]@[2]
            <= double::ONE_BITS by {
            assert(points.gains[i]@[0] <= double::ONE_BITS);
            assert(points.gains[i]@[1] <= double::ONE_BITS);
            assert(points.gains[i]@[2] <= double::ONE_BITS);
        }
        assert forall|i: int| 0 <= i < 24001 implies (#[trigger] points.gains@[i])@[0]
            == double::ONE_BITS || points.gains@[i]@[1] == double::ONE_BITS || points.gains@[i]@[2]
            == double::ONE_BITS by {
            assert(ramp::has_full(points.gains[i]));
        }
    }
}

/// The dim percentage that a table represents is what its greatest value lacks, to the closest percent,
/// and a table without light is fully dimmed at the neutral temperature.
pub proof fn law_the_missing_light_is_estimated(
    points: WhitePoints,
    lut: Seq<Seq<u16>>,
    controls: (u64, u64),
)
    requires
        lut.len() == 3,
        ramp::represents(points, lut, controls),
    ensures
        ({
            let off = 65535 * controls.0 - 100 * (65535 - ramp::top_peak(lut));
            -65536 <= 2 * off <= 65536
        }),
        ramp::top_peak(lut) == 0 ==> controls.0 == 100 && controls.1 == 6500,
{
    ramp::lemma_peak(lut[0]);
    ramp::lemma_peak(lut[1]);
    ramp::lemma_peak(lut[2]);
    law_dimming_is_what_is_missing(ramp::top_peak(lut) as u16);
}

/// A curve of a single value is dark, whatever its gain.
pub proof fn law_single_values_are_dark(gain: int)
    requires
        0 <= gain <= double::one(),
    ensures
        ramp::linear_value(1, gain, 0) == 0,
{
    double_laws::lemma_slack();
    ramp_laws::lemma_top();
    assert(0 * gain == 0) by (nonlinear_arith);
    let top = double::whole(65535);
    assert(0 * top == 0) by (nonlinear_arith);
    double_laws::lemma_whole(0);
    assert(0 * double::one() == 0) by (nonlinear_arith);
    double_laws::lemma_exact_ratio(0, double::one(), 0);
    double_laws::lemma_round_to(0, 0);
}

} // verus!
