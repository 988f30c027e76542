//! What the fitted surface is made of.

use vstd::prelude::*;

use crate::als::Scale;
use crate::double;
use crate::double_laws;
use crate::predictor::AlsDirection;

use super::adaptive::LumaDirection;
use super::monotonic;
use super::monotonic::{Model, Observation, Sample};
use super::surface;

verus! {

/// Conditions are brought within the domain, and mirrored where values shrink as they grow: ambient
/// light to its distance from the greatest coordinate, and luma to its distance from a hundred. A
/// model that ignores luma has it at zero.
pub proof fn law_conditions_are_oriented(model: Model, als: u64, luma: u8)
    requires
        model.well_formed(),
    ensures
        ({
            let within = if als <= model.als_max {
                als
            } else {
                model.als_max
            };
            let percent = if luma <= 100 {
                luma as int
            } else {
                100
            };
            &&& 0 <= model.als_coordinate(als) <= model.als_max
            &&& model.als_direction == AlsDirection::Increasing ==> model.als_coordinate(als) == within
            &&& model.als_direction == AlsDirection::Decreasing ==> double::steps_of(
                model.als_coordinate(als) as u64,
            ) == double::closest(double::steps_of(model.als_max) - double::steps_of(within), 1)
            &&& !model.luma_aware ==> model.luma_coordinate(luma) == 0
            &&& model.luma_aware && model.luma_direction == LumaDirection::Increasing
                ==> model.luma_coordinate(luma) == percent
            &&& model.luma_aware && model.luma_direction == LumaDirection::Decreasing
                ==> model.luma_coordinate(luma) == 100 - percent
        }),
{
    let within = if als <= model.als_max {
        als
    } else {
        model.als_max
    };
    surface::lemma_oriented(model, als);
    monotonic::lemma_mirrored(within, within, model.als_max);
    double::lemma_bits_order(within, model.als_max);
    surface::lemma_distance(double::steps_of(model.als_max), double::steps_of(within));
}

/// Every observation is fitted at its own oriented condition and with its own value.
pub proof fn law_observations_are_fitted_where_they_were_made(
    model: Model,
    entries: Seq<Sample>,
    at: int,
)
    requires
        model.well_formed(),
        0 <= at < entries.len(),
    ensures
        model.points(entries).len() == entries.len(),
        model.points(entries)[at].als == model.als_coordinate(entries[at].als),
        model.points(entries)[at].luma == model.luma_coordinate(entries[at].luma),
        model.points(entries)[at].value == entries[at].brightness,
{
    surface::lemma_oriented(model, entries[at].als);
}

proof fn lemma_domains()
    ensures
        double::steps_of(monotonic::LUX_COORDINATE_MAX) == 6 * double::one(),
        double::steps_of(monotonic::LINEAR_COORDINATE_MAX) == 5 * double::one(),
{
    vstd::arithmetic::power2::lemma2_to64();
    vstd::arithmetic::power2::lemma2_to64_rest();
    vstd::arithmetic::power2::lemma_pow2_adds(52, 1022);
    vstd::arithmetic::power2::lemma_pow2_adds(2, 1022);
    let p = vstd::arithmetic::power2::pow2(1022) as int;
    let q = vstd::arithmetic::power2::pow2(1024) as int;
    assert(double::one() == 0x10_0000_0000_0000 * p && q == 4 * p);
    let (lux, linear) = (monotonic::LUX_COORDINATE_MAX, monotonic::LINEAR_COORDINATE_MAX);
    assert(lux / double::NORMAL == 1025 && lux % double::NORMAL == 0x8_0000_0000_0000);
    assert(linear / double::NORMAL == 1025 && linear % double::NORMAL == 0x4_0000_0000_0000);
    assert(double::steps_of(lux) == 0x18_0000_0000_0000 * q);
    assert(double::steps_of(linear) == 0x14_0000_0000_0000 * q);
}

/// The domain of lux reaches to a coordinate of six and that of a linear sensor to five, or to the
/// brightest observation if that is farther.
pub proof fn law_the_domain_holds_every_observation(entries: Seq<Sample>, scale: Scale, at: int)
    ensures
        ({
            let most = monotonic::als_maximum(entries, scale);
            let usual = monotonic::domain_max(scale);
            &&& usual <= most
            &&& 0 <= at < entries.len() ==> entries[at].als <= most
            &&& most == usual || exists|i: int|
                0 <= i < entries.len() && (#[trigger] entries[i]).als == most
        }),
        double::steps_of(monotonic::domain_max(Scale::Lux) as u64) == 6 * double::one(),
        double::steps_of(monotonic::domain_max(Scale::Linear) as u64) == 5 * double::one(),
    decreases entries.len(),
{
    lemma_domains();
    monotonic::lemma_brightest(entries, scale);
    if entries.len() > 0 {
        let front = entries.drop_last();
        law_the_domain_holds_every_observation(front, scale, at);
        let most = monotonic::als_maximum(entries, scale);
        if entries[entries.len() - 1].als == most {
        } else if monotonic::als_maximum(front, scale) != monotonic::domain_max(scale) {
            let i = choose|i: int|
                0 <= i < front.len() && (#[trigger] front[i]).als == monotonic::als_maximum(
                    front,
                    scale,
                );
            assert(entries[i].als == most);
        }
    }
}

/// The lower envelope is the greatest observation among those at conditions that call for no more, and
/// the least of all observations where there are none. The upper envelope is the least one among those
/// at conditions that call for no less, and the greatest of all where there are none.
pub proof fn law_envelopes_bound_the_observations(
    points: Seq<Observation>,
    x: int,
    y: int,
    at: int,
)
    requires
        points.len() > 0,
        0 <= at < points.len(),
    ensures
        ({
            let low = monotonic::lower_envelope(points, x, y);
            let high = monotonic::upper_envelope(points, x, y);
            &&& points[at].als <= x && points[at].luma <= y ==> points[at].value <= low
            &&& points[at].als >= x && points[at].luma >= y ==> points[at].value >= high
            &&& exists|i: int|
                0 <= i < points.len() && (#[trigger] points[i]).value == low && (points[i].als <= x
                    && points[i].luma <= y || forall|j: int|
                    0 <= j < points.len() ==> points[i].value <= (#[trigger] points[j]).value)
            &&& exists|i: int|
                0 <= i < points.len() && (#[trigger] points[i]).value == high && (points[i].als >= x
                    && points[i].luma >= y || forall|j: int|
                    0 <= j < points.len() ==> points[i].value >= (#[trigger] points[j]).value)
        }),
{
    monotonic::lemma_extremes(points);
    let (least, most) = (monotonic::minimum(points), monotonic::maximum(points));
    monotonic::lemma_lower_from(points, least, x, y);
    monotonic::lemma_upper_from(points, most, x, y);
    let low = monotonic::lower_envelope(points, x, y);
    let high = monotonic::upper_envelope(points, x, y);
    assert(monotonic::dominated(points[at], x, y) == (points[at].als <= x && points[at].luma <= y));
    assert(monotonic::dominating(points[at], x, y) == (points[at].als >= x && points[at].luma >= y));
    if low == least {
        let i = choose|i: int| 0 <= i < points.len() && (#[trigger] points[i]).value == least;
        assert(points[i].value == low);
    } else {
        let i = choose|i: int|
            0 <= i < points.len() && #[trigger] monotonic::dominated(points[i], x, y)
                && points[i].value == low;
        assert(points[i].value == low && points[i].als <= x && points[i].luma <= y);
    }
    if high == most {
        let i = choose|i: int| 0 <= i < points.len() && (#[trigger] points[i]).value == most;
        assert(points[i].value == high);
    } else {
        let i = choose|i: int|
            0 <= i < points.len() && #[trigger] monotonic::dominating(points[i], x, y)
                && points[i].value == high;
        assert(points[i].value == high && points[i].als >= x && points[i].luma >= y);
    }
}

/// At a knot the surface lies exactly in the middle between both envelopes, for values that a number
/// can hold twice over.
pub proof fn law_knots_lie_in_the_middle(model: Model, x: int, y: int)
    requires
        model.well_formed(),
        0 <= x < model.als_knots.len(),
        0 <= y < model.luma_knots.len(),
        model.lower@[y * model.als_knots.len() + x] < double::NORMAL,
        model.upper@[y * model.als_knots.len() + x] < double::NORMAL,
    ensures
        ({
            let place = y * model.als_knots.len() + x;
            &&& 2 * model.knot_value(x, y) == (model.lower@[place] + model.upper@[place])
                * double::one()
            &&& model.envelopes(x, y) == (model.lower@[place] as int, model.upper@[place] as int)
        }),
{
    let place = y * model.als_knots.len() + x;
    let (low, high) = (model.lower@[place] as int, model.upper@[place] as int);
    let o = double::one();
    let h = vstd::arithmetic::power2::pow2(1073) as int;
    vstd::arithmetic::power2::lemma2_to64();
    vstd::arithmetic::power2::lemma_pow2_adds(1, 1073);
    vstd::arithmetic::power2::lemma_pow2_pos(1073);
    assert(o == 2 * h);
    double_laws::lemma_whole(low);
    double_laws::lemma_whole(high);
    double_laws::lemma_whole(low + high);
    double_laws::lemma_whole(2);
    let total = low + high;
    assert(low * o + high * o == total * o) by (nonlinear_arith)
        requires
            total == low + high,
    ;
    double::lemma_exact(total, 1073);
    assert(0 <= total * h) by (nonlinear_arith)
        requires
            0 <= total,
            h > 0,
    ;
    assert((total * o) * o == (total * h) * (2 * o)) by (nonlinear_arith)
        requires
            o == 2 * h,
    ;
    double_laws::lemma_exact_ratio((total * o) * o, 2 * o, total * h);
    assert(total * o == 2 * (total * h)) by (nonlinear_arith)
        requires
            o == 2 * h,
    ;
}

/// A condition lies between the two knots around it on either axis, or on one of them, and no knot lies
/// in between.
pub proof fn law_conditions_lie_between_their_knots(model: Model, als: u64, luma: u8)
    requires
        model.well_formed(),
    ensures
        ({
            let (x0, x1) = model.columns(als);
            let (y0, y1) = model.rows(luma);
            &&& 0 <= x0 <= x1 < model.als_knots@.len() && x1 <= x0 + 1
            &&& model.als_knots@[x0] <= model.als_coordinate(als) <= model.als_knots@[x1]
            &&& x0 == x1 <==> model.als_knots@[x0] == model.als_coordinate(als)
            &&& 0 <= y0 <= y1 < model.luma_knots@.len() && y1 <= y0 + 1
            &&& model.luma_knots@[y0] <= model.luma_coordinate(luma) <= model.luma_knots@[y1]
            &&& y0 == y1 <==> model.luma_knots@[y0] == model.luma_coordinate(luma)
        }),
{
    model.lemma_placed(als, luma);
    surface::lemma_interval(model.als_knots@, model.als_coordinate(als));
    surface::lemma_interval(model.luma_knots@, model.luma_coordinate(luma));
}

/// Rounding a number of steps moves it by less than a part in `2` to the power of 52.
proof fn lemma_few_steps(steps: int)
    requires
        0 <= steps,
    ensures
        -steps <= 0x10_0000_0000_0000 * (double::closest(steps, 1) - steps) <= steps,
{
    double_laws::lemma_error(steps, 1);
    let off = double::closest(steps, 1) * 1 - steps;
    assert(-(steps + 0x10_0000_0000_0000) <= 0x20_0000_0000_0000 * off);
    assert(0x20_0000_0000_0000 * off <= steps + 0x10_0000_0000_0000);
    if steps < 0x10_0000_0000_0000 {
        assert(off == 0);
    } else {
        assert(-(2 * steps) <= 0x20_0000_0000_0000 * off <= 2 * steps);
    }
    assert(off == double::closest(steps, 1) - steps);
    assert(-steps <= 0x10_0000_0000_0000 * off <= steps) by (nonlinear_arith)
        requires
            off == 0 || -(2 * steps) <= 0x20_0000_0000_0000 * off <= 2 * steps,
            0 <= steps,
    ;
}

/// A share of a way, computed from rounded distances, is close to the exact one.
proof fn lemma_share_close(part: int, way: int)
    requires
        0 <= part <= way,
        0 < way,
    ensures
        ({
            let share = double::quotient(double::closest(part, 1), double::closest(way, 1));
            let off = share * way - part * double::one();
            -(16 * (double::one() * way)) <= double::NORMAL * off <= 16 * (double::one() * way)
        }),
{
    double_laws::lemma_fine();
    let (o, f) = (double::one(), double_laws::fine());
    let (a, w) = (double::closest(part, 1), double::closest(way, 1));
    double_laws::lemma_error(part, 1);
    double_laws::lemma_error(way, 1);
    let n = 0x10_0000_0000_0000int;
    // Distances of few steps are exact, and others are off by a small part.
    lemma_few_steps(part);
    lemma_few_steps(way);
    assert(-part <= n * (a - part) <= part);
    assert(-way <= n * (w - way) <= way);
    double::lemma_exact(1, 0);
    vstd::arithmetic::power2::lemma2_to64();
    double_laws::law_rounding_keeps_the_order(1, 1, way, 1);
    double_laws::law_rounding_keeps_the_order(part, 1, way, 1);
    assert(1 <= w <= 2 * way && 0 <= a <= w);
    let no = a * o;
    assert(0 <= no <= 4 * o * w) by (nonlinear_arith)
        requires
            no == a * o,
            0 <= a <= w,
            o > 0,
    ;
    double_laws::lemma_fine_error(no, w);
    let share = double::quotient(a, w);
    double_laws::lemma_quotient_order(a, w, w);
    double_laws::lemma_quotient_same(w);
    let (first, second, third) = (share * (way - w), share * w - a * o, (a - part) * o);
    let off = share * way - part * o;
    assert(off == first + second + third) by (nonlinear_arith)
        requires
            off == share * way - part * o,
            first == share * (way - w),
            second == share * w - a * o,
            third == (a - part) * o,
    ;
    let ow = o * way;
    assert(-ow <= n * first <= ow) by (nonlinear_arith)
        requires
            first == share * (way - w),
            -way <= n * (w - way) <= way,
            0 <= share <= o,
            ow == o * way,
            way > 0,
    ;
    assert(-ow <= n * third <= ow) by (nonlinear_arith)
        requires
            third == (a - part) * o,
            -part <= n * (a - part) <= part,
            part <= way,
            ow == o * way,
            o > 0,
    ;
    let fw = f * w;
    assert(n * fw <= 8 * ow) by (nonlinear_arith)
        requires
            fw == f * w,
            ow == o * way,
            w <= 2 * way,
            n * f == 4 * o,
            f > 0,
            o > 0,
            way > 0,
    ;
    assert(-(n * fw) <= n * second <= n * fw) by (nonlinear_arith)
        requires
            -fw <= second <= fw,
            n > 0,
    ;
    assert(n * off == n * first + n * second + n * third) by (nonlinear_arith)
        requires
            off == first + second + third,
    ;
}

/// How far a reading is between its knots is its share of the way between their coordinates, but for
/// rounding by less than a part in `2` to the power of 48.
pub proof fn law_readings_are_interpolated_by_their_coordinates(model: Model, als: u64)
    requires
        model.well_formed(),
    ensures
        ({
            let (x0, x1) = model.columns(als);
            let start = double::steps_of(model.als_knots@[x0]);
            let part = double::steps_of(model.als_coordinate(als) as u64) - start;
            let way = double::steps_of(model.als_knots@[x1]) - start;
            let off = model.across(als) * way - part * double::one();
            &&& 0 <= part <= way
            &&& -(16 * (double::one() * way)) <= double::NORMAL * off
            &&& double::NORMAL * off <= 16 * (double::one() * way)
        }),
{
    law_conditions_lie_between_their_knots(model, als, 0);
    let (x0, x1) = model.columns(als);
    let last = model.als_knots.len() - 1;
    if x1 < last {
        assert(model.als_knots[x1] < model.als_knots[last]);
    }
    let (low, high) = (model.als_knots[x0], model.als_knots[x1]);
    let bits = model.als_coordinate(als) as u64;
    double::lemma_bits_order(low, bits);
    double::lemma_bits_order(bits, high);
    let start = double::steps_of(low);
    let part = double::steps_of(bits) - start;
    let way = double::steps_of(high) - start;
    if x0 != x1 {
        double::lemma_bits_strict(low, high);
        surface::lemma_distance(double::steps_of(bits), start);
        surface::lemma_distance(double::steps_of(high), start);
        lemma_share_close(part, way);
    } else {
        assert(part == 0 && way == 0);
        assert(0 * way == 0 && 0 * double::one() == 0 && double::one() * 0 == 0);
    }
}

/// How far a luma is between its knots is its share of the way between them, but for rounding by less
/// than a part in `2` to the power of 25.
pub proof fn law_lumas_are_interpolated_evenly(model: Model, luma: u8)
    requires
        model.well_formed(),
    ensures
        ({
            let (y0, y1) = model.rows(luma);
            let part = model.luma_coordinate(luma) - model.luma_knots@[y0];
            let way = model.luma_knots@[y1] - model.luma_knots@[y0];
            let off = model.along(luma) * way - part * double::one();
            &&& 0 <= part <= way <= 100
            &&& -(1024 * double_laws::slack()) <= off <= 1024 * double_laws::slack()
        }),
        double::one() == 0x8_0000_0000 * double_laws::slack(),
{
    law_conditions_lie_between_their_knots(model, 0, luma);
    double_laws::lemma_slack();
    let (o, e) = (double::one(), double_laws::slack());
    let (y0, y1) = model.rows(luma);
    let last = model.luma_knots.len() - 1;
    if y1 < last {
        assert(model.luma_knots[y1] < model.luma_knots[last]);
    }
    let direction = model.luma_direction;
    let (low, at, high) = (
        model.luma_knots[y0] as int,
        model.luma_coordinate(luma),
        model.luma_knots[y1] as int,
    );
    let (part, way) = (at - low, high - low);
    if y0 != y1 {
        monotonic::lemma_luma_place(low, direction);
        monotonic::lemma_luma_place(at, direction);
        monotonic::lemma_luma_place(high, direction);
        monotonic::lemma_luma_places(low, at, direction);
        monotonic::lemma_luma_places(at, high, direction);
        monotonic::lemma_luma_places(low, high, direction);
        let start = monotonic::luma_place(low, direction);
        let (p, w) = (
            monotonic::luma_place(at, direction) - start,
            monotonic::luma_place(high, direction) - start,
        );
        assert(part * o == at * o - low * o && way * o == high * o - low * o) by (nonlinear_arith)
            requires
                part == at - low,
                way == high - low,
        ;
        surface::lemma_distance(monotonic::luma_place(at, direction), start);
        surface::lemma_distance(monotonic::luma_place(high, direction), start);
        assert(way * o <= 100 * o) by (nonlinear_arith)
            requires
                way <= 100,
                o > 0,
        ;
        assert(20 * w <= 101 * o);
        assert(0 <= p <= w <= 0x2_0000 * o);
        lemma_luma_share(part, way, p, w);
    } else {
        assert(0 * way == 0 && 0 * o == 0);
    }
}

/// A share of a way between two lumas is close to the exact one where the places of the lumas are.
proof fn lemma_luma_share(part: int, way: int, p: int, w: int)
    requires
        0 <= part <= way <= 100,
        0 < way,
        0 <= p <= w <= 0x2_0000 * double::one(),
        -(80 * double_laws::slack()) <= 20 * p - part * double::one() <= 80 * double_laws::slack(),
        -(80 * double_laws::slack()) <= 20 * w - way * double::one() <= 80 * double_laws::slack(),
    ensures
        ({
            let share = double::quotient(double::closest(p, 1), double::closest(w, 1));
            let off = share * way - part * double::one();
            -(1024 * double_laws::slack()) <= off <= 1024 * double_laws::slack()
        }),
{
    double_laws::lemma_slack();
    double_laws::lemma_fine();
    let (o, e, f) = (double::one(), double_laws::slack(), double_laws::fine());
    assert(p <= 0x2_0000 * o * 1 && w <= 0x2_0000 * o * 1);
    double_laws::lemma_small_error(p, 1);
    double_laws::lemma_small_error(w, 1);
    double_laws::law_rounding_keeps_the_order(p, 1, w, 1);
    let (a, b) = (double::closest(p, 1), double::closest(w, 1));
    assert(way * o >= o) by (nonlinear_arith)
        requires
            way >= 1,
            o > 0,
    ;
    assert(way * o <= 100 * o) by (nonlinear_arith)
        requires
            way <= 100,
            o > 0,
    ;
    assert(0 < b && b <= 6 * o);
    let n = a * o;
    assert(0 <= n <= 4 * o * b) by (nonlinear_arith)
        requires
            n == a * o,
            0 <= a <= b,
            o > 0,
    ;
    double_laws::lemma_fine_error(n, b);
    let share = double::quotient(a, b);
    double_laws::lemma_quotient_order(a, b, b);
    double_laws::lemma_quotient_same(b);
    let off = share * way - part * o;
    // The errors of the way, of the quotient and of the part, times one.
    let (first, second, third) = (way * o - 20 * b, share * b - n, 20 * a - part * o);
    assert(off * o == share * first + 20 * second + third * o) by (nonlinear_arith)
        requires
            off == share * way - part * o,
            first == way * o - 20 * b,
            second == share * b - n,
            n == a * o,
            third == 20 * a - part * o,
    ;
    assert(-(100 * e) <= first <= 100 * e && -(100 * e) <= third <= 100 * e);
    let eo = e * o;
    assert(-(100 * eo) <= share * first <= 100 * eo) by (nonlinear_arith)
        requires
            -(100 * e) <= first <= 100 * e,
            0 <= share <= o,
            eo == e * o,
            e > 0,
    ;
    assert(-(100 * eo) <= third * o <= 100 * eo) by (nonlinear_arith)
        requires
            -(100 * e) <= third <= 100 * e,
            eo == e * o,
            o > 0,
    ;
    assert(f * b <= eo) by (nonlinear_arith)
        requires
            0x8000 * f == e,
            0 < b <= 6 * o,
            eo == e * o,
            f > 0,
            o > 0,
    ;
    assert((1024 * e) * o == 1024 * eo) by (nonlinear_arith)
        requires
            eo == e * o,
    ;
    double_laws::lemma_divide(off, 1024 * e, o);
}

/// Between knots the surface is bilinear: it is the mixture of the heights of the four knots around a
/// condition, in proportion to how far the condition is between them, but for rounding by about a part
/// in `2` to the power of 45 of the greatest value.
pub proof fn law_the_surface_is_bilinear(model: Model, greatest: u64, als: u64, luma: u8)
    requires
        model.well_formed(),
        greatest > 0,
        model.within(greatest),
    ensures
        ({
            let (x0, x1) = model.columns(als);
            let (y0, y1) = model.rows(luma);
            let o = double::one();
            let (a, b) = (model.across(als), model.along(luma));
            let low = model.knot_value(x0, y0) * (o - a) + model.knot_value(x1, y0) * a;
            let high = model.knot_value(x0, y1) * (o - a) + model.knot_value(x1, y1) * a;
            let off = model.predicted(als, luma) * (o * o) - (low * (o - b) + high * b);
            let grain = (4 * double::whole(greatest as int)) / (double::NORMAL as int) + 1;
            &&& 0 <= a <= o
            &&& 0 <= b <= o
            &&& -((16 * grain) * (o * o)) <= off <= (16 * grain) * (o * o)
        }),
{
    model.lemma_placed(als, luma);
    surface::lemma_close(model, greatest, als, luma);
}

/// The knots of a surface are the oriented conditions of the observations, with both ends of either
/// axis.
pub proof fn law_knots_are_the_observed_conditions(
    model: Model,
    entries: Seq<Sample>,
    at: int,
    x: int,
)
    requires
        model.well_formed(),
        model.fitted(entries),
        0 <= at < entries.len(),
        0 <= x < model.als_knots@.len(),
    ensures
        exists|i: int|
            0 <= i < model.als_knots@.len() && #[trigger] model.als_knots@[i] == model.als_coordinate(
                entries[at].als,
            ),
        exists|i: int|
            0 <= i < model.luma_knots@.len() && #[trigger] model.luma_knots@[i]
                == model.luma_coordinate(entries[at].luma),
        model.als_knots@[x] == 0 || model.als_knots@[x] == model.als_max || exists|i: int|
            0 <= i < entries.len() && model.als_coordinate((#[trigger] entries[i]).als)
                == model.als_knots@[x],
{
    let points = model.points(entries);
    law_observations_are_fitted_where_they_were_made(model, entries, at);
    assert(model.als_knots@.contains(points[at].als));
    let i = model.als_knots@.index_of(points[at].als);
    assert(model.als_knots@[i] == points[at].als);
    if model.luma_aware {
        assert(model.luma_knots@.contains(points[at].luma));
        let j = model.luma_knots@.index_of(points[at].luma);
        assert(model.luma_knots@[j] == points[at].luma);
    } else {
        assert(model.luma_knots@[0] == 0);
    }
    let c = model.als_knots@[x];
    assert(model.als_knots@.contains(c));
    if c != 0 && c != model.als_max {
        let k = choose|k: int| 0 <= k < points.len() && points[k].als == c;
        law_observations_are_fitted_where_they_were_made(model, entries, k);
        assert(model.als_coordinate(entries[k].als) == c);
    }
}

/// The coordinate of a reading on a linear scale is a twentieth of it, but for rounding by about a part
/// in `2` to the power of 52.
pub proof fn law_linear_coordinates_are_twentieths(als: u64)
    requires
        als < double::LIMIT,
    ensures
        ({
            let coordinate = double::steps_of(monotonic::spec_linear_coordinate(als));
            let off = 20 * coordinate - als * double::one();
            let bound = 20 * (als * double::one() / (double::NORMAL as int) + 1);
            -bound <= off <= bound
        }),
{
    let bits = monotonic::lemma_linear_bits(als);
    double_laws::lemma_whole(als as int);
    double_laws::lemma_whole(20);
    let o = double::one();
    let most = als * o;
    let n = most * o;
    let d = 20 * o;
    assert(0 <= most) by (nonlinear_arith)
        requires
            most == als * o,
            als >= 0,
            o > 0,
    ;
    assert(0 <= n <= most * d) by (nonlinear_arith)
        requires
            n == most * o,
            d == 20 * o,
            most >= 0,
            o > 0,
    ;
    assert(0 < o);
    assert(0 < d) by (nonlinear_arith)
        requires
            d == 20 * o,
            o > 0,
    ;
    double_laws::lemma_error_up_to(n, d, most);
    let e = double_laws::slack_up_to(most);
    let coordinate = double::steps_of(bits);
    let off = 20 * coordinate - als * o;
    assert(off * o == coordinate * d - n) by (nonlinear_arith)
        requires
            off == 20 * coordinate - als * o,
            d == 20 * o,
            n == most * o,
            most == als * o,
    ;
    assert(e * d == (20 * e) * o) by (nonlinear_arith)
        requires
            d == 20 * o,
    ;
    double_laws::lemma_divide(off, 20 * e, o);
}

} // verus!
