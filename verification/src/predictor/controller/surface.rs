//! What the fitted surface promises.

use vstd::prelude::*;

use crate::double;
use crate::double_laws;
use crate::predictor::AlsDirection;

use super::adaptive::LumaDirection;
use super::monotonic;
use super::monotonic::{Model, Observation, Sample};

verus! {

/// Values below this are predicted to less than half of one.
pub const PRECISE: u64 = 0x1000_0000_0000;

proof fn lemma_below(knots: Seq<u64>, c: int)
    requires
        monotonic::strictly_increasing(knots),
    ensures
        0 <= monotonic::knots_below(knots, c) <= knots.len(),
        forall|i: int| 0 <= i < monotonic::knots_below(knots, c) ==> knots[i] < c,
        forall|i: int| monotonic::knots_below(knots, c) <= i < knots.len() ==> knots[i] >= c,
    decreases knots.len(),
{
    if knots.len() > 0 {
        let front = knots.drop_last();
        lemma_below(front, c);
        let index = monotonic::knots_below(front, c);
        if knots.last() < c {
            if index < front.len() {
                assert(front[index] >= c);
                assert(knots[index] < knots[knots.len() - 1]);
            }
        }
        assert forall|i: int| 0 <= i < monotonic::knots_below(knots, c) implies knots[i] < c by {
            if i < index {
                assert(front[i] < c);
            }
        }
        assert forall|i: int| monotonic::knots_below(knots, c) <= i < knots.len() implies knots[i] >= c by {
            if i < front.len() {
                assert(front[i] >= c);
            }
        }
    }
}

/// The knots around a coordinate within the axis.
pub(crate) proof fn lemma_interval(knots: Seq<u64>, c: int)
    requires
        monotonic::strictly_increasing(knots),
        knots.len() > 0,
        knots[0] == 0,
        0 <= c <= knots[knots.len() - 1],
    ensures
        0 <= monotonic::interval(knots, c).0 <= monotonic::interval(knots, c).1 < knots.len(),
        monotonic::interval(knots, c).0 == monotonic::interval(knots, c).1 ==> knots[monotonic::interval(knots, c).0] == c,
        monotonic::interval(knots, c).0 != monotonic::interval(knots, c).1 ==> monotonic::interval(knots, c).0 + 1 == monotonic::interval(
            knots,
            c,
        ).1 && knots[monotonic::interval(knots, c).0] < c < knots[monotonic::interval(knots, c).1],
        knots.contains(c as u64) ==> monotonic::interval(knots, c).0 == monotonic::interval(knots, c).1,
{
    lemma_below(knots, c);
    let upper = monotonic::knots_below(knots, c);
    if upper == knots.len() {
        assert(knots[knots.len() - 1] < c);
    }
    if knots[upper] != c && upper == 0 {
        assert(knots[0] >= c);
    }
    if knots.contains(c as u64) {
        let i = choose|i: int| 0 <= i < knots.len() && knots[i] == c as u64;
        if i > upper {
            assert(knots[upper] < knots[i]);
        }
    }
}

/// A greater coordinate lies in the same interval or in a later one.
proof fn lemma_interval_order(knots: Seq<u64>, c: int, other: int)
    requires
        monotonic::strictly_increasing(knots),
        knots.len() > 0,
        knots[0] == 0,
        0 <= c <= other <= knots[knots.len() - 1],
    ensures
        monotonic::interval(knots, c).1 <= monotonic::interval(knots, other).0 || monotonic::interval(knots, c) == monotonic::interval(
            knots,
            other,
        ),
{
    lemma_interval(knots, c);
    lemma_interval(knots, other);
    lemma_below(knots, c);
    lemma_below(knots, other);
    let first = monotonic::knots_below(knots, c);
    let second = monotonic::knots_below(knots, other);
    if first > second {
        assert(knots[second] < c);
        assert(knots[second] >= other);
    }
}

/// Mixing along an axis keeps the order of positions.
proof fn lemma_blend_order(
    h: spec_fn(int) -> int,
    count: int,
    from: (int, int),
    a: int,
    d: int,
    to: (int, int),
    b: int,
    e: int,
)
    requires
        forall|i: int, j: int| 0 <= i <= j < count ==> #[trigger] h(i) <= #[trigger] h(j),
        0 <= from.0 <= from.1 < count,
        0 <= to.0 <= to.1 < count,
        0 <= a <= d,
        0 < d,
        0 <= b <= e,
        0 < e,
        from.1 <= to.0 || from == to && a * e <= b * d,
    ensures
        monotonic::blend(h(from.0), h(from.1), a, d) * e <= monotonic::blend(h(to.0), h(to.1), b, e) * d,
{
    let l = h(from.0);
    let r = h(from.1);
    let m = h(to.0);
    let n = h(to.1);
    assert(l <= r && m <= n);
    if from.1 <= to.0 {
        assert(r <= m);
        lemma_blend_bounds(l, r, a, d);
        lemma_blend_bounds(m, n, b, e);
        assert(monotonic::blend(l, r, a, d) * e <= monotonic::blend(m, n, b, e) * d) by (nonlinear_arith)
            requires
                monotonic::blend(l, r, a, d) <= r * d,
                m * e <= monotonic::blend(m, n, b, e),
                r <= m,
                d > 0,
                e > 0,
        ;
    } else {
        let rise = r - l;
        let less = a * e;
        let more = b * d;
        assert(rise * less <= rise * more) by (nonlinear_arith)
            requires
                rise >= 0,
                less <= more,
        ;
        assert(monotonic::blend(l, r, a, d) * e == l * (d * e) + rise * (a * e)) by (nonlinear_arith)
            requires
                monotonic::blend(l, r, a, d) == l * (d - a) + r * a,
                rise == r - l,
        ;
        assert(monotonic::blend(l, r, b, e) * d == l * (d * e) + rise * (b * d)) by (nonlinear_arith)
            requires
                monotonic::blend(l, r, b, e) == l * (e - b) + r * b,
                rise == r - l,
        ;
    }
}

proof fn lemma_blend_bounds(l: int, r: int, a: int, d: int)
    by (nonlinear_arith)
    requires
        l <= r,
        0 <= a <= d,
    ensures
        l * d <= monotonic::blend(l, r, a, d) <= r * d,
{
}

/// Mixing first along one axis or first along the other gives the same.
proof fn lemma_blend_swap(
    v00: int,
    v10: int,
    v01: int,
    v11: int,
    a: int,
    d: int,
    b: int,
    e: int,
)
    ensures
        monotonic::blend(monotonic::blend(v00, v10, a, d), monotonic::blend(v01, v11, a, d), b, e) == monotonic::blend(
            monotonic::blend(v00, v01, b, e),
            monotonic::blend(v10, v11, b, e),
            a,
            d,
        ),
{
    let c = d - a;
    let f = e - b;
    lemma_distribute(v00, c, v10, a, f);
    lemma_distribute(v01, c, v11, a, b);
    lemma_distribute(v00, f, v01, b, c);
    lemma_distribute(v10, f, v11, b, a);
    assert(v00 * c * f == v00 * f * c) by (nonlinear_arith);
    assert(v10 * a * f == v10 * f * a) by (nonlinear_arith);
    assert(v01 * c * b == v01 * b * c) by (nonlinear_arith);
    assert(v11 * a * b == v11 * b * a) by (nonlinear_arith);
}

proof fn lemma_distribute(v: int, x: int, w: int, y: int, z: int)
    by (nonlinear_arith)
    ensures
        (v * x + w * y) * z == v * x * z + w * y * z,
{
}

impl Model {
    /// What is known of the place of a condition on the grid.
    pub open spec fn placed(&self, als: u64, luma: u8) -> bool {
        let (x0, x1) = self.columns(als);
        let (y0, y1) = self.rows(luma);
        &&& 0 <= x0 <= x1 < self.als_knots.len()
        &&& 0 <= y0 <= y1 < self.luma_knots.len()
        &&& 0 <= self.across(als) <= double::one()
        &&& 0 <= self.along(luma) <= double::one()
    }

    pub(crate) proof fn lemma_placed(&self, als: u64, luma: u8)
        requires
            self.well_formed(),
        ensures
            self.placed(als, luma),
            0 <= self.als_coordinate(als) <= self.als_max,
            0 <= self.luma_coordinate(luma),
            self.luma_aware ==> self.luma_coordinate(luma) <= 100,
    {
        double_laws::lemma_whole(1);
        lemma_oriented(*self, als);
        lemma_interval(self.als_knots@, self.als_coordinate(als));
        lemma_interval(self.luma_knots@, self.luma_coordinate(luma));
        let (x0, x1) = self.columns(als);
        let (y0, y1) = self.rows(luma);
        if x0 != x1 {
            lemma_share(*self, x0, x1, self.als_coordinate(als), self.als_coordinate(als));
        }
        if y0 != y1 {
            lemma_luma_share(
                *self,
                y0,
                y1,
                self.luma_coordinate(luma),
                self.luma_coordinate(luma),
            );
        }
    }

    /// The exact height of the surface at a condition, bilinear between the knots, times the square of
    /// one.
    pub open spec fn ideal(&self, als: u64, luma: u8) -> int {
        let (x0, x1) = self.columns(als);
        let (y0, y1) = self.rows(luma);
        let (a, o) = (self.across(als), double::one());
        monotonic::blend(
            monotonic::blend(self.knot_value(x0, y0), self.knot_value(x1, y0), a, o),
            monotonic::blend(self.knot_value(x0, y1), self.knot_value(x1, y1), a, o),
            self.along(luma),
            o,
        )
    }

    /// Whether no value is above `greatest`.
    pub open spec fn within(&self, greatest: u64) -> bool {
        &&& forall|i: int| 0 <= i < self.lower.len() ==> (#[trigger] self.lower[i]) <= greatest
        &&& forall|i: int| 0 <= i < self.upper.len() ==> (#[trigger] self.upper[i]) <= greatest
    }
}

/// A coordinate lies within the domain, mirrored or not.
pub(crate) proof fn lemma_oriented(model: Model, als: u64)
    requires
        model.well_formed(),
    ensures
        0 <= model.als_coordinate(als) <= model.als_max,
{
    let capped = if als <= model.als_max {
        als
    } else {
        model.als_max
    };
    monotonic::lemma_mirrored(capped, capped, model.als_max);
}

/// Coordinates that call for more are oriented upwards.
proof fn lemma_orientation(model: Model, als: u64, other: u64)
    requires
        model.well_formed(),
        als_precedes(model.als_direction, als, other),
    ensures
        0 <= model.als_coordinate(als) <= model.als_coordinate(other) <= model.als_max,
{
    let cap = |value: u64|
        if value <= model.als_max {
            value
        } else {
            model.als_max
        };
    lemma_oriented(model, als);
    lemma_oriented(model, other);
    if model.als_direction == AlsDirection::Decreasing {
        monotonic::lemma_mirrored(cap(other), cap(als), model.als_max);
    }
}

/// The share of the way between two knots, and that of a later coordinate.
proof fn lemma_share(model: Model, x0: int, x1: int, coordinate: int, later: int)
    requires
        model.well_formed(),
        0 <= x0 < x1 < model.als_knots.len(),
        model.als_knots[x0] <= coordinate <= later <= model.als_knots[x1],
    ensures
        ({
            let start = double::steps_of(model.als_knots[x0]);
            let width = double::distance(double::steps_of(model.als_knots[x1]), start);
            let share = double::quotient(
                double::distance(double::steps_of(coordinate as u64), start),
                width,
            );
            let more = double::quotient(
                double::distance(double::steps_of(later as u64), start),
                width,
            );
            0 <= share <= more <= double::one()
        }),
{
    let last = model.als_knots.len() - 1;
    if x1 < last {
        assert(model.als_knots[x1] < model.als_knots[last]);
    }
    assert(model.als_knots[x0] < model.als_knots[x1]);
    let (low, high) = (model.als_knots[x0], model.als_knots[x1]);
    double::lemma_bits_strict(low, high);
    double::lemma_bits_order(low, coordinate as u64);
    double::lemma_bits_order(coordinate as u64, later as u64);
    double::lemma_bits_order(later as u64, high);
    lemma_shares(
        double::steps_of(low),
        double::steps_of(coordinate as u64),
        double::steps_of(later as u64),
        double::steps_of(high),
    );
}

/// The share of the way between two lumas, and that of a later one.
proof fn lemma_luma_share(model: Model, y0: int, y1: int, luma: int, later: int)
    requires
        model.well_formed(),
        0 <= y0 < y1 < model.luma_knots.len(),
        model.luma_knots[y0] <= luma <= later <= model.luma_knots[y1],
    ensures
        ({
            let direction = model.luma_direction;
            let start = monotonic::luma_place(model.luma_knots[y0] as int, direction);
            let width = double::distance(
                monotonic::luma_place(model.luma_knots[y1] as int, direction),
                start,
            );
            let share = double::quotient(
                double::distance(monotonic::luma_place(luma, direction), start),
                width,
            );
            let more = double::quotient(
                double::distance(monotonic::luma_place(later, direction), start),
                width,
            );
            0 <= share <= more <= double::one()
        }),
{
    let last = model.luma_knots.len() - 1;
    if y1 < last {
        assert(model.luma_knots[y1] < model.luma_knots[last]);
    }
    assert(model.luma_knots[y0] < model.luma_knots[y1]);
    let direction = model.luma_direction;
    let (low, high) = (model.luma_knots[y0] as int, model.luma_knots[y1] as int);
    monotonic::lemma_luma_places(low, high, direction);
    monotonic::lemma_luma_places(low, luma, direction);
    monotonic::lemma_luma_places(luma, later, direction);
    monotonic::lemma_luma_places(later, high, direction);
    lemma_shares(
        monotonic::luma_place(low, direction),
        monotonic::luma_place(luma, direction),
        monotonic::luma_place(later, direction),
        monotonic::luma_place(high, direction),
    );
}

/// Shares of the way from one number to another are ordered as the numbers are.
proof fn lemma_shares(start: int, at: int, later: int, end: int)
    requires
        0 <= start < end,
        start <= at <= later <= end,
    ensures
        ({
            let width = double::distance(end, start);
            let share = double::quotient(double::distance(at, start), width);
            let more = double::quotient(double::distance(later, start), width);
            0 <= share <= more <= double::one()
        }),
{
    monotonic::lemma_apart(start, end);
    double_laws::law_rounding_keeps_the_order(at - start, 1, later - start, 1);
    double_laws::law_rounding_keeps_the_order(later - start, 1, end - start, 1);
    lemma_distance(at, start);
    lemma_distance(later, start);
    lemma_distance(end, start);
    let width = double::distance(end, start);
    double_laws::lemma_quotient_order(double::distance(at, start), double::distance(later, start), width);
    double_laws::lemma_quotient_order(double::distance(later, start), width, width);
    double_laws::lemma_quotient_same(width);
}

pub(crate) proof fn lemma_distance(left: int, right: int)
    requires
        left >= right,
    ensures
        double::distance(left, right) == double::closest(left - right, 1),
{
}

/// Whether the condition `als` calls for at most the value that `other` calls for.
pub open spec fn als_precedes(direction: AlsDirection, als: u64, other: u64) -> bool {
    match direction {
        AlsDirection::Increasing => als <= other,
        AlsDirection::Decreasing => als >= other,
    }
}

/// Whether the condition `luma` calls for at most the value that `other` calls for.
pub open spec fn luma_precedes(direction: LumaDirection, luma: u8, other: u8) -> bool {
    match direction {
        LumaDirection::Increasing => luma <= other,
        LumaDirection::Decreasing => luma >= other,
    }
}

/// A bound on the error of one rounding where values are at most `greatest`.
pub open spec fn grain(greatest: u64) -> int {
    double_laws::slack_up_to(4 * double::whole(greatest as int))
}

pub(crate) proof fn lemma_grain(greatest: u64)
    requires
        greatest > 0,
    ensures
        0 < double::one() <= double::whole(greatest as int),
        1 <= grain(greatest),
        1024 * grain(greatest) <= double::whole(greatest as int),
{
    double_laws::lemma_whole_positive(greatest as int);
    double_laws::lemma_slack();
    let w = double::whole(greatest as int);
    assert(grain(greatest) == (4 * w) / 0x10_0000_0000_0000 + 1);
}

/// The number at a share of the way is close to the exact one.
proof fn lemma_lerp(left: int, right: int, share: int, w: int, e: int)
    requires
        0 < w,
        e == double_laws::slack_up_to(4 * w),
        1 <= e,
        1024 * e <= w,
        0 <= left <= w + 16 * e,
        0 <= right <= w + 16 * e,
        0 <= share <= double::one(),
    ensures
        ({
            let off = monotonic::lerp(left, right, share) * double::one() - monotonic::blend(
                left,
                right,
                share,
                double::one(),
            );
            let bound = (8 * e) * double::one();
            -bound <= off <= bound
        }),
        0 <= monotonic::lerp(left, right, share),
{
    double_laws::lemma_whole(1);
    let o = double::one();
    let most = 4 * w;
    let way = if right >= left {
        right - left
    } else {
        left - right
    };
    double_laws::lemma_error_up_to(way, 1, most);
    double_laws::lemma_closest_is_number(way, 1);
    let d = double::distance(left, right);
    assert(d == double::closest(way, 1)) by {
        if left == right {
        }
    }
    assert(0 <= d <= most);
    let n = d * share;
    assert(0 <= n <= most * o) by (nonlinear_arith)
        requires
            n == d * share,
            0 <= d <= most,
            0 <= share <= o,
    ;
    double_laws::lemma_error_up_to(n, o, most);
    double_laws::lemma_closest_is_number(n, o);
    let m = double::product(d, share);
    assert(m <= d + e) by (nonlinear_arith)
        requires
            m * o - d * share <= e * o,
            share <= o,
            d >= 0,
            o > 0,
    ;
    let up = right >= left;
    let total = if up {
        left + m
    } else if left >= m {
        left - m
    } else {
        m - left
    };
    assert(0 <= total <= most * 1);
    double_laws::lemma_error_up_to(total, 1, most);
    double_laws::lemma_closest_is_number(total, 1);
    let s = monotonic::lerp(left, right, share);
    assert(s == double::closest(total, 1)) by {
        if !up && left == m {
        }
    }
    lemma_lerp_bounds(left, right, share, way, d, m, s, o, e, up);
}

proof fn lemma_lerp_bounds(
    left: int,
    right: int,
    share: int,
    way: int,
    d: int,
    m: int,
    s: int,
    o: int,
    e: int,
    up: bool,
)
    requires
        0 < e,
        0 < o,
        0 <= share <= o,
        up ==> way == right - left,
        !up ==> way == left - right,
        0 <= right,
        -e <= d - way <= e,
        -(e * o) <= m * o - d * share <= e * o,
        m <= d + e,
        up ==> -e <= s - (left + m) <= e,
        !up && left >= m ==> -e <= s - (left - m) <= e,
        !up && left < m ==> -e <= s - (m - left) <= e,
    ensures
        ({
            let off = s * o - monotonic::blend(left, right, share, o);
            -((8 * e) * o) <= off <= (8 * e) * o
        }),
{
    let exact = way * share;
    assert(-(e * o) <= d * share - exact <= e * o) by (nonlinear_arith)
        requires
            -e <= d - way <= e,
            exact == way * share,
            0 <= share <= o,
            e > 0,
    ;
    assert(monotonic::blend(left, right, share, o) == left * o + (right - left) * share)
        by (nonlinear_arith)
        requires
            monotonic::blend(left, right, share, o) == left * (o - share) + right * share,
    ;
    let eo = e * o;
    if up {
        assert(s * o <= left * o + m * o + eo && s * o >= left * o + m * o - eo) by (nonlinear_arith)
            requires
                -e <= s - (left + m) <= e,
                eo == e * o,
                o > 0,
        ;
        assert((right - left) * share == exact);
    } else {
        assert((right - left) * share == -exact) by (nonlinear_arith)
            requires
                exact == (left - right) * share,
        ;
        // The way back is at most a little more than the number.
        assert(s - (left - m) <= 5 * e && s - (left - m) >= -e);
        assert(s * o <= left * o - m * o + 5 * eo && s * o >= left * o - m * o - eo)
            by (nonlinear_arith)
            requires
                -e <= s - (left - m) <= 5 * e,
                eo == e * o,
                o > 0,
        ;
    }
    assert((8 * e) * o == 8 * eo) by (nonlinear_arith)
        requires
            eo == e * o,
    ;
}

/// The number in the middle between two integers.
pub open spec fn middle(low: int, high: int) -> int {
    double::quotient(double::sum(double::whole(low), double::whole(high)), double::whole(2))
}

/// The middle grows with both integers.
proof fn lemma_middle_order(low: int, high: int, more_low: int, more_high: int)
    requires
        0 <= low <= more_low,
        0 <= high <= more_high,
    ensures
        0 <= middle(low, high) <= middle(more_low, more_high),
{
    double_laws::lemma_whole(2);
    let o = double::one();
    assert(0 <= low * o <= more_low * o) by (nonlinear_arith)
        requires
            0 <= low <= more_low,
            o > 0,
    ;
    assert(0 <= high * o <= more_high * o) by (nonlinear_arith)
        requires
            0 <= high <= more_high,
            o > 0,
    ;
    double_laws::law_rounding_keeps_the_order(low * o, 1, more_low * o, 1);
    double_laws::law_rounding_keeps_the_order(high * o, 1, more_high * o, 1);
    let total = double::whole(low) + double::whole(high);
    let more = double::whole(more_low) + double::whole(more_high);
    double_laws::law_rounding_keeps_the_order(total, 1, more, 1);
    double_laws::lemma_quotient_order(
        double::closest(total, 1),
        double::closest(more, 1),
        double::whole(2),
    );
}

/// The surface grows from knot to knot.
proof fn lemma_knot_order(model: Model, x: int, y: int, other_x: int, other_y: int)
    requires
        model.well_formed(),
        0 <= x <= other_x < model.als_knots.len(),
        0 <= y <= other_y < model.luma_knots.len(),
    ensures
        model.knot_value(x, y) <= model.knot_value(other_x, other_y),
{
    let (low, high) = model.envelopes(x, y);
    let (more_low, more_high) = model.envelopes(other_x, other_y);
    lemma_middle_order(low, high, more_low, more_high);
}

/// The height of the surface at a knot is within the values.
proof fn lemma_knot(model: Model, greatest: u64, x: int, y: int)
    requires
        model.well_formed(),
        model.within(greatest),
        0 <= x < model.als_knots.len(),
        0 <= y < model.luma_knots.len(),
    ensures
        0 <= model.knot_value(x, y) <= double::whole(greatest as int),
{
    monotonic::lemma_cell(model.als_knots.len() as int, model.luma_knots.len() as int, x, y);
    let place = monotonic::cell(model.als_knots.len() as int, x, y);
    let (low, high) = (model.lower[place] as int, model.upper[place] as int);
    assert(low <= greatest && high <= greatest);
    lemma_middle_order(low, high, greatest as int, greatest as int);
    lemma_same_middle(greatest as int);
}

/// The surface is close to the exact one.
pub(crate) proof fn lemma_close(model: Model, greatest: u64, als: u64, luma: u8)
    requires
        model.well_formed(),
        greatest > 0,
        model.within(greatest),
    ensures
        ({
            let square = double::one() * double::one();
            let off = model.predicted(als, luma) * square - model.ideal(als, luma);
            let bound = (16 * grain(greatest)) * square;
            -bound <= off <= bound
        }),
        0 <= model.predicted(als, luma),
{
    model.lemma_placed(als, luma);
    lemma_grain(greatest);
    let (x0, x1) = model.columns(als);
    let (y0, y1) = model.rows(luma);
    let (a, b) = (model.across(als), model.along(luma));
    let o = double::one();
    let e = grain(greatest);
    let w = double::whole(greatest as int);
    lemma_knot(model, greatest, x0, y0);
    lemma_knot(model, greatest, x1, y0);
    lemma_knot(model, greatest, x0, y1);
    lemma_knot(model, greatest, x1, y1);
    let (p, q) = (model.knot_value(x0, y0), model.knot_value(x1, y0));
    let (r, s) = (model.knot_value(x0, y1), model.knot_value(x1, y1));
    lemma_lerp(p, q, a, w, e);
    lemma_lerp(r, s, a, w, e);
    let (low, high) = (monotonic::lerp(p, q, a), monotonic::lerp(r, s, a));
    lemma_blend_within(0, w, p, q, a, o);
    lemma_blend_within(0, w, r, s, a, o);
    let (f, g) = (monotonic::blend(p, q, a, o), monotonic::blend(r, s, a, o));
    assert((w + 8 * e) * o == w * o + (8 * e) * o) by (nonlinear_arith);
    lemma_cancel(low, w + 8 * e, o);
    lemma_cancel(high, w + 8 * e, o);
    lemma_lerp(low, high, b, w, e);
    let out = monotonic::lerp(low, high, b);
    lemma_close_bounds(low, high, f, g, b, out, o, e);
}

/// Dividing both sides by a positive factor.
proof fn lemma_cancel(x: int, y: int, o: int)
    by (nonlinear_arith)
    requires
        x * o <= y * o,
        o > 0,
    ensures
        x <= y,
{
}

proof fn lemma_close_bounds(low: int, high: int, f: int, g: int, b: int, out: int, o: int, e: int)
    requires
        0 < o,
        0 < e,
        0 <= b <= o,
        -((8 * e) * o) <= low * o - f <= (8 * e) * o,
        -((8 * e) * o) <= high * o - g <= (8 * e) * o,
        -((8 * e) * o) <= out * o - monotonic::blend(low, high, b, o) <= (8 * e) * o,
    ensures
        -((16 * e) * (o * o)) <= out * (o * o) - monotonic::blend(f, g, b, o) <= (16 * e) * (o * o),
{
    let w = (8 * e) * o;
    let c = o - b;
    let mixed = low * c + high * b;
    assert(monotonic::blend(low, high, b, o) == mixed);
    assert(monotonic::blend(f, g, b, o) == f * c + g * b);
    assert(-(w * c) <= (low * o - f) * c <= w * c) by (nonlinear_arith)
        requires
            -w <= low * o - f <= w,
            c >= 0,
    ;
    assert(-(w * b) <= (high * o - g) * b <= w * b) by (nonlinear_arith)
        requires
            -w <= high * o - g <= w,
            b >= 0,
    ;
    assert(w * c + w * b == w * o) by (nonlinear_arith)
        requires
            c == o - b,
    ;
    assert(mixed * o == (low * o) * c + (high * o) * b) by (nonlinear_arith)
        requires
            mixed == low * c + high * b,
    ;
    assert((low * o - f) * c == (low * o) * c - f * c) by (nonlinear_arith);
    assert((high * o - g) * b == (high * o) * b - g * b) by (nonlinear_arith);
    assert(-(w * o) <= (out * o - mixed) * o <= w * o) by (nonlinear_arith)
        requires
            -w <= out * o - mixed <= w,
            o > 0,
    ;
    assert((out * o - mixed) * o == out * (o * o) - mixed * o) by (nonlinear_arith);
    assert((16 * e) * (o * o) == 2 * (w * o)) by (nonlinear_arith)
        requires
            w == (8 * e) * o,
    ;
}

/// What predictions may differ by where the exact surface does not, with values of at most `greatest`:
/// about a `2` to the power of 45th part of it.
pub open spec fn tolerance(greatest: u64) -> int {
    32 * grain(greatest)
}

/// Conditions of which the exact surface is ordered have predictions in that order, up to rounding.
proof fn lemma_ordered(
    model: Model,
    greatest: u64,
    als: u64,
    luma: u8,
    other: u64,
    other_luma: u8,
)
    requires
        model.well_formed(),
        greatest > 0,
        model.within(greatest),
        model.ideal(als, luma) <= model.ideal(other, other_luma),
    ensures
        model.predicted(als, luma) <= model.predicted(other, other_luma) + tolerance(greatest),
{
    lemma_close(model, greatest, als, luma);
    lemma_close(model, greatest, other, other_luma);
    double_laws::lemma_whole(1);
    let (first, second) = (model.predicted(als, luma), model.predicted(other, other_luma));
    let (o, e) = (double::one(), grain(greatest));
    let square = o * o;
    assert(square > 0) by (nonlinear_arith)
        requires
            square == o * o,
            o > 0,
    ;
    assert((second + 32 * e) * square == second * square + 2 * ((16 * e) * square))
        by (nonlinear_arith);
    lemma_cancel(first, second + 32 * e, square);
}

/// Predictions are monotonic in ambient light, in the direction that the model was fitted for, up to
/// the rounding of the arithmetic.
pub proof fn law_monotonic_in_als(model: Model, greatest: u64, als: u64, other: u64, luma: u8)
    requires
        model.well_formed(),
        greatest > 0,
        model.within(greatest),
        als_precedes(model.als_direction, als, other),
    ensures
        model.ideal(als, luma) <= model.ideal(other, luma),
        model.predicted(als, luma) <= model.predicted(other, luma) + tolerance(greatest),
{
    model.lemma_placed(als, luma);
    model.lemma_placed(other, luma);
    double_laws::lemma_whole(1);
    lemma_orientation(model, als, other);
    lemma_interval_order(
        model.als_knots@,
        model.als_coordinate(als),
        model.als_coordinate(other),
    );
    lemma_interval(model.als_knots@, model.als_coordinate(als));
    lemma_interval(model.als_knots@, model.als_coordinate(other));
    let (x0, x1) = model.columns(als);
    let (z0, z1) = model.columns(other);
    let (y0, y1) = model.rows(luma);
    let (a, c) = (model.across(als), model.across(other));
    let b = model.along(luma);
    let o = double::one();
    if (x0, x1) == (z0, z1) && x0 != x1 {
        lemma_share(model, x0, x1, model.als_coordinate(als), model.als_coordinate(other));
        assert(a * o <= c * o) by (nonlinear_arith)
            requires
                a <= c,
                o > 0,
        ;
    }
    let h = |i: int| monotonic::blend(model.knot_value(i, y0), model.knot_value(i, y1), b, o);
    assert forall|i: int, j: int| 0 <= i <= j < model.als_knots.len() implies #[trigger] h(i)
        <= #[trigger] h(j) by {
        lemma_knot_order(model, i, y0, j, y0);
        lemma_knot_order(model, i, y1, j, y1);
        lemma_blend_grows(
            model.knot_value(i, y0),
            model.knot_value(i, y1),
            model.knot_value(j, y0),
            model.knot_value(j, y1),
            b,
            o,
        );
    }
    lemma_blend_swap(
        model.knot_value(x0, y0),
        model.knot_value(x1, y0),
        model.knot_value(x0, y1),
        model.knot_value(x1, y1),
        a,
        o,
        b,
        o,
    );
    lemma_blend_swap(
        model.knot_value(z0, y0),
        model.knot_value(z1, y0),
        model.knot_value(z0, y1),
        model.knot_value(z1, y1),
        c,
        o,
        b,
        o,
    );
    lemma_blend_order(h, model.als_knots.len() as int, (x0, x1), a, o, (z0, z1), c, o);
    let n = model.ideal(als, luma);
    let m = model.ideal(other, luma);
    assert(n <= m) by (nonlinear_arith)
        requires
            n * o <= m * o,
            o > 0,
    ;
    lemma_ordered(model, greatest, als, luma, other, luma);
}

/// Greater readings of a linear sensor do not have lesser coordinates.
pub proof fn law_linear_coordinates_are_ordered(als: u64, other: u64)
    requires
        als <= other,
    ensures
        monotonic::spec_linear_coordinate(als) <= monotonic::spec_linear_coordinate(other),
{
    let (first, second) = (monotonic::lemma_linear_bits(als), monotonic::lemma_linear_bits(other));
    double_laws::lemma_whole(1);
    double_laws::lemma_whole_positive(monotonic::LINEAR_SCALE as int);
    let o = double::one();
    assert(0 <= als * o <= other * o) by (nonlinear_arith)
        requires
            0 <= als <= other,
            o > 0,
    ;
    double_laws::law_rounding_keeps_the_order(als * o, 1, other * o, 1);
    double_laws::lemma_quotient_order(
        double::whole(als as int),
        double::whole(other as int),
        double::whole(monotonic::LINEAR_SCALE as int),
    );
    if second < first {
        double::lemma_bits_strict(second, first);
    }
}

/// Predictions are monotonic in the readings of a linear sensor, up to the rounding of the arithmetic.
pub proof fn law_monotonic_in_linear_readings(
    model: Model,
    greatest: u64,
    als: u64,
    other: u64,
    luma: u8,
)
    requires
        model.well_formed(),
        greatest > 0,
        model.within(greatest),
        als_precedes(model.als_direction, als, other),
    ensures
        model.predicted(monotonic::spec_linear_coordinate(als), luma) <= model.predicted(
            monotonic::spec_linear_coordinate(other),
            luma,
        ) + tolerance(greatest),
{
    if als <= other {
        law_linear_coordinates_are_ordered(als, other);
    }
    if other <= als {
        law_linear_coordinates_are_ordered(other, als);
    }
    law_monotonic_in_als(
        model,
        greatest,
        monotonic::spec_linear_coordinate(als),
        monotonic::spec_linear_coordinate(other),
        luma,
    );
}

proof fn lemma_blend_grows(l: int, r: int, m: int, n: int, a: int, d: int)
    by (nonlinear_arith)
    requires
        l <= m,
        r <= n,
        0 <= a <= d,
    ensures
        monotonic::blend(l, r, a, d) <= monotonic::blend(m, n, a, d),
{
}

/// Predictions are monotonic in screen luma, in the direction that the model was fitted for, up to the
/// rounding of the arithmetic.
pub proof fn law_monotonic_in_luma(model: Model, greatest: u64, als: u64, luma: u8, other: u8)
    requires
        model.well_formed(),
        greatest > 0,
        model.within(greatest),
        luma_precedes(model.luma_direction, luma, other),
    ensures
        model.ideal(als, luma) <= model.ideal(als, other),
        model.predicted(als, luma) <= model.predicted(als, other) + tolerance(greatest),
{
    model.lemma_placed(als, luma);
    model.lemma_placed(als, other);
    double_laws::lemma_whole(1);
    lemma_interval_order(
        model.luma_knots@,
        model.luma_coordinate(luma),
        model.luma_coordinate(other),
    );
    lemma_interval(model.luma_knots@, model.luma_coordinate(luma));
    lemma_interval(model.luma_knots@, model.luma_coordinate(other));
    let (x0, x1) = model.columns(als);
    let (y0, y1) = model.rows(luma);
    let (z0, z1) = model.rows(other);
    let a = model.across(als);
    let (b, c) = (model.along(luma), model.along(other));
    let o = double::one();
    if (y0, y1) == (z0, z1) && y0 != y1 {
        lemma_luma_share(
            model,
            y0,
            y1,
            model.luma_coordinate(luma),
            model.luma_coordinate(other),
        );
        assert(b * o <= c * o) by (nonlinear_arith)
            requires
                b <= c,
                o > 0,
        ;
    }
    let h = |j: int| monotonic::blend(model.knot_value(x0, j), model.knot_value(x1, j), a, o);
    assert forall|i: int, j: int| 0 <= i <= j < model.luma_knots.len() implies #[trigger] h(i)
        <= #[trigger] h(j) by {
        lemma_knot_order(model, x0, i, x0, j);
        lemma_knot_order(model, x1, i, x1, j);
        lemma_blend_grows(
            model.knot_value(x0, i),
            model.knot_value(x1, i),
            model.knot_value(x0, j),
            model.knot_value(x1, j),
            a,
            o,
        );
    }
    lemma_blend_order(h, model.luma_knots.len() as int, (y0, y1), b, o, (z0, z1), c, o);
    let n = model.ideal(als, luma);
    let m = model.ideal(als, other);
    assert(n <= m) by (nonlinear_arith)
        requires
            n * o <= m * o,
            o > 0,
    ;
    lemma_ordered(model, greatest, als, luma, als, other);
}

/// No other observation contradicts the one at `index`: what it dominates is not greater and
/// what dominates it is not less.
pub open spec fn consistent(points: Seq<Observation>, index: int) -> bool {
    let x = points[index].als as int;
    let y = points[index].luma as int;
    forall|i: int|
        #![trigger points[i]]
        0 <= i < points.len() ==> (monotonic::dominated(points[i], x, y) ==> points[i].value
            <= points[index].value) && (monotonic::dominating(points[i], x, y) ==> points[i].value
            >= points[index].value)
}

/// Between equal numbers lies nothing but the number.
proof fn lemma_level(number: int, share: int)
    requires
        double_laws::is_number(number),
    ensures
        monotonic::lerp(number, number, share) == number,
{
    double_laws::lemma_whole(0);
    let o = double::one();
    assert(0 * o == 0);
    assert(0 * share == 0);
    assert(double::distance(number, number) == 0);
    double_laws::lemma_exact_ratio(0, o, 0);
    assert(number + 0 == number);
}

/// The middle of an integer and itself is the number closest to it.
proof fn lemma_same_middle(value: int)
    requires
        value >= 0,
    ensures
        middle(value, value) == double::whole(value),
{
    double_laws::lemma_whole(2);
    let o = double::one();
    assert(value * o >= 0) by (nonlinear_arith)
        requires
            value >= 0,
            o > 0,
    ;
    double_laws::lemma_closest_is_number(value * o, 1);
    let number = double::whole(value);
    double_laws::lemma_doubled(number);
    assert((2 * number) * o == number * (2 * o)) by (nonlinear_arith);
    double_laws::lemma_exact_ratio((2 * number) * o, 2 * o, number);
}

/// A consistent observation is reproduced exactly under the conditions it was made in: as the number
/// that is closest to its value.
pub proof fn law_consistent_observations_are_exact(model: Model, entries: Seq<Sample>, index: int)
    requires
        model.well_formed(),
        model.fitted(entries),
        0 <= index < entries.len(),
        consistent(model.points(entries), index),
    ensures
        model.predicted(entries[index].als, entries[index].luma) == double::whole(
            entries[index].brightness as int,
        ),
        entries[index].brightness < double::LIMIT ==> double::round(
            model.predicted(entries[index].als, entries[index].luma),
        ) == entries[index].brightness,
{
    law_surface_at_an_observation(model, entries, index);
    let points = model.points(entries);
    let point = points[index];
    let x = point.als as int;
    let y = point.luma as int;
    monotonic::lemma_extremes(points);
    monotonic::lemma_lower_from(points, monotonic::minimum(points), x, y);
    monotonic::lemma_upper_from(points, monotonic::maximum(points), x, y);
    assert(monotonic::dominated(points[index], x, y));
    assert(monotonic::dominating(points[index], x, y));
    let low = monotonic::lower_envelope(points, x, y);
    let high = monotonic::upper_envelope(points, x, y);
    if low != monotonic::minimum(points) {
        let i = choose|i: int|
            0 <= i < points.len() && #[trigger] monotonic::dominated(points[i], x, y)
                && points[i].value == low;
        assert(points[i].value <= point.value);
    }
    if high != monotonic::maximum(points) {
        let i = choose|i: int|
            0 <= i < points.len() && #[trigger] monotonic::dominating(points[i], x, y)
                && points[i].value == high;
        assert(points[i].value >= point.value);
    }
    let value = entries[index].brightness as int;
    assert(low == value && high == value);
    lemma_same_middle(value);
    if value < double::LIMIT {
        double_laws::lemma_whole(value);
        double_laws::lemma_round_to(value * double::one(), value);
    }
}

/// Under the conditions of an observation the surface is the midpoint of the two envelopes, and
/// the observation lies between them: contradicting observations are compromised between.
pub proof fn law_surface_at_an_observation(model: Model, entries: Seq<Sample>, index: int)
    requires
        model.well_formed(),
        model.fitted(entries),
        0 <= index < entries.len(),
    ensures
        ({
            let points = model.points(entries);
            let x = points[index].als as int;
            let y = points[index].luma as int;
            &&& model.predicted(entries[index].als, entries[index].luma) == double::quotient(
                double::sum(
                    double::whole(monotonic::lower_envelope(points, x, y)),
                    double::whole(monotonic::upper_envelope(points, x, y)),
                ),
                double::whole(2),
            )
            &&& monotonic::upper_envelope(points, x, y) <= entries[index].brightness
                <= monotonic::lower_envelope(points, x, y)
        }),
{
    let points = model.points(entries);
    let point = points[index];
    let als = entries[index].als;
    let luma = entries[index].luma;
    monotonic::lemma_brightest(entries, model.scale);
    assert(als <= model.als_max);
    lemma_oriented(model, als);
    assert(point.als == model.als_coordinate(als));
    assert(point.luma == model.luma_coordinate(luma));
    assert(model.als_knots@.contains(point.als));
    if !model.luma_aware {
        assert(model.luma_knots@[0] == 0);
    }
    assert(model.luma_knots@.contains(point.luma));
    lemma_interval(model.als_knots@, point.als as int);
    lemma_interval(model.luma_knots@, point.luma as int);
    let (x0, x1) = model.columns(als);
    let (y0, y1) = model.rows(luma);
    assert(model.envelopes(x0, y0) == (
        monotonic::lower_envelope(points, point.als as int, point.luma as int),
        monotonic::upper_envelope(points, point.als as int, point.luma as int),
    ));
    assert(model.across(als) == 0);
    assert(model.along(luma) == 0);
    let value = model.knot_value(x0, y0);
    double_laws::lemma_whole_positive(2);
    let place = monotonic::cell(model.als_knots.len() as int, x0, y0);
    let o = double::one();
    let (low, high) = (model.lower[place] as int, model.upper[place] as int);
    assert(low * o >= 0 && high * o >= 0) by (nonlinear_arith)
        requires
            low >= 0,
            high >= 0,
            o > 0,
    ;
    double_laws::lemma_closest_is_number(low * o, 1);
    double_laws::lemma_closest_is_number(high * o, 1);
    double_laws::lemma_closest_is_number(double::whole(low) + double::whole(high), 1);
    let total = double::sum(double::whole(low), double::whole(high));
    double_laws::lemma_quotient_order(total, total, double::whole(2));
    lemma_level(value, 0);
    monotonic::lemma_lower_from(points, monotonic::minimum(points), point.als as int, point.luma as int);
    monotonic::lemma_upper_from(points, monotonic::maximum(points), point.als as int, point.luma as int);
    assert(monotonic::dominated(points[index], point.als as int, point.luma as int));
    assert(monotonic::dominating(points[index], point.als as int, point.luma as int));
}

/// The values of a model are within what was observed.
pub proof fn lemma_within(model: Model, greatest: u64, entries: Seq<Sample>)
    requires
        model.well_formed(),
        model.fitted(entries),
        entries.len() > 0,
        forall|i: int| 0 <= i < entries.len() ==> (#[trigger] entries[i]).brightness <= greatest,
    ensures
        model.within(greatest),
{
    let points = model.points(entries);
    monotonic::lemma_extremes(points);
    assert forall|i: int| 0 <= i < points.len() implies (#[trigger] points[i]).value <= greatest by {
        assert(points[i].value == entries[i].brightness);
    }
    let width = model.als_knots.len() as int;
    let height = model.luma_knots.len() as int;
    assert forall|i: int| 0 <= i < model.lower.len() implies (#[trigger] model.lower[i]) <= greatest
        && model.upper[i] <= greatest by {
        let (x, y) = (i % width, i / width);
        lemma_place(width, height, i);
        let column = model.als_knots[x] as int;
        let row = model.luma_knots[y] as int;
        assert(model.envelopes(x, y) == (
            monotonic::lower_envelope(points, column, row),
            monotonic::upper_envelope(points, column, row),
        ));
        lemma_envelope_extremes(points, column, row);
    }
    assert forall|i: int| 0 <= i < model.upper.len() implies (#[trigger] model.upper[i]) <= greatest by {
        assert(model.lower[i] <= greatest);
    }
}

/// The envelopes lie between the least and the greatest observation.
proof fn lemma_envelope_extremes(points: Seq<Observation>, x: int, y: int)
    requires
        points.len() > 0,
    ensures
        monotonic::minimum(points) <= monotonic::lower_envelope(points, x, y)
            <= monotonic::maximum(points),
        monotonic::minimum(points) <= monotonic::upper_envelope(points, x, y)
            <= monotonic::maximum(points),
{
    monotonic::lemma_extremes(points);
    monotonic::lemma_lower_from(points, monotonic::minimum(points), x, y);
    monotonic::lemma_upper_from(points, monotonic::maximum(points), x, y);
    let low = monotonic::lower_envelope(points, x, y);
    let high = monotonic::upper_envelope(points, x, y);
    if low != monotonic::minimum(points) {
        let i = choose|i: int|
            0 <= i < points.len() && #[trigger] monotonic::dominated(points[i], x, y)
                && points[i].value == low;
        assert(points[i].value <= monotonic::maximum(points));
    }
    if high != monotonic::maximum(points) {
        let i = choose|i: int|
            0 <= i < points.len() && #[trigger] monotonic::dominating(points[i], x, y)
                && points[i].value == high;
        assert(points[i].value >= monotonic::minimum(points));
    }
}

/// The knots of a model lie between the numbers of the least and of the greatest observation.
proof fn lemma_knot_extremes(model: Model, entries: Seq<Sample>, x: int, y: int)
    requires
        model.well_formed(),
        model.fitted(entries),
        entries.len() > 0,
        0 <= x < model.als_knots.len(),
        0 <= y < model.luma_knots.len(),
    ensures
        double::whole(monotonic::minimum(model.points(entries))) <= model.knot_value(x, y)
            <= double::whole(monotonic::maximum(model.points(entries))),
{
    let points = model.points(entries);
    let (least, most) = (monotonic::minimum(points), monotonic::maximum(points));
    monotonic::lemma_extremes(points);
    lemma_envelope_extremes(points, model.als_knots[x] as int, model.luma_knots[y] as int);
    let (low, high) = model.envelopes(x, y);
    lemma_middle_order(least, least, low, high);
    lemma_middle_order(low, high, most, most);
    lemma_same_middle(least);
    lemma_same_middle(most);
}

/// Observations that all agree, such as a single one, are predicted everywhere: as the number that is
/// closest to their value.
pub proof fn law_agreeing_observations_are_constant(
    model: Model,
    entries: Seq<Sample>,
    value: u64,
    als: u64,
    luma: u8,
)
    requires
        model.well_formed(),
        model.fitted(entries),
        entries.len() > 0,
        forall|i: int| 0 <= i < entries.len() ==> (#[trigger] entries[i]).brightness == value,
    ensures
        model.predicted(als, luma) == double::whole(value as int),
{
    model.lemma_placed(als, luma);
    let points = model.points(entries);
    monotonic::lemma_extremes(points);
    assert forall|i: int| 0 <= i < points.len() implies (#[trigger] points[i]).value == value by {
        assert(points[i].value == entries[i].brightness);
    }
    let (x0, x1) = model.columns(als);
    let (y0, y1) = model.rows(luma);
    lemma_knot_extremes(model, entries, x0, y0);
    lemma_knot_extremes(model, entries, x1, y0);
    lemma_knot_extremes(model, entries, x0, y1);
    lemma_knot_extremes(model, entries, x1, y1);
    double_laws::lemma_whole(1);
    let o = double::one();
    assert(value * o >= 0) by (nonlinear_arith)
        requires
            value >= 0,
            o > 0,
    ;
    double_laws::lemma_closest_is_number(value * o, 1);
    let number = double::whole(value as int);
    lemma_level(number, model.across(als));
    lemma_level(number, model.along(luma));
}

/// No prediction, rounded to an integer, leaves the range of the observed values.
pub proof fn law_predictions_stay_within_observations(
    model: Model,
    entries: Seq<Sample>,
    als: u64,
    luma: u8,
)
    requires
        model.well_formed(),
        model.fitted(entries),
        entries.len() > 0,
        forall|i: int| 0 <= i < entries.len() ==> (#[trigger] entries[i]).brightness < PRECISE,
    ensures
        monotonic::minimum(model.points(entries)) <= double::round(model.predicted(als, luma))
            <= monotonic::maximum(model.points(entries)),
{
    let points = model.points(entries);
    monotonic::lemma_extremes(points);
    assert forall|i: int| 0 <= i < points.len() implies 0 <= (#[trigger] points[i]).value < PRECISE by {
        assert(points[i].value == entries[i].brightness);
    }
    let (least, most) = (monotonic::minimum(points), monotonic::maximum(points));
    let greatest = PRECISE;
    lemma_within(model, greatest, entries);
    model.lemma_placed(als, luma);
    lemma_close(model, greatest, als, luma);
    lemma_grain(greatest);
    let (x0, x1) = model.columns(als);
    let (y0, y1) = model.rows(luma);
    let (a, b) = (model.across(als), model.along(luma));
    let o = double::one();
    let e = grain(greatest);
    double_laws::lemma_whole(least);
    double_laws::lemma_whole(most);
    double_laws::lemma_whole(greatest as int);
    let (low, high) = (least * o, most * o);
    lemma_knot_extremes(model, entries, x0, y0);
    lemma_knot_extremes(model, entries, x1, y0);
    lemma_knot_extremes(model, entries, x0, y1);
    lemma_knot_extremes(model, entries, x1, y1);
    let (v00, v10) = (model.knot_value(x0, y0), model.knot_value(x1, y0));
    let (v01, v11) = (model.knot_value(x0, y1), model.knot_value(x1, y1));
    lemma_blend_within(low, high, v00, v10, a, o);
    lemma_blend_within(low, high, v01, v11, a, o);
    lemma_blend_within(
        low * o,
        high * o,
        monotonic::blend(v00, v10, a, o),
        monotonic::blend(v01, v11, a, o),
        b,
        o,
    );
    let out = model.predicted(als, luma);
    let square = o * o;
    assert(square > 0) by (nonlinear_arith)
        requires
            square == o * o,
            o > 0,
    ;
    assert(low * o * o == low * square && high * o * o == high * square) by (nonlinear_arith)
        requires
            square == o * o,
    ;
    assert((low - 16 * e) * square == low * square - (16 * e) * square) by (nonlinear_arith);
    assert((high + 16 * e) * square == high * square + (16 * e) * square) by (nonlinear_arith);
    lemma_cancel(low - 16 * e, out, square);
    lemma_cancel(out, high + 16 * e, square);
    double_laws::lemma_round_bounds(out);
    let value = double::round(out);
    double_laws::lemma_slack();
    assert(32 * e < o);
    assert(least <= value <= most) by (nonlinear_arith)
        requires
            2 * (value * o) >= 2 * (least * o) - 32 * e - o,
            2 * (value * o) <= 2 * (most * o) + 32 * e + o,
            32 * e < o,
            o > 0,
    ;
}

proof fn lemma_blend_within(low: int, high: int, l: int, r: int, a: int, d: int)
    by (nonlinear_arith)
    requires
        low <= l <= high,
        low <= r <= high,
        0 <= a <= d,
    ensures
        low * d <= monotonic::blend(l, r, a, d) <= high * d,
{
}

/// A model that ignores luma predicts the same whatever is on the screen.
pub proof fn law_luma_can_be_ignored(model: Model, als: u64, luma: u8, other: u8)
    requires
        !model.luma_aware,
    ensures
        model.predicted(als, luma) == model.predicted(als, other),
{
}

/// Whether two lists hold the same entries, in whatever order and however often each.
pub open spec fn same_entries(entries: Seq<Sample>, others: Seq<Sample>) -> bool {
    forall|entry: Sample| #[trigger] entries.contains(entry) <==> others.contains(entry)
}

proof fn lemma_same_knots(knots: Seq<u64>, others: Seq<u64>)
    requires
        monotonic::strictly_increasing(knots),
        monotonic::strictly_increasing(others),
        forall|c: u64| #[trigger] knots.contains(c) <==> others.contains(c),
    ensures
        knots == others,
    decreases knots.len(),
{
    if knots.len() == 0 {
        if others.len() > 0 {
            assert(others.contains(others[0]));
            assert(knots.contains(others[0]));
        }
        assert(knots =~= others);
    } else {
        assert(knots.contains(knots.last()));
        let place = choose|i: int| 0 <= i < others.len() && others[i] == knots.last();
        assert(others.contains(others.last()));
        assert(knots.contains(others.last()));
        let back = choose|i: int| 0 <= i < knots.len() && knots[i] == others.last();
        assert(knots.last() == others.last());
        let front = knots.drop_last();
        let other_front = others.drop_last();
        assert forall|c: u64| #[trigger] front.contains(c) <==> other_front.contains(c) by {
            if front.contains(c) {
                let i = choose|i: int| 0 <= i < front.len() && front[i] == c;
                assert(knots[i] == c && knots[i] < knots[knots.len() - 1]);
                assert(knots.contains(c));
                let j = choose|j: int| 0 <= j < others.len() && others[j] == c;
                assert(other_front[j] == c);
            }
            if other_front.contains(c) {
                let j = choose|j: int| 0 <= j < other_front.len() && other_front[j] == c;
                assert(others[j] == c && others[j] < others[others.len() - 1]);
                assert(others.contains(c));
                assert(knots.contains(c));
                let i = choose|i: int| 0 <= i < knots.len() && knots[i] == c;
                assert(front[i] == c);
            }
        }
        lemma_same_knots(front, other_front);
        assert(knots =~= front.push(knots.last()));
        assert(others =~= other_front.push(others.last()));
    }
}

/// The brightest reading of the domain or of some entries is that of all entries if it is that of
/// the same ones.
proof fn lemma_maximum_attained(entries: Seq<Sample>, scale: crate::als::Scale)
    ensures
        monotonic::als_maximum(entries, scale) == monotonic::domain_max(scale) || exists|i: int|
            0 <= i < entries.len() && (#[trigger] entries[i]).als == monotonic::als_maximum(
                entries,
                scale,
            ),
    decreases entries.len(),
{
    if entries.len() > 0 {
        let front = entries.drop_last();
        lemma_maximum_attained(front, scale);
        let rest = monotonic::als_maximum(front, scale);
        if entries.last().als > rest {
            assert(entries[entries.len() - 1].als == monotonic::als_maximum(entries, scale));
        } else if rest != monotonic::domain_max(scale) {
            let i = choose|i: int| 0 <= i < front.len() && (#[trigger] front[i]).als == rest;
            assert(entries[i].als == rest);
        }
    }
}

proof fn lemma_maximum_at_most(entries: Seq<Sample>, others: Seq<Sample>, scale: crate::als::Scale)
    requires
        forall|entry: Sample| #[trigger] entries.contains(entry) ==> others.contains(entry),
    ensures
        monotonic::als_maximum(entries, scale) <= monotonic::als_maximum(others, scale),
{
    lemma_maximum_attained(entries, scale);
    monotonic::lemma_brightest(others, scale);
    let most = monotonic::als_maximum(entries, scale);
    if most != monotonic::domain_max(scale) {
        let i = choose|i: int| 0 <= i < entries.len() && (#[trigger] entries[i]).als == most;
        assert(entries.contains(entries[i]));
        let j = choose|j: int| 0 <= j < others.len() && others[j] == entries[i];
        assert(others[j].als <= monotonic::als_maximum(others, scale));
    }
}

/// Every observation of the first list is one of the second.
spec fn within(points: Seq<Observation>, others: Seq<Observation>) -> bool {
    forall|i: int| 0 <= i < points.len() ==> others.contains(#[trigger] points[i])
}

proof fn lemma_same_extremes(points: Seq<Observation>, others: Seq<Observation>)
    requires
        points.len() > 0,
        others.len() > 0,
        within(points, others),
    ensures
        monotonic::minimum(others) <= monotonic::minimum(points),
        monotonic::maximum(points) <= monotonic::maximum(others),
{
    monotonic::lemma_extremes(points);
    monotonic::lemma_extremes(others);
    let low = choose|i: int|
        0 <= i < points.len() && (#[trigger] points[i]).value == monotonic::minimum(points);
    let high = choose|i: int|
        0 <= i < points.len() && (#[trigger] points[i]).value == monotonic::maximum(points);
    let j = choose|j: int| 0 <= j < others.len() && others[j] == points[low];
    let k = choose|k: int| 0 <= k < others.len() && others[k] == points[high];
    assert(others[j].value >= monotonic::minimum(others));
    assert(others[k].value <= monotonic::maximum(others));
}

proof fn lemma_envelopes_within(
    points: Seq<Observation>,
    others: Seq<Observation>,
    least: int,
    greatest: int,
    x: int,
    y: int,
)
    requires
        within(points, others),
    ensures
        monotonic::lower_from(points, least, x, y) <= monotonic::lower_from(others, least, x, y),
        monotonic::upper_from(points, greatest, x, y) >= monotonic::upper_from(
            others,
            greatest,
            x,
            y,
        ),
{
    monotonic::lemma_lower_from(points, least, x, y);
    monotonic::lemma_lower_from(others, least, x, y);
    monotonic::lemma_upper_from(points, greatest, x, y);
    monotonic::lemma_upper_from(others, greatest, x, y);
    let lower = monotonic::lower_from(points, least, x, y);
    let upper = monotonic::upper_from(points, greatest, x, y);
    if lower != least {
        let i = choose|i: int|
            0 <= i < points.len() && #[trigger] monotonic::dominated(points[i], x, y)
                && points[i].value == lower;
        let j = choose|j: int| 0 <= j < others.len() && others[j] == points[i];
        assert(monotonic::dominated(others[j], x, y));
    }
    if upper != greatest {
        let i = choose|i: int|
            0 <= i < points.len() && #[trigger] monotonic::dominating(points[i], x, y)
                && points[i].value == upper;
        let j = choose|j: int| 0 <= j < others.len() && others[j] == points[i];
        assert(monotonic::dominating(others[j], x, y));
    }
}

proof fn lemma_points_within(
    model: Model,
    entries: Seq<Sample>,
    others: Seq<Sample>,
)
    requires
        forall|entry: Sample| #[trigger] entries.contains(entry) ==> others.contains(entry),
    ensures
        within(model.points(entries), model.points(others)),
{
    let points = model.points(entries);
    let other_points = model.points(others);
    assert forall|i: int| 0 <= i < points.len() implies other_points.contains(
        #[trigger] points[i],
    ) by {
        assert(entries.contains(entries[i]));
        let j = choose|j: int| 0 <= j < others.len() && others[j] == entries[i];
        assert(other_points[j] == points[i]);
    }
}

/// Neither the order of the entries nor how often one is repeated matters: models that are fitted to
/// the same entries in the same way have the same knots and heights, and so predict the same.
pub proof fn law_order_and_repetition_do_not_matter(
    model: Model,
    entries: Seq<Sample>,
    other: Model,
    others: Seq<Sample>,
)
    requires
        model.well_formed(),
        other.well_formed(),
        model.fitted(entries),
        other.fitted(others),
        entries.len() > 0,
        same_entries(entries, others),
        model.scale == other.scale,
        model.als_direction == other.als_direction,
        model.luma_direction == other.luma_direction,
        model.luma_aware == other.luma_aware,
    ensures
        model.als_max == other.als_max,
        model.als_knots@ == other.als_knots@,
        model.luma_knots@ == other.luma_knots@,
        model.lower@ == other.lower@,
        model.upper@ == other.upper@,
        forall|als: u64, luma: u8| #[trigger]
            model.predicted(als, luma) == other.predicted(als, luma),
{
    lemma_maximum_at_most(entries, others, model.scale);
    lemma_maximum_at_most(others, entries, model.scale);
    let points = model.points(entries);
    let other_points = model.points(others);
    assert(other.points(others) == other_points);
    lemma_points_within(model, entries, others);
    lemma_points_within(model, others, entries);
    assert(entries.contains(entries[0]));
    assert(others.contains(entries[0]));
    lemma_same_extremes(points, other_points);
    lemma_same_extremes(other_points, points);
    assert forall|c: u64| #[trigger] model.als_knots@.contains(c) <==> other.als_knots@.contains(c) by {
        if exists|i: int| #![auto] 0 <= i < points.len() && points[i].als == c {
            lemma_same_als(points, other_points, c);
        }
        if exists|i: int| #![auto] 0 <= i < other_points.len() && other_points[i].als == c {
            lemma_same_als(other_points, points, c);
        }
    }
    lemma_same_knots(model.als_knots@, other.als_knots@);
    if model.luma_aware {
        assert forall|c: u64| #[trigger]
            model.luma_knots@.contains(c) <==> other.luma_knots@.contains(c) by {
            if exists|i: int| #![auto] 0 <= i < points.len() && points[i].luma == c {
                lemma_same_luma(points, other_points, c);
            }
            if exists|i: int| #![auto] 0 <= i < other_points.len() && other_points[i].luma == c {
                lemma_same_luma(other_points, points, c);
            }
        }
        lemma_same_knots(model.luma_knots@, other.luma_knots@);
    }
    let width = model.als_knots.len() as int;
    let height = model.luma_knots.len() as int;
    assert forall|x: int, y: int| 0 <= x < width && 0 <= y < height implies #[trigger] model.envelopes(
        x,
        y,
    ) == other.envelopes(x, y) by {
        let (c, l) = (model.als_knots[x] as int, model.luma_knots[y] as int);
        let (least, greatest) = (monotonic::minimum(points), monotonic::maximum(points));
        lemma_envelopes_within(points, other_points, least, greatest, c, l);
        lemma_envelopes_within(other_points, points, least, greatest, c, l);
    }
    assert forall|i: int| 0 <= i < model.lower.len() implies #[trigger] model.lower@[i]
        == other.lower@[i] && model.upper@[i] == other.upper@[i] by {
        let (x, y) = (i % width, i / width);
        lemma_place(width, height, i);
        assert(model.envelopes(x, y) == other.envelopes(x, y));
    }
    assert(model.lower@ =~= other.lower@);
    assert forall|i: int| 0 <= i < model.upper.len() implies #[trigger] model.upper@[i]
        == other.upper@[i] by {
        assert(model.lower@[i] == other.lower@[i]);
    }
    assert(model.upper@ =~= other.upper@);
    assert forall|als: u64, luma: u8| #[trigger]
        model.predicted(als, luma) == other.predicted(als, luma) by {
        let (x0, x1) = model.columns(als);
        let (y0, y1) = model.rows(luma);
        assert(other.columns(als) == (x0, x1) && other.rows(luma) == (y0, y1));
        assert(other.across(als) == model.across(als) && other.along(luma) == model.along(luma));
    }
}

proof fn lemma_place(width: int, height: int, i: int)
    by (nonlinear_arith)
    requires
        0 < width,
        0 <= i < width * height,
    ensures
        0 <= i % width < width,
        0 <= i / width < height,
        monotonic::cell(width, i % width, i / width) == i,
{
}

proof fn lemma_same_als(points: Seq<Observation>, others: Seq<Observation>, c: u64)
    requires
        within(points, others),
        exists|i: int| #![auto] 0 <= i < points.len() && points[i].als == c,
    ensures
        exists|i: int| #![auto] 0 <= i < others.len() && others[i].als == c,
{
    let i = choose|i: int| #![auto] 0 <= i < points.len() && points[i].als == c;
    let j = choose|j: int| 0 <= j < others.len() && others[j] == points[i];
    assert(others[j].als == c);
}

proof fn lemma_same_luma(points: Seq<Observation>, others: Seq<Observation>, c: u64)
    requires
        within(points, others),
        exists|i: int| #![auto] 0 <= i < points.len() && points[i].luma == c,
    ensures
        exists|i: int| #![auto] 0 <= i < others.len() && others[i].luma == c,
{
    let i = choose|i: int| #![auto] 0 <= i < points.len() && points[i].luma == c;
    let j = choose|j: int| 0 <= j < others.len() && others[j] == points[i];
    assert(others[j].luma == c);
}

} // verus!
