//! A monotonic surface through the learned observations.

use vstd::prelude::*;

use crate::als::Scale;
use crate::double;
use crate::double::{Double, INFINITE_BITS};
use crate::double_laws;
use crate::predictor::AlsDirection;

use super::adaptive::LumaDirection;

verus! {

/// The greatest coordinate of lux readings in the normal domain: the bits of six. Lux is logarithmic,
/// so this covers readings up to 999,999 lux. Brighter observations extend it.
pub const LUX_COORDINATE_MAX: u64 = 0x4018_0000_0000_0000;

/// The greatest coordinate of the readings of a linear sensor, which reports a percentage: the bits of
/// five.
pub const LINEAR_COORDINATE_MAX: u64 = 0x4014_0000_0000_0000;

/// What the luma of a coordinate of one is.
pub const LUMA_SCALE: u64 = 20;

/// The brightest screen luma, a percentage.
pub const LUMA_MAX: u64 = 100;

/// The number of distinct luma values.
pub const LUMA_LEVELS: u64 = 101;

/// What was learned under a condition. The reading is told as its coordinate on the scale of the
/// sensor, by the bits of a double-precision number.
#[derive(Clone, Copy, Debug, PartialEq, Eq, Structural)]
pub struct Sample {
    pub als: u64,
    pub luma: u8,
    pub brightness: u64,
}

/// Whether the coordinates of all samples are finite.
pub open spec fn finite(samples: Seq<Sample>) -> bool {
    forall|i: int| 0 <= i < samples.len() ==> (#[trigger] samples[i]).als < INFINITE_BITS
}

/// An observation whose conditions are oriented so that the value grows with both of them.
#[derive(Clone, Copy, Debug, PartialEq, Eq, Structural)]
pub struct Observation {
    pub als: u64,
    pub luma: u64,
    pub value: u64,
}

/// Mirrors a coordinate of `0..=maximum` where values shrink as the coordinate grows.
pub open spec fn oriented(coordinate: int, maximum: int, decreasing: bool) -> int {
    if decreasing {
        maximum - coordinate
    } else {
        coordinate
    }
}

pub open spec fn capped(coordinate: int, maximum: int) -> int {
    if coordinate <= maximum {
        coordinate
    } else {
        maximum
    }
}

pub open spec fn domain_max(scale: Scale) -> int {
    match scale {
        Scale::Lux => LUX_COORDINATE_MAX as int,
        Scale::Linear => LINEAR_COORDINATE_MAX as int,
    }
}

/// The brightest reading that the surface covers: the normal domain and every observation.
pub open spec fn als_maximum(entries: Seq<Sample>, scale: Scale) -> int
    decreases entries.len(),
{
    if entries.len() == 0 {
        domain_max(scale)
    } else {
        let rest = als_maximum(entries.drop_last(), scale);
        if entries.last().als > rest {
            entries.last().als as int
        } else {
            rest
        }
    }
}

/// The bits of a coordinate of ambient light, mirrored where values shrink as the coordinate grows.
pub open spec fn oriented_als(als: int, maximum: int, direction: AlsDirection) -> int {
    let coordinate = capped(als, maximum);
    if direction == AlsDirection::Decreasing {
        double::bits_of(
            double::distance(
                double::steps_of(maximum as u64),
                double::steps_of(coordinate as u64),
            ),
        ) as int
    } else {
        coordinate
    }
}

pub open spec fn oriented_luma(luma: int, direction: LumaDirection, luma_aware: bool) -> int {
    if luma_aware {
        oriented(capped(luma, LUMA_MAX as int), LUMA_MAX as int, direction == LumaDirection::Decreasing)
    } else {
        0
    }
}

/// The oriented observations of the learned entries, in the same order.
pub open spec fn observations(
    entries: Seq<Sample>,
    maximum: int,
    als_direction: AlsDirection,
    luma_direction: LumaDirection,
    luma_aware: bool,
) -> Seq<Observation> {
    entries.map_values(
        |entry: Sample| Observation {
            als: oriented_als(entry.als as int, maximum, als_direction) as u64,
            luma: oriented_luma(entry.luma as int, luma_direction, luma_aware) as u64,
            value: entry.brightness,
        },
    )
}

/// Whether an observation was made under conditions that call for at most the value at `(x, y)`.
pub open spec fn dominated(point: Observation, x: int, y: int) -> bool {
    point.als <= x && point.luma <= y
}

/// Whether an observation was made under conditions that call for at least the value at `(x, y)`.
pub open spec fn dominating(point: Observation, x: int, y: int) -> bool {
    point.als >= x && point.luma >= y
}

/// The least observed value.
pub open spec fn minimum(points: Seq<Observation>) -> int
    recommends
        points.len() > 0,
    decreases points.len(),
{
    if points.len() <= 1 {
        points[0].value as int
    } else {
        let rest = minimum(points.drop_last());
        if points.last().value < rest {
            points.last().value as int
        } else {
            rest
        }
    }
}

/// The greatest observed value.
pub open spec fn maximum(points: Seq<Observation>) -> int
    recommends
        points.len() > 0,
    decreases points.len(),
{
    if points.len() <= 1 {
        points[0].value as int
    } else {
        let rest = maximum(points.drop_last());
        if points.last().value > rest {
            points.last().value as int
        } else {
            rest
        }
    }
}

/// The greatest observation dominated by `(x, y)`, or `least` where there is none.
pub open spec fn lower_from(points: Seq<Observation>, least: int, x: int, y: int) -> int
    decreases points.len(),
{
    if points.len() == 0 {
        least
    } else {
        let rest = lower_from(points.drop_last(), least, x, y);
        if dominated(points.last(), x, y) && points.last().value > rest {
            points.last().value as int
        } else {
            rest
        }
    }
}

/// The least observation that dominates `(x, y)`, or `greatest` where there is none.
pub open spec fn upper_from(points: Seq<Observation>, greatest: int, x: int, y: int) -> int
    decreases points.len(),
{
    if points.len() == 0 {
        greatest
    } else {
        let rest = upper_from(points.drop_last(), greatest, x, y);
        if dominating(points.last(), x, y) && points.last().value < rest {
            points.last().value as int
        } else {
            rest
        }
    }
}

/// The lower envelope: the greatest observation dominated by `(x, y)`.
pub open spec fn lower_envelope(points: Seq<Observation>, x: int, y: int) -> int {
    lower_from(points, minimum(points), x, y)
}

/// The upper envelope: the least observation that dominates `(x, y)`.
pub open spec fn upper_envelope(points: Seq<Observation>, x: int, y: int) -> int {
    upper_from(points, maximum(points), x, y)
}

pub(crate) open spec fn is_lower(points: Seq<Observation>, least: int, x: int, y: int, value: int) -> bool {
    &&& value >= least
    &&& forall|i: int|
        0 <= i < points.len() && #[trigger] dominated(points[i], x, y) ==> points[i].value <= value
    &&& value == least || exists|i: int|
        0 <= i < points.len() && #[trigger] dominated(points[i], x, y) && points[i].value == value
}

pub(crate) open spec fn is_upper(points: Seq<Observation>, greatest: int, x: int, y: int, value: int) -> bool {
    &&& value <= greatest
    &&& forall|i: int|
        0 <= i < points.len() && #[trigger] dominating(points[i], x, y) ==> points[i].value >= value
    &&& value == greatest || exists|i: int|
        0 <= i < points.len() && #[trigger] dominating(points[i], x, y) && points[i].value == value
}

pub(crate) proof fn lemma_lower_from(points: Seq<Observation>, least: int, x: int, y: int)
    ensures
        is_lower(points, least, x, y, lower_from(points, least, x, y)),
    decreases points.len(),
{
    if points.len() > 0 {
        let front = points.drop_last();
        lemma_lower_from(front, least, x, y);
        let rest = lower_from(front, least, x, y);
        let value = lower_from(points, least, x, y);
        assert(points.last() == points[points.len() - 1]);
        assert forall|i: int|
            0 <= i < points.len() && #[trigger] dominated(points[i], x, y) implies points[i].value
            <= value by {
            if i < points.len() - 1 {
                assert(dominated(front[i], x, y));
            }
        }
        if value != least {
            if dominated(points.last(), x, y) && points.last().value > rest {
                assert(dominated(points[points.len() - 1], x, y));
            } else {
                let i = choose|i: int|
                    0 <= i < front.len() && #[trigger] dominated(front[i], x, y) && front[i].value
                        == rest;
                assert(dominated(points[i], x, y));
            }
        }
    }
}

pub(crate) proof fn lemma_upper_from(points: Seq<Observation>, greatest: int, x: int, y: int)
    ensures
        is_upper(points, greatest, x, y, upper_from(points, greatest, x, y)),
    decreases points.len(),
{
    if points.len() > 0 {
        let front = points.drop_last();
        lemma_upper_from(front, greatest, x, y);
        let rest = upper_from(front, greatest, x, y);
        let value = upper_from(points, greatest, x, y);
        assert(points.last() == points[points.len() - 1]);
        assert forall|i: int|
            0 <= i < points.len() && #[trigger] dominating(points[i], x, y) implies points[i].value
            >= value by {
            if i < points.len() - 1 {
                assert(dominating(front[i], x, y));
            }
        }
        if value != greatest {
            if dominating(points.last(), x, y) && points.last().value < rest {
                assert(dominating(points[points.len() - 1], x, y));
            } else {
                let i = choose|i: int|
                    0 <= i < front.len() && #[trigger] dominating(front[i], x, y) && front[i].value
                        == rest;
                assert(dominating(points[i], x, y));
            }
        }
    }
}

proof fn lemma_lower_unique(
    points: Seq<Observation>,
    least: int,
    x: int,
    y: int,
    first: int,
    second: int,
)
    requires
        is_lower(points, least, x, y, first),
        is_lower(points, least, x, y, second),
    ensures
        first == second,
{
}

proof fn lemma_upper_unique(
    points: Seq<Observation>,
    greatest: int,
    x: int,
    y: int,
    first: int,
    second: int,
)
    requires
        is_upper(points, greatest, x, y, first),
        is_upper(points, greatest, x, y, second),
    ensures
        first == second,
{
}

/// The least and greatest values bound every observation and are observed themselves.
pub(crate) proof fn lemma_extremes(points: Seq<Observation>)
    requires
        points.len() > 0,
    ensures
        forall|i: int|
            0 <= i < points.len() ==> minimum(points) <= (#[trigger] points[i]).value <= maximum(
                points,
            ),
        exists|i: int| 0 <= i < points.len() && (#[trigger] points[i]).value == minimum(points),
        exists|i: int| 0 <= i < points.len() && (#[trigger] points[i]).value == maximum(points),
    decreases points.len(),
{
    if points.len() == 1 {
        assert(points[0].value == minimum(points));
    } else {
        let front = points.drop_last();
        lemma_extremes(front);
        assert(points.last() == points[points.len() - 1]);
        assert forall|i: int| 0 <= i < points.len() implies minimum(points) <= (
        #[trigger] points[i]).value <= maximum(points) by {
            if i < points.len() - 1 {
                assert(front[i] == points[i]);
            }
        }
        let low = choose|i: int| 0 <= i < front.len() && (#[trigger] front[i]).value == minimum(front);
        let high = choose|i: int| 0 <= i < front.len() && (#[trigger] front[i]).value == maximum(front);
        assert(points[low] == front[low]);
        assert(points[high] == front[high]);
        let last = points.len() - 1;
        assert(points[last].value == minimum(points) || points[low].value == minimum(points));
        assert(points[last].value == maximum(points) || points[high].value == maximum(points));
    }
}

pub open spec fn strictly_increasing(knots: Seq<u64>) -> bool {
    forall|i: int, j: int| 0 <= i < j < knots.len() ==> knots[i] < knots[j]
}

/// Where the value at column `x` and row `y` of a grid stands.
pub open spec fn cell(width: int, x: int, y: int) -> int {
    y * width + x
}

pub(crate) proof fn lemma_cell(width: int, height: int, x: int, y: int)
    requires
        0 <= x < width,
        0 <= y < height,
    ensures
        0 <= cell(width, x, y) < width * height,
        cell(width, x, y) + 1 <= width * height,
        x > 0 ==> cell(width, x, y) - 1 == cell(width, x - 1, y),
        y > 0 ==> cell(width, x, y) - width == cell(width, x, y - 1),
        cell(width, x, y) + 1 == cell(width, x + 1, y),
        cell(width, x, y) + width == cell(width, x, y + 1),
{
    assert(y * width + x < width * height) by (nonlinear_arith)
        requires
            0 <= x < width,
            0 <= y < height,
    ;
    assert(0 <= y * width) by (nonlinear_arith)
        requires
            0 <= x < width,
            0 <= y,
    ;
    assert((y - 1) * width == y * width - width) by (nonlinear_arith);
    assert((y + 1) * width == y * width + width) by (nonlinear_arith);
}

proof fn lemma_cell_unique(width: int, x: int, y: int, other_x: int, other_y: int)
    by (nonlinear_arith)
    requires
        0 <= x < width,
        0 <= other_x < width,
        cell(width, x, y) == cell(width, other_x, other_y),
    ensures
        x == other_x,
        y == other_y,
{
}

/// The first knot at or above `coordinate`.
fn lower_bound(knots: &Vec<u64>, coordinate: u64) -> (index: usize)
    requires
        strictly_increasing(knots@),
    ensures
        index <= knots.len(),
        forall|i: int| 0 <= i < index ==> knots[i] < coordinate,
        forall|i: int| index <= i < knots.len() ==> knots[i] >= coordinate,
{
    let mut low: usize = 0;
    let mut high: usize = knots.len();
    while low < high
        invariant
            strictly_increasing(knots@),
            low <= high <= knots.len(),
            forall|i: int| 0 <= i < low ==> knots[i] < coordinate,
            forall|i: int| high <= i < knots.len() ==> knots[i] >= coordinate,
        decreases high - low,
    {
        let middle: usize = low + (high - low) / 2;
        if knots[middle] < coordinate {
            low = middle + 1;
        } else {
            high = middle;
        }
    }
    low
}

/// Adds a knot where it belongs, unless it is there already.
fn insert_knot(knots: &mut Vec<u64>, coordinate: u64)
    requires
        strictly_increasing(old(knots)@),
        old(knots).len() < usize::MAX,
    ensures
        strictly_increasing(final(knots)@),
        forall|c: u64|
            #![auto]
            final(knots)@.contains(c) <==> old(knots)@.contains(c) || c == coordinate,
        old(knots).len() <= final(knots).len() <= old(knots).len() + 1,
{
    let index: usize = lower_bound(knots, coordinate);
    let ghost before = knots@;
    if index < knots.len() && knots[index] == coordinate {
        assert(before[index as int] == coordinate);
        return ;
    }
    knots.insert(index, coordinate);
    proof {
        let after = knots@;
        assert(after == before.insert(index as int, coordinate));
        assert forall|c: u64|
            #![auto]
            after.contains(c) <==> before.contains(c) || c == coordinate by {
            if before.contains(c) {
                let i = choose|i: int| 0 <= i < before.len() && before[i] == c;
                if i < index {
                    assert(after[i] == c);
                } else {
                    assert(after[i + 1] == c);
                }
            }
            if c == coordinate {
                assert(after[index as int] == c);
            }
            if after.contains(c) {
                let i = choose|i: int| 0 <= i < after.len() && after[i] == c;
                if i < index {
                    assert(before[i] == c);
                } else if i > index {
                    assert(before[i - 1] == c);
                }
            }
        }
    }
}

proof fn lemma_luma_knot_count(knots: Seq<u64>)
    requires
        strictly_increasing(knots),
        forall|i: int| 0 <= i < knots.len() ==> knots[i] <= LUMA_MAX,
    ensures
        knots.len() <= LUMA_LEVELS,
{
    lemma_increasing_at_least(knots, knots.len() as int);
}

/// Strictly increasing naturals grow at least as fast as their positions.
proof fn lemma_increasing_at_least(knots: Seq<u64>, count: int)
    requires
        strictly_increasing(knots),
        0 <= count <= knots.len(),
    ensures
        count > 0 ==> knots[count - 1] >= count - 1,
    decreases count,
{
    if count > 1 {
        lemma_increasing_at_least(knots, count - 1);
        assert(knots[count - 2] < knots[count - 1]);
    }
}

/// A monotonic surface whose knots hold every learned condition.
///
/// `lower` and `upper` hold both envelopes at each knot, row by row: the greatest observation
/// dominated by the knot and the least one that dominates it. The surface lies in the middle between
/// them, and between knots it is bilinear.
#[derive(Debug)]
pub struct Model {
    pub lower: Vec<u64>,
    pub upper: Vec<u64>,
    pub als_knots: Vec<u64>,
    pub luma_knots: Vec<u64>,
    pub scale: Scale,
    pub als_max: u64,
    pub als_direction: AlsDirection,
    pub luma_direction: LumaDirection,
    pub luma_aware: bool,
}

impl Model {
    /// The height of the surface at a knot.
    pub open spec fn knot_value(&self, x: int, y: int) -> int {
        let place = cell(self.als_knots.len() as int, x, y);
        double::quotient(
            double::sum(
                double::whole(self.lower[place] as int),
                double::whole(self.upper[place] as int),
            ),
            double::whole(2),
        )
    }

    /// The grid is complete, its knots span the domain, and the surface grows along both axes.
    pub open spec fn well_formed(&self) -> bool {
        &&& strictly_increasing(self.als_knots@)
        &&& strictly_increasing(self.luma_knots@)
        &&& self.als_knots.len() >= 2
        &&& self.als_knots[0] == 0
        &&& self.als_knots[self.als_knots.len() - 1] == self.als_max
        &&& self.als_max < INFINITE_BITS
        &&& self.luma_aware ==> self.luma_knots.len() >= 2 && self.luma_knots[0] == 0
            && self.luma_knots[self.luma_knots.len() - 1] == LUMA_MAX
        &&& !self.luma_aware ==> self.luma_knots@ == seq![0u64]
        &&& self.lower.len() == self.als_knots.len() * self.luma_knots.len()
        &&& self.upper.len() == self.lower.len()
        &&& forall|x: int, y: int, other_x: int, other_y: int|
            0 <= x <= other_x < self.als_knots.len() && 0 <= y <= other_y < self.luma_knots.len() ==> {
                let (low, high) = #[trigger] self.envelopes(x, y);
                let (other_low, other_high) = #[trigger] self.envelopes(other_x, other_y);
                low <= other_low && high <= other_high
            }
    }

    /// The observations that the surface was fitted to, given the learned entries.
    pub open spec fn points(&self, entries: Seq<Sample>) -> Seq<Observation> {
        observations(entries, self.als_max as int, self.als_direction, self.luma_direction, self.luma_aware)
    }

    /// The surface that belongs to the learned entries.
    pub open spec fn fitted(&self, entries: Seq<Sample>) -> bool {
        let points = self.points(entries);
        &&& self.als_max == als_maximum(entries, self.scale)
        &&& forall|c: u64|
            #![auto]
            self.als_knots@.contains(c) <==> c == 0 || c == self.als_max || exists|i: int|
                0 <= i < points.len() && points[i].als == c
        &&& self.luma_aware ==> forall|c: u64|
            #![auto]
            self.luma_knots@.contains(c) <==> c == 0 || c == LUMA_MAX || exists|i: int|
                0 <= i < points.len() && points[i].luma == c
        &&& forall|x: int, y: int|
            0 <= x < self.als_knots.len() && 0 <= y < self.luma_knots.len()
                ==> #[trigger] self.envelopes(x, y) == (
                lower_envelope(points, self.als_knots[x] as int, self.luma_knots[y] as int),
                upper_envelope(points, self.als_knots[x] as int, self.luma_knots[y] as int),
            )
    }

    /// Both envelopes at a knot.
    pub open spec fn envelopes(&self, x: int, y: int) -> (int, int) {
        let place = cell(self.als_knots.len() as int, x, y);
        (self.lower[place] as int, self.upper[place] as int)
    }
}

fn orient(coordinate: u64, maximum: u64, decreasing: bool) -> (result: u64)
    requires
        coordinate <= maximum,
    ensures
        result == oriented(coordinate as int, maximum as int, decreasing),
{
    if decreasing {
        maximum - coordinate
    } else {
        coordinate
    }
}

/// A mirrored coordinate is within the domain, and greater ones are mirrored to lesser ones.
pub(crate) proof fn lemma_mirrored(als: u64, more: u64, maximum: u64)
    requires
        als <= more <= maximum < INFINITE_BITS,
    ensures
        0 <= oriented_als(more as int, maximum as int, AlsDirection::Decreasing) <= oriented_als(
            als as int,
            maximum as int,
            AlsDirection::Decreasing,
        ) <= maximum,
        double::steps_of(
            oriented_als(als as int, maximum as int, AlsDirection::Decreasing) as u64,
        ) == double::distance(double::steps_of(maximum), double::steps_of(als)),
{
    lemma_mirror(als, maximum);
    lemma_mirror(more, maximum);
    let (top, low, high) = (
        double::steps_of(maximum),
        double::steps_of(als),
        double::steps_of(more),
    );
    double::lemma_bits_order(als, more);
    double::lemma_bits_order(more, maximum);
    double_laws::law_rounding_keeps_the_order(top - high, 1, top - low, 1);
    let first = oriented_als(als as int, maximum as int, AlsDirection::Decreasing) as u64;
    let second = oriented_als(more as int, maximum as int, AlsDirection::Decreasing) as u64;
    if first < second {
        double::lemma_bits_strict(first, second);
    }
}

/// A mirrored coordinate has bits.
proof fn lemma_mirror(als: u64, maximum: u64)
    requires
        als <= maximum < INFINITE_BITS,
    ensures
        ({
            let mirrored = oriented_als(als as int, maximum as int, AlsDirection::Decreasing);
            &&& 0 <= mirrored <= maximum
            &&& double::steps_of(mirrored as u64) == double::distance(
                double::steps_of(maximum),
                double::steps_of(als),
            )
        }),
{
    let (top, low) = (double::steps_of(maximum), double::steps_of(als));
    double::lemma_bits_order(als, maximum);
    double_laws::lemma_bits_are_number(maximum);
    double_laws::law_rounding_keeps_the_order(top - low, 1, top, 1);
    double_laws::lemma_closest_is_number(top - low, 1);
    let mirrored = double::distance(top, low);
    let bits = double_laws::lemma_number_has_bits(mirrored, maximum);
    double::lemma_bits_of(bits);
    if bits > maximum {
        double::lemma_bits_strict(maximum, bits);
    }
}

fn orient_als(als: u64, maximum: u64, direction: AlsDirection) -> (result: u64)
    requires
        maximum < INFINITE_BITS,
    ensures
        result == oriented_als(als as int, maximum as int, direction),
        result <= maximum,
{
    let capped: u64 = if als <= maximum { als } else { maximum };
    if direction == AlsDirection::Decreasing {
        let mirrored = Double::decode(maximum).apart(Double::decode(capped));
        proof {
            lemma_mirror(capped, maximum);
            let bits = double::bits_of(mirrored.value());
            double::lemma_bits_order(bits, maximum);
            double::lemma_finite(mirrored, maximum);
        }
        let bits: u64 = mirrored.to_bits();
        proof {
            double::lemma_bits_of(bits);
        }
        bits
    } else {
        capped
    }
}

fn orient_luma(luma: u8, direction: LumaDirection, luma_aware: bool) -> (result: u64)
    ensures
        result == oriented_luma(luma as int, direction, luma_aware),
        result <= LUMA_MAX,
{
    if luma_aware {
        let capped: u64 = if luma as u64 <= LUMA_MAX { luma as u64 } else { LUMA_MAX };
        orient(capped, LUMA_MAX, direction == LumaDirection::Decreasing)
    } else {
        0
    }
}

fn als_coordinate_max(scale: Scale) -> (maximum: u64)
    ensures
        maximum == domain_max(scale),
{
    match scale {
        Scale::Lux => LUX_COORDINATE_MAX,
        Scale::Linear => LINEAR_COORDINATE_MAX,
    }
}

fn brightest(entries: &[Sample], scale: Scale) -> (maximum: u64)
    ensures
        maximum == als_maximum(entries@, scale),
{
    let mut maximum: u64 = als_coordinate_max(scale);
    let mut i: usize = 0;
    while i < entries.len()
        invariant
            i <= entries.len(),
            maximum == als_maximum(entries@.take(i as int), scale),
        decreases entries.len() - i,
    {
        if entries[i].als > maximum {
            maximum = entries[i].als;
        }
        proof {
            assert(entries@.take(i + 1).drop_last() == entries@.take(i as int));
        }
        i = i + 1;
    }
    proof {
        assert(entries@.take(entries.len() as int) == entries@);
    }
    maximum
}

pub(crate) proof fn lemma_brightest(entries: Seq<Sample>, scale: Scale)
    ensures
        als_maximum(entries, scale) >= domain_max(scale),
        forall|i: int| 0 <= i < entries.len() ==> entries[i].als <= als_maximum(entries, scale),
        finite(entries) ==> als_maximum(entries, scale) < INFINITE_BITS,
    decreases entries.len(),
{
    if entries.len() > 0 {
        let front = entries.drop_last();
        lemma_brightest(front, scale);
        if finite(entries) {
            assert forall|i: int| 0 <= i < front.len() implies (#[trigger] front[i]).als
                < INFINITE_BITS by {
                assert(front[i] == entries[i]);
            }
            assert(entries[entries.len() - 1].als < INFINITE_BITS);
        }
        assert forall|i: int| 0 <= i < entries.len() implies entries[i].als <= als_maximum(
            entries,
            scale,
        ) by {
            if i < entries.len() - 1 {
                assert(front[i] == entries[i]);
            }
        }
    }
}

fn observe(
    entries: &[Sample],
    maximum: u64,
    als_direction: AlsDirection,
    luma_direction: LumaDirection,
    luma_aware: bool,
) -> (points: Vec<Observation>)
    requires
        maximum < INFINITE_BITS,
    ensures
        points@ == observations(
            entries@,
            maximum as int,
            als_direction,
            luma_direction,
            luma_aware,
        ),
        forall|i: int|
            0 <= i < points.len() ==> (#[trigger] points[i]).als <= maximum && points[i].luma
                <= LUMA_MAX,
{
    let mut points: Vec<Observation> = Vec::new();
    let ghost all = observations(
        entries@,
        maximum as int,
        als_direction,
        luma_direction,
        luma_aware,
    );
    let mut i: usize = 0;
    while i < entries.len()
        invariant
            i <= entries.len(),
            maximum < INFINITE_BITS,
            all == observations(
                entries@,
                maximum as int,
                als_direction,
                luma_direction,
                luma_aware,
            ),
            points.len() == i,
            points@ == all.take(i as int),
            forall|k: int|
                0 <= k < points.len() ==> (#[trigger] points[k]).als <= maximum && points[k].luma
                    <= LUMA_MAX,
        decreases entries.len() - i,
    {
        let point = Observation {
            als: orient_als(entries[i].als, maximum, als_direction),
            luma: orient_luma(entries[i].luma, luma_direction, luma_aware),
            value: entries[i].brightness,
        };
        proof {
            assert(all[i as int] == point);
            assert(all.take(i + 1) == all.take(i as int).push(point));
        }
        points.push(point);
        i = i + 1;
    }
    proof {
        assert(all.take(entries.len() as int) == all);
    }
    points
}

/// Both ends of the axis and every observed reading.
fn als_knots(points: &Vec<Observation>, maximum: u64) -> (knots: Vec<u64>)
    requires
        maximum > 0,
        points.len() + 2 <= usize::MAX,
        forall|i: int| 0 <= i < points.len() ==> (#[trigger] points[i]).als <= maximum,
    ensures
        strictly_increasing(knots@),
        2 <= knots.len() <= points.len() + 2,
        knots[0] == 0,
        knots[knots.len() - 1] == maximum,
        forall|c: u64|
            #![auto]
            knots@.contains(c) <==> c == 0 || c == maximum || exists|i: int|
                0 <= i < points.len() && points[i].als == c,
{
    let mut knots: Vec<u64> = Vec::new();
    knots.push(0);
    knots.push(maximum);
    let mut k: usize = 0;
    proof {
        assert(knots@[0] == 0 && knots@[1] == maximum);
    }
    while k < points.len()
        invariant
            k <= points.len(),
            points.len() + 2 <= usize::MAX,
            strictly_increasing(knots@),
            2 <= knots.len() <= k + 2,
            forall|c: u64|
                #![auto]
                knots@.contains(c) <==> c == 0 || c == maximum || exists|i: int|
                    0 <= i < k && points[i].als == c,
        decreases points.len() - k,
    {
        insert_knot(&mut knots, points[k].als);
        k = k + 1;
        proof {
            assert forall|c: u64|
                #![auto]
                knots@.contains(c) implies c == 0 || c == maximum || exists|i: int|
                0 <= i < k && points[i].als == c by {
                if c == points[k - 1].als {
                    assert(0 <= k - 1 < k);
                }
            }
        }
    }
    proof {
        lemma_spans(knots@, maximum);
    }
    knots
}

/// Both ends of the axis and every observed luma.
fn luma_knots(points: &Vec<Observation>) -> (knots: Vec<u64>)
    requires
        points.len() + 2 <= usize::MAX,
        forall|i: int| 0 <= i < points.len() ==> (#[trigger] points[i]).luma <= LUMA_MAX,
    ensures
        strictly_increasing(knots@),
        2 <= knots.len() <= LUMA_LEVELS,
        knots[0] == 0,
        knots[knots.len() - 1] == LUMA_MAX,
        forall|c: u64|
            #![auto]
            knots@.contains(c) <==> c == 0 || c == LUMA_MAX || exists|i: int|
                0 <= i < points.len() && points[i].luma == c,
{
    let mut knots: Vec<u64> = Vec::new();
    knots.push(0);
    knots.push(LUMA_MAX);
    let mut k: usize = 0;
    proof {
        assert(knots@[0] == 0 && knots@[1] == LUMA_MAX);
    }
    while k < points.len()
        invariant
            k <= points.len(),
            points.len() + 2 <= usize::MAX,
            strictly_increasing(knots@),
            2 <= knots.len() <= k + 2,
            forall|c: u64|
                #![auto]
                knots@.contains(c) <==> c == 0 || c == LUMA_MAX || exists|i: int|
                    0 <= i < k && points[i].luma == c,
        decreases points.len() - k,
    {
        insert_knot(&mut knots, points[k].luma);
        k = k + 1;
        proof {
            assert forall|c: u64|
                #![auto]
                knots@.contains(c) implies c == 0 || c == LUMA_MAX || exists|i: int|
                0 <= i < k && points[i].luma == c by {
                if c == points[k - 1].luma {
                    assert(0 <= k - 1 < k);
                }
            }
        }
    }
    proof {
        lemma_spans(knots@, LUMA_MAX);
        assert forall|i: int| 0 <= i < knots.len() implies knots[i] <= LUMA_MAX by {
            assert(knots@.contains(knots[i]));
        }
        lemma_luma_knot_count(knots@);
    }
    knots
}

/// Sorted knots that hold both ends of an axis begin and end with them.
proof fn lemma_spans(knots: Seq<u64>, maximum: u64)
    requires
        strictly_increasing(knots),
        knots.contains(0),
        knots.contains(maximum),
        forall|c: u64| #![auto] knots.contains(c) ==> c <= maximum,
    ensures
        knots.len() > 0,
        knots[0] == 0,
        knots[knots.len() - 1] == maximum,
{
    let zero = choose|i: int| 0 <= i < knots.len() && knots[i] == 0;
    let top = choose|i: int| 0 <= i < knots.len() && knots[i] == maximum;
    assert(knots.contains(knots[0]));
    assert(knots.contains(knots[knots.len() - 1]));
    if zero > 0 {
        assert(knots[0] < knots[zero]);
    }
    if top < knots.len() - 1 {
        assert(knots[top] < knots[knots.len() - 1]);
    }
}

/// Every observation lies on a knot of each axis.
spec fn on_knots(points: Seq<Observation>, als: Seq<u64>, luma: Seq<u64>) -> bool {
    &&& forall|i: int| 0 <= i < points.len() ==> als.contains((#[trigger] points[i]).als)
    &&& forall|i: int| 0 <= i < points.len() ==> luma.contains((#[trigger] points[i]).luma)
}

spec fn at(point: Observation, x: int, y: int) -> bool {
    point.als == x && point.luma == y
}

/// The extremes of the first `count` observations made exactly at `(x, y)`.
spec fn anchored(
    points: Seq<Observation>,
    count: int,
    x: int,
    y: int,
    low: Option<u64>,
    high: Option<u64>,
) -> bool {
    match (low, high) {
        (Some(low), Some(high)) => {
            &&& forall|i: int|
                0 <= i < count && #[trigger] at(points[i], x, y) ==> low <= points[i].value <= high
            &&& exists|i: int| 0 <= i < count && #[trigger] at(points[i], x, y) && points[i].value == low
            &&& exists|i: int| 0 <= i < count && #[trigger] at(points[i], x, y) && points[i].value == high
        },
        (None, None) => forall|i: int| 0 <= i < count ==> !#[trigger] at(points[i], x, y),
        _ => false,
    }
}

proof fn lemma_anchored_more(
    points: Seq<Observation>,
    count: int,
    x: int,
    y: int,
    low: Option<u64>,
    high: Option<u64>,
)
    requires
        0 <= count < points.len(),
        anchored(points, count, x, y, low, high),
    ensures
        !at(points[count], x, y) ==> anchored(points, count + 1, x, y, low, high),
        at(points[count], x, y) ==> anchored(
            points,
            count + 1,
            x,
            y,
            Some(if low is Some && low->0 < points[count].value { low->0 } else { points[count].value }),
            Some(if high is Some && high->0 > points[count].value { high->0 } else { points[count].value }),
        ),
{
}

/// Several observations can share one condition: keeps the extremes of each knot.
#[verifier::rlimit(40)]
fn anchors(points: &Vec<Observation>, als: &Vec<u64>, luma: &Vec<u64>) -> (grids: (
    Vec<Option<u64>>,
    Vec<Option<u64>>,
))
    requires
        strictly_increasing(als@),
        strictly_increasing(luma@),
        on_knots(points@, als@, luma@),
        als.len() * luma.len() <= usize::MAX,
    ensures
        grids.0.len() == als.len() * luma.len(),
        grids.1.len() == als.len() * luma.len(),
        forall|x: int, y: int|
            0 <= x < als.len() && 0 <= y < luma.len() ==> anchored(
                points@,
                points.len() as int,
                als[x] as int,
                luma[y] as int,
                grids.0[#[trigger] cell(als.len() as int, x, y)],
                grids.1[cell(als.len() as int, x, y)],
            ),
{
    let width: usize = als.len();
    let size: usize = width * luma.len();
    let mut low: Vec<Option<u64>> = Vec::new();
    let mut high: Vec<Option<u64>> = Vec::new();
    let mut filled: usize = 0;
    while filled < size
        invariant
            filled <= size,
            low.len() == filled,
            high.len() == filled,
            forall|i: int| 0 <= i < filled ==> low[i] is None,
            forall|i: int| 0 <= i < filled ==> high[i] is None,
        decreases size - filled,
    {
        low.push(None);
        high.push(None);
        filled = filled + 1;
    }
    proof {
        assert forall|x: int, y: int| 0 <= x < als.len() && 0 <= y < luma.len() implies anchored(
            points@,
            0,
            als[x] as int,
            luma[y] as int,
            low[#[trigger] cell(als.len() as int, x, y)],
            high[cell(als.len() as int, x, y)],
        ) by {
            lemma_cell(als.len() as int, luma.len() as int, x, y);
        }
    }
    let mut k: usize = 0;
    while k < points.len()
        invariant
            k <= points.len(),
            strictly_increasing(als@),
            strictly_increasing(luma@),
            on_knots(points@, als@, luma@),
            width == als.len(),
            size == width * luma.len(),
            low.len() == size,
            high.len() == size,
            forall|x: int, y: int|
                0 <= x < als.len() && 0 <= y < luma.len() ==> anchored(
                    points@,
                    k as int,
                    als[x] as int,
                    luma[y] as int,
                    low[#[trigger] cell(als.len() as int, x, y)],
                    high[cell(als.len() as int, x, y)],
                ),
        decreases points.len() - k,
    {
        let point = points[k];
        let x: usize = knot_index(als, point.als);
        let y: usize = knot_index(luma, point.luma);
        proof {
            lemma_cell(width as int, luma.len() as int, x as int, y as int);
            assert(0 <= y * width <= y * width + x) by (nonlinear_arith)
                requires
                    y >= 0,
                    width >= 0,
                    x >= 0,
            ;
        }
        let index: usize = y * width + x;
        let ghost low_before = low@;
        let ghost high_before = high@;
        assert(index == cell(width as int, x as int, y as int));
        assert(anchored(
            points@,
            k as int,
            als[x as int] as int,
            luma[y as int] as int,
            low_before[cell(als.len() as int, x as int, y as int)],
            high_before[cell(als.len() as int, x as int, y as int)],
        ));
        let new_low: u64 = match low[index] {
            Some(old) => if old < point.value { old } else { point.value },
            None => point.value,
        };
        let new_high: u64 = match high[index] {
            Some(old) => if old > point.value { old } else { point.value },
            None => point.value,
        };
        low.set(index, Some(new_low));
        high.set(index, Some(new_high));
        proof {
            assert forall|i: int, j: int| 0 <= i < als.len() && 0 <= j < luma.len() implies anchored(
                points@,
                k + 1,
                als[i] as int,
                luma[j] as int,
                low[#[trigger] cell(als.len() as int, i, j)],
                high[cell(als.len() as int, i, j)],
            ) by {
                lemma_cell(width as int, luma.len() as int, i, j);
                let here = cell(als.len() as int, i, j);
                lemma_anchored_more(
                    points@,
                    k as int,
                    als[i] as int,
                    luma[j] as int,
                    low_before[here],
                    high_before[here],
                );
                if at(points[k as int], als[i] as int, luma[j] as int) {
                    if i < x {
                        assert(als[i] < als[x as int]);
                    } else if i > x {
                        assert(als[x as int] < als[i]);
                    }
                    if j < y {
                        assert(luma[j] < luma[y as int]);
                    } else if j > y {
                        assert(luma[y as int] < luma[j]);
                    }
                } else if here == index {
                    lemma_cell_unique(width as int, i, j, x as int, y as int);
                }
            }
        }
        k = k + 1;
    }
    (low, high)
}

/// The position of a coordinate that is one of the knots.
fn knot_index(knots: &Vec<u64>, coordinate: u64) -> (index: usize)
    requires
        strictly_increasing(knots@),
        knots@.contains(coordinate),
    ensures
        index < knots.len(),
        knots[index as int] == coordinate,
{
    proof {
        let i = choose|i: int| 0 <= i < knots.len() && knots[i] == coordinate;
    }
    lower_bound(knots, coordinate)
}

/// The lower envelope at a knot follows from its own observations and its two neighbours.
proof fn lemma_lower_step(
    points: Seq<Observation>,
    als: Seq<u64>,
    luma: Seq<u64>,
    least: int,
    x: int,
    y: int,
    low: Option<u64>,
    high: Option<u64>,
    left: int,
    below: int,
    value: int,
)
    requires
        strictly_increasing(als),
        strictly_increasing(luma),
        on_knots(points, als, luma),
        0 <= x < als.len(),
        0 <= y < luma.len(),
        anchored(points, points.len() as int, als[x] as int, luma[y] as int, low, high),
        high is Some ==> high->0 >= least,
        x > 0 ==> is_lower(points, least, als[x - 1] as int, luma[y] as int, left),
        y > 0 ==> is_lower(points, least, als[x] as int, luma[y - 1] as int, below),
        ({
            let own = if high is Some { high->0 as int } else { least };
            let one = if x > 0 && left > own { left } else { own };
            value == if y > 0 && below > one { below } else { one }
        }),
    ensures
        is_lower(points, least, als[x] as int, luma[y] as int, value),
{
    assert forall|i: int|
        0 <= i < points.len() && #[trigger] dominated(points[i], als[x] as int, luma[y] as int) implies points[i].value
        <= value by {
        let point = points[i];
        let a = choose|a: int| 0 <= a < als.len() && als[a] == point.als;
        let b = choose|b: int| 0 <= b < luma.len() && luma[b] == point.luma;
        if a > x {
            assert(als[x] < als[a]);
        }
        if b > y {
            assert(luma[y] < luma[b]);
        }
        if a < x {
            if a < x - 1 {
                assert(als[a] < als[x - 1]);
            }
            assert(dominated(points[i], als[x - 1] as int, luma[y] as int));
        } else if b < y {
            if b < y - 1 {
                assert(luma[b] < luma[y - 1]);
            }
            assert(dominated(points[i], als[x] as int, luma[y - 1] as int));
        } else {
            assert(at(points[i], als[x] as int, luma[y] as int));
        }
    }
    if value != least {
        if high is Some && value == high->0 {
            let i = choose|i: int|
                0 <= i < points.len() && #[trigger] at(points[i], als[x] as int, luma[y] as int)
                    && points[i].value == high->0;
            assert(dominated(points[i], als[x] as int, luma[y] as int));
        } else if x > 0 && value == left {
            let i = choose|i: int|
                0 <= i < points.len() && #[trigger] dominated(points[i], als[x - 1] as int, luma[y] as int)
                    && points[i].value == left;
            assert(als[x - 1] < als[x]);
            assert(dominated(points[i], als[x] as int, luma[y] as int));
        } else {
            let i = choose|i: int|
                0 <= i < points.len() && #[trigger] dominated(points[i], als[x] as int, luma[y - 1] as int)
                    && points[i].value == below;
            assert(luma[y - 1] < luma[y]);
            assert(dominated(points[i], als[x] as int, luma[y] as int));
        }
    }
}

/// The upper envelope at a knot follows from its own observations and its two neighbours.
proof fn lemma_upper_step(
    points: Seq<Observation>,
    als: Seq<u64>,
    luma: Seq<u64>,
    greatest: int,
    x: int,
    y: int,
    low: Option<u64>,
    high: Option<u64>,
    right: int,
    above: int,
    value: int,
)
    requires
        strictly_increasing(als),
        strictly_increasing(luma),
        on_knots(points, als, luma),
        0 <= x < als.len(),
        0 <= y < luma.len(),
        anchored(points, points.len() as int, als[x] as int, luma[y] as int, low, high),
        low is Some ==> low->0 <= greatest,
        x + 1 < als.len() ==> is_upper(points, greatest, als[x + 1] as int, luma[y] as int, right),
        y + 1 < luma.len() ==> is_upper(points, greatest, als[x] as int, luma[y + 1] as int, above),
        ({
            let own = if low is Some { low->0 as int } else { greatest };
            let one = if x + 1 < als.len() && right < own { right } else { own };
            value == if y + 1 < luma.len() && above < one { above } else { one }
        }),
    ensures
        is_upper(points, greatest, als[x] as int, luma[y] as int, value),
{
    assert forall|i: int|
        0 <= i < points.len() && #[trigger] dominating(points[i], als[x] as int, luma[y] as int) implies points[i].value
        >= value by {
        let point = points[i];
        let a = choose|a: int| 0 <= a < als.len() && als[a] == point.als;
        let b = choose|b: int| 0 <= b < luma.len() && luma[b] == point.luma;
        if a < x {
            assert(als[a] < als[x]);
        }
        if b < y {
            assert(luma[b] < luma[y]);
        }
        if a > x {
            if a > x + 1 {
                assert(als[x + 1] < als[a]);
            }
            assert(dominating(points[i], als[x + 1] as int, luma[y] as int));
        } else if b > y {
            if b > y + 1 {
                assert(luma[y + 1] < luma[b]);
            }
            assert(dominating(points[i], als[x] as int, luma[y + 1] as int));
        } else {
            assert(at(points[i], als[x] as int, luma[y] as int));
        }
    }
    if value != greatest {
        if low is Some && value == low->0 {
            let i = choose|i: int|
                0 <= i < points.len() && #[trigger] at(points[i], als[x] as int, luma[y] as int)
                    && points[i].value == low->0;
            assert(dominating(points[i], als[x] as int, luma[y] as int));
        } else if x + 1 < als.len() && value == right {
            let i = choose|i: int|
                0 <= i < points.len() && #[trigger] dominating(points[i], als[x + 1] as int, luma[y] as int)
                    && points[i].value == right;
            assert(als[x] < als[x + 1]);
            assert(dominating(points[i], als[x] as int, luma[y] as int));
        } else {
            let i = choose|i: int|
                0 <= i < points.len() && #[trigger] dominating(points[i], als[x] as int, luma[y + 1] as int)
                    && points[i].value == above;
            assert(luma[y] < luma[y + 1]);
            assert(dominating(points[i], als[x] as int, luma[y] as int));
        }
    }
}

/// What is known of the anchors of a whole grid.
spec fn all_anchored(
    points: Seq<Observation>,
    als: Seq<u64>,
    luma: Seq<u64>,
    low: Seq<Option<u64>>,
    high: Seq<Option<u64>>,
) -> bool {
    &&& low.len() == als.len() * luma.len()
    &&& high.len() == als.len() * luma.len()
    &&& forall|x: int, y: int|
        0 <= x < als.len() && 0 <= y < luma.len() ==> anchored(
            points,
            points.len() as int,
            als[x] as int,
            luma[y] as int,
            low[#[trigger] cell(als.len() as int, x, y)],
            high[cell(als.len() as int, x, y)],
        )
}

/// Prefix maxima: the lower envelope of every knot in one pass.
#[verifier::rlimit(40)]
fn lower_grid(
    points: Ghost<Seq<Observation>>,
    als: &Vec<u64>,
    luma: &Vec<u64>,
    low: Ghost<Seq<Option<u64>>>,
    high: &Vec<Option<u64>>,
    least: u64,
) -> (grid: Vec<u64>)
    requires
        strictly_increasing(als@),
        strictly_increasing(luma@),
        on_knots(points@, als@, luma@),
        all_anchored(points@, als@, luma@, low@, high@),
        als.len() * luma.len() <= usize::MAX,
        forall|i: int| 0 <= i < points@.len() ==> (#[trigger] points@[i]).value >= least,
    ensures
        grid.len() == als.len() * luma.len(),
        forall|x: int, y: int|
            0 <= x < als.len() && 0 <= y < luma.len() ==> is_lower(
                points@,
                least as int,
                als[x] as int,
                luma[y] as int,
                grid[#[trigger] cell(als.len() as int, x, y)] as int,
            ),
{
    let width: usize = als.len();
    let height: usize = luma.len();
    let mut grid: Vec<u64> = Vec::new();
    let mut y: usize = 0;
    while y < height
        invariant
            y <= height,
            width == als.len(),
            height == luma.len(),
            width * height <= usize::MAX,
            strictly_increasing(als@),
            strictly_increasing(luma@),
            on_knots(points@, als@, luma@),
            all_anchored(points@, als@, luma@, low@, high@),
            forall|i: int| 0 <= i < points@.len() ==> (#[trigger] points@[i]).value >= least,
            grid.len() == y * width,
            forall|i: int, j: int|
                0 <= i < width && 0 <= j < y ==> is_lower(
                    points@,
                    least as int,
                    als[i] as int,
                    luma[j] as int,
                    grid[#[trigger] cell(width as int, i, j)] as int,
                ),
        decreases height - y,
    {
        let mut x: usize = 0;
        while x < width
            invariant
                y < height,
                x <= width,
                width == als.len(),
                height == luma.len(),
                width * height <= usize::MAX,
                strictly_increasing(als@),
                strictly_increasing(luma@),
                on_knots(points@, als@, luma@),
                all_anchored(points@, als@, luma@, low@, high@),
                forall|i: int| 0 <= i < points@.len() ==> (#[trigger] points@[i]).value >= least,
                grid.len() == y * width + x,
                forall|i: int, j: int|
                    0 <= i < width && 0 <= j <= y && (j < y || i < x) ==> is_lower(
                        points@,
                        least as int,
                        als[i] as int,
                        luma[j] as int,
                        grid[#[trigger] cell(width as int, i, j)] as int,
                    ),
            decreases width - x,
        {
            proof {
                lemma_cell(width as int, height as int, x as int, y as int);
                assert(0 <= y * width) by (nonlinear_arith)
                    requires
                        y >= 0,
                        width >= 0,
                ;
            }
            let index: usize = y * width + x;
            assert(index == cell(width as int, x as int, y as int));
            let mut value: u64 = match high[index] {
                Some(value) => value,
                None => least,
            };
            proof {
                assert(anchored(
                    points@,
                    points@.len() as int,
                    als[x as int] as int,
                    luma[y as int] as int,
                    low@[cell(als.len() as int, x as int, y as int)],
                    high[cell(als.len() as int, x as int, y as int)],
                ));
            }
            let ghost mut left: int = 0;
            let ghost mut below: int = 0;
            if x > 0 {
                proof {
                    left = grid[index - 1] as int;
                    assert(grid[cell(width as int, x - 1, y as int)] == left);
                }
                if grid[index - 1] > value {
                    value = grid[index - 1];
                }
            }
            if y > 0 {
                proof {
                    lemma_cell(width as int, height as int, x as int, y - 1);
                    assert(0 <= index - width);
                    below = grid[index - width] as int;
                    assert(grid[cell(width as int, x as int, y - 1)] == below);
                }
                if grid[index - width] > value {
                    value = grid[index - width];
                }
            }
            proof {
                lemma_lower_step(
                    points@,
                    als@,
                    luma@,
                    least as int,
                    x as int,
                    y as int,
                    low@[index as int],
                    high@[index as int],
                    left,
                    below,
                    value as int,
                );
            }
            let ghost before = grid@;
            grid.push(value);
            proof {
                assert forall|i: int, j: int|
                    0 <= i < width && 0 <= j <= y && (j < y || i < x + 1) implies is_lower(
                    points@,
                    least as int,
                    als[i] as int,
                    luma[j] as int,
                    grid[#[trigger] cell(width as int, i, j)] as int,
                ) by {
                    if j < y || i < x {
                        lemma_cell_before(width as int, i, j, x as int, y as int);
                        assert(grid[cell(width as int, i, j)] == before[cell(width as int, i, j)]);
                    }
                }
            }
            x = x + 1;
        }
        proof {
            assert((y + 1) * width == y * width + width) by (nonlinear_arith);
        }
        y = y + 1;
    }
    proof {
        assert(height * width == width * height) by (nonlinear_arith);
    }
    grid
}

/// Cells are filled row by row.
proof fn lemma_cell_before(width: int, x: int, y: int, next_x: int, next_y: int)
    by (nonlinear_arith)
    requires
        0 <= x < width,
        0 <= next_x < width,
        0 <= y <= next_y,
        y < next_y || x < next_x,
    ensures
        0 <= cell(width, x, y) < cell(width, next_x, next_y),
{
}

/// Suffix minima: the upper envelope of every knot in one pass.
#[verifier::rlimit(60)]
fn upper_grid(
    points: Ghost<Seq<Observation>>,
    als: &Vec<u64>,
    luma: &Vec<u64>,
    low: &Vec<Option<u64>>,
    high: Ghost<Seq<Option<u64>>>,
    greatest: u64,
) -> (grid: Vec<u64>)
    requires
        strictly_increasing(als@),
        strictly_increasing(luma@),
        on_knots(points@, als@, luma@),
        all_anchored(points@, als@, luma@, low@, high@),
        als.len() * luma.len() <= usize::MAX,
        forall|i: int| 0 <= i < points@.len() ==> (#[trigger] points@[i]).value <= greatest,
    ensures
        grid.len() == als.len() * luma.len(),
        forall|x: int, y: int|
            0 <= x < als.len() && 0 <= y < luma.len() ==> is_upper(
                points@,
                greatest as int,
                als[x] as int,
                luma[y] as int,
                grid[#[trigger] cell(als.len() as int, x, y)] as int,
            ),
{
    let width: usize = als.len();
    let height: usize = luma.len();
    let size: usize = width * height;
    let mut grid: Vec<u64> = Vec::new();
    let mut filled: usize = 0;
    while filled < size
        invariant
            filled <= size,
            grid.len() == filled,
        decreases size - filled,
    {
        grid.push(greatest);
        filled = filled + 1;
    }
    let mut y: usize = height;
    while y > 0
        invariant
            y <= height,
            width == als.len(),
            height == luma.len(),
            size == width * height,
            strictly_increasing(als@),
            strictly_increasing(luma@),
            on_knots(points@, als@, luma@),
            all_anchored(points@, als@, luma@, low@, high@),
            forall|i: int| 0 <= i < points@.len() ==> (#[trigger] points@[i]).value <= greatest,
            grid.len() == size,
            forall|i: int, j: int|
                0 <= i < width && y <= j < height ==> is_upper(
                    points@,
                    greatest as int,
                    als[i] as int,
                    luma[j] as int,
                    grid[#[trigger] cell(width as int, i, j)] as int,
                ),
        decreases y,
    {
        y = y - 1;
        let mut x: usize = width;
        while x > 0
            invariant
                y < height,
                x <= width,
                width == als.len(),
                height == luma.len(),
                size == width * height,
                strictly_increasing(als@),
                strictly_increasing(luma@),
                on_knots(points@, als@, luma@),
                all_anchored(points@, als@, luma@, low@, high@),
                forall|i: int| 0 <= i < points@.len() ==> (#[trigger] points@[i]).value <= greatest,
                grid.len() == size,
                forall|i: int, j: int|
                    0 <= i < width && y <= j < height && (j > y || i >= x) ==> is_upper(
                        points@,
                        greatest as int,
                        als[i] as int,
                        luma[j] as int,
                        grid[#[trigger] cell(width as int, i, j)] as int,
                    ),
            decreases x,
        {
            x = x - 1;
            proof {
                lemma_cell(width as int, height as int, x as int, y as int);
                assert(0 <= y * width) by (nonlinear_arith)
                    requires
                        y >= 0,
                        width >= 0,
                ;
            }
            let index: usize = y * width + x;
            assert(index == cell(width as int, x as int, y as int));
            let mut value: u64 = match low[index] {
                Some(value) => value,
                None => greatest,
            };
            proof {
                assert(anchored(
                    points@,
                    points@.len() as int,
                    als[x as int] as int,
                    luma[y as int] as int,
                    low[cell(als.len() as int, x as int, y as int)],
                    high@[cell(als.len() as int, x as int, y as int)],
                ));
            }
            let ghost mut right: int = 0;
            let ghost mut above: int = 0;
            if x + 1 < width {
                proof {
                    lemma_cell(width as int, height as int, x + 1, y as int);
                    right = grid[index + 1] as int;
                    assert(grid[cell(width as int, x + 1, y as int)] == right);
                }
                if grid[index + 1] < value {
                    value = grid[index + 1];
                }
            }
            if y + 1 < height {
                proof {
                    lemma_cell(width as int, height as int, x as int, y + 1);
                    above = grid[index + width] as int;
                    assert(grid[cell(width as int, x as int, y + 1)] == above);
                }
                if grid[index + width] < value {
                    value = grid[index + width];
                }
            }
            proof {
                lemma_upper_step(
                    points@,
                    als@,
                    luma@,
                    greatest as int,
                    x as int,
                    y as int,
                    low@[index as int],
                    high@[index as int],
                    right,
                    above,
                    value as int,
                );
            }
            let ghost before = grid@;
            grid.set(index, value);
            proof {
                assert forall|i: int, j: int|
                    0 <= i < width && y <= j < height && (j > y || i >= x) implies is_upper(
                    points@,
                    greatest as int,
                    als[i] as int,
                    luma[j] as int,
                    grid[#[trigger] cell(width as int, i, j)] as int,
                ) by {
                    lemma_cell(width as int, height as int, i, j);
                    if j > y || i > x {
                        lemma_cell_before(width as int, x as int, y as int, i, j);
                        assert(grid[cell(width as int, i, j)] == before[cell(width as int, i, j)]);
                    }
                }
            }
        }
    }
    grid
}

/// Both envelopes grow along both axes and stay between the extremes.
pub(crate) proof fn lemma_envelopes(points: Seq<Observation>, x: int, y: int, other_x: int, other_y: int)
    requires
        points.len() > 0,
        x <= other_x,
        y <= other_y,
    ensures
        lower_envelope(points, x, y) <= lower_envelope(points, other_x, other_y),
        upper_envelope(points, x, y) <= upper_envelope(points, other_x, other_y),
        minimum(points) <= lower_envelope(points, x, y) <= maximum(points),
        minimum(points) <= upper_envelope(points, x, y) <= maximum(points),
{
    lemma_extremes(points);
    let least = minimum(points);
    let greatest = maximum(points);
    lemma_lower_from(points, least, x, y);
    lemma_lower_from(points, least, other_x, other_y);
    lemma_upper_from(points, greatest, x, y);
    lemma_upper_from(points, greatest, other_x, other_y);
    let low = lower_envelope(points, x, y);
    if low != least {
        let i = choose|i: int|
            0 <= i < points.len() && #[trigger] dominated(points[i], x, y) && points[i].value == low;
        assert(dominated(points[i], other_x, other_y));
    }
    let high = upper_envelope(points, other_x, other_y);
    if high != greatest {
        let i = choose|i: int|
            0 <= i < points.len() && #[trigger] dominating(points[i], other_x, other_y)
                && points[i].value == high;
        assert(dominating(points[i], x, y));
    }
    let up = upper_envelope(points, x, y);
    if up != greatest {
        let i = choose|i: int|
            0 <= i < points.len() && #[trigger] dominating(points[i], x, y) && points[i].value == up;
    }
    let some = choose|i: int| 0 <= i < points.len() && (#[trigger] points[i]).value == least;
    assert(points[some].value <= greatest);
}

fn extremes(points: &Vec<Observation>) -> (bounds: (u64, u64))
    requires
        points.len() > 0,
    ensures
        bounds.0 == minimum(points@),
        bounds.1 == maximum(points@),
{
    let mut low: u64 = points[0].value;
    let mut high: u64 = points[0].value;
    let mut i: usize = 1;
    while i < points.len()
        invariant
            1 <= i <= points.len(),
            low == minimum(points@.take(i as int)),
            high == maximum(points@.take(i as int)),
        decreases points.len() - i,
    {
        proof {
            assert(points@.take(i + 1).drop_last() == points@.take(i as int));
        }
        if points[i].value < low {
            low = points[i].value;
        }
        if points[i].value > high {
            high = points[i].value;
        }
        i = i + 1;
    }
    proof {
        assert(points@.take(points.len() as int) == points@);
    }
    (low, high)
}

impl Model {
    /// Fits the surface to the learned entries; there is none without entries.
    #[verifier::rlimit(60)]
    pub fn fit(
        entries: &[Sample],
        scale: Scale,
        als_direction: AlsDirection,
        luma_direction: LumaDirection,
        luma_aware: bool,
    ) -> (model: Option<Model>)
        requires
            finite(entries@),
            (entries@.len() + 2) * LUMA_LEVELS <= usize::MAX,
        ensures
            model is None <==> entries@.len() == 0,
            model matches Some(model) ==> {
                &&& model.scale == scale
                &&& model.als_direction == als_direction
                &&& model.luma_direction == luma_direction
                &&& model.luma_aware == luma_aware
                &&& model.well_formed()
                &&& model.fitted(entries@)
            },
    {
        if entries.len() == 0 {
            return None;
        }
        let als_max: u64 = brightest(entries, scale);
        proof {
            lemma_brightest(entries@, scale);
        }
        let points = observe(entries, als_max, als_direction, luma_direction, luma_aware);
        let als = als_knots(&points, als_max);
        let luma = if luma_aware {
            luma_knots(&points)
        } else {
            let mut knots: Vec<u64> = Vec::new();
            knots.push(0);
            knots
        };
        let width: usize = als.len();
        let height: usize = luma.len();
        proof {
            assert(width * height <= usize::MAX) by (nonlinear_arith)
                requires
                    width <= entries@.len() + 2,
                    height <= LUMA_LEVELS,
                    (entries@.len() + 2) * LUMA_LEVELS <= usize::MAX,
                    width >= 0,
                    height >= 0,
            ;
            assert forall|i: int| 0 <= i < points.len() implies als@.contains(
                (#[trigger] points[i]).als,
            ) && luma@.contains(points[i].luma) by {
                if !luma_aware {
                    assert(points[i].luma == 0);
                    assert(luma@[0] == 0);
                }
            }
            lemma_extremes(points@);
        }
        let (least, greatest) = extremes(&points);
        let (anchor_min, anchor_max) = anchors(&points, &als, &luma);
        let lower = lower_grid(Ghost(points@), &als, &luma, Ghost(anchor_min@), &anchor_max, least);
        let upper = upper_grid(Ghost(points@), &als, &luma, &anchor_min, Ghost(anchor_max@), greatest);
        let model = Model {
            lower,
            upper,
            als_knots: als,
            luma_knots: luma,
            scale,
            als_max,
            als_direction,
            luma_direction,
            luma_aware,
        };
        proof {
            assert(model.points(entries@) == points@);
            assert forall|x: int, y: int|
                0 <= x < model.als_knots.len() && 0 <= y < model.luma_knots.len() implies #[trigger] model.envelopes(
                x,
                y,
            ) == (
                lower_envelope(points@, model.als_knots[x] as int, model.luma_knots[y] as int),
                upper_envelope(points@, model.als_knots[x] as int, model.luma_knots[y] as int),
            ) by {
                lemma_cell(width as int, height as int, x, y);
                let here = cell(width as int, x, y);
                let column = als[x] as int;
                let row = luma[y] as int;
                lemma_lower_from(points@, least as int, column, row);
                lemma_upper_from(points@, greatest as int, column, row);
                lemma_lower_unique(
                    points@,
                    least as int,
                    column,
                    row,
                    model.lower[here] as int,
                    lower_envelope(points@, column, row),
                );
                lemma_upper_unique(
                    points@,
                    greatest as int,
                    column,
                    row,
                    model.upper[here] as int,
                    upper_envelope(points@, column, row),
                );
            }
            assert forall|x: int, y: int, other_x: int, other_y: int|
                0 <= x <= other_x < model.als_knots.len() && 0 <= y <= other_y
                    < model.luma_knots.len() implies ({
                let (low, high) = #[trigger] model.envelopes(x, y);
                let (other_low, other_high) = #[trigger] model.envelopes(other_x, other_y);
                low <= other_low && high <= other_high
            }) by {
                if x < other_x {
                    assert(als[x] < als[other_x]);
                }
                if y < other_y {
                    assert(luma[y] < luma[other_y]);
                }
                lemma_envelopes(
                    points@,
                    als[x] as int,
                    luma[y] as int,
                    als[other_x] as int,
                    luma[other_y] as int,
                );
            }
        }
        Some(model)
    }
}

/// How many knots lie below a coordinate.
pub open spec fn knots_below(knots: Seq<u64>, coordinate: int) -> int
    decreases knots.len(),
{
    if knots.len() == 0 {
        0
    } else {
        knots_below(knots.drop_last(), coordinate) + if knots.last() < coordinate {
            1int
        } else {
            0int
        }
    }
}

/// The neighbouring knots around a coordinate: twice the same one where it lies on a knot.
pub open spec fn interval(knots: Seq<u64>, coordinate: int) -> (int, int) {
    let upper = knots_below(knots, coordinate);
    if knots[upper] == coordinate {
        (upper, upper)
    } else {
        (upper - 1, upper)
    }
}

proof fn lemma_knots_below(knots: Seq<u64>, coordinate: int, index: int)
    requires
        0 <= index <= knots.len(),
        forall|i: int| 0 <= i < index ==> knots[i] < coordinate,
        forall|i: int| index <= i < knots.len() ==> knots[i] >= coordinate,
    ensures
        knots_below(knots, coordinate) == index,
    decreases knots.len(),
{
    if knots.len() > 0 {
        let front = knots.drop_last();
        if index == knots.len() {
            lemma_knots_below(front, coordinate, index - 1);
        } else {
            lemma_knots_below(front, coordinate, index);
        }
    }
}

/// `left` and `right` mixed in proportion, scaled by the denominator.
pub open spec fn blend(left: int, right: int, numerator: int, denominator: int) -> int {
    left * (denominator - numerator) + right * numerator
}

/// The number that lies at `share` of the way between two numbers.
pub open spec fn lerp(left: int, right: int, share: int) -> int {
    let moved = double::product(double::distance(left, right), share);
    if right >= left {
        double::sum(left, moved)
    } else {
        double::distance(left, moved)
    }
}

fn mix(left: Double, right: Double, share: Double) -> (number: Double)
    requires
        left.well_formed(),
        right.well_formed(),
        share.well_formed(),
        left.exponent <= 1_000_000,
        right.exponent <= 1_000_000,
        share.exponent <= 10_000_000,
    ensures
        number.well_formed(),
        left.exponent <= 10_000 && right.exponent <= 10_000 && share.exponent <= 10_000
            ==> number.exponent <= 1_000_000,
        number.value() == lerp(left.value(), right.value(), share.value()),
{
    let moved = left.apart(right).times(share);
    if right.at_least(left) {
        left.plus(moved)
    } else {
        left.apart(moved)
    }
}

/// What the reading of a linear sensor at a coordinate of one is.
pub const LINEAR_SCALE: u64 = 20;

/// The coordinate of a reading on a linear scale, by its bits.
pub open spec fn spec_linear_coordinate(als: u64) -> u64 {
    double::bits_of(
        double::quotient(double::whole(als as int), double::whole(LINEAR_SCALE as int)),
    )
}

/// The coordinate of a reading on a linear scale.
pub fn linear_coordinate(als: u64) -> (bits: u64)
    ensures
        bits == spec_linear_coordinate(als),
        bits < INFINITE_BITS,
        double::steps_of(bits) == double::quotient(
            double::whole(als as int),
            double::whole(LINEAR_SCALE as int),
        ),
{
    let scale = Double::of(LINEAR_SCALE);
    proof {
        double_laws::lemma_whole_positive(LINEAR_SCALE as int);
        if scale.mantissa == 0 {
            assert(0 * vstd::arithmetic::power2::pow2(scale.exponent as nat) == 0);
        }
    }
    let number = Double::of(als).over(scale);
    proof {
        lemma_linear_finite(als);
        double::lemma_finite(number, 0x43f0_0000_0000_0000);
    }
    let bits: u64 = number.to_bits();
    proof {
        double::lemma_bits_of(bits);
    }
    bits
}

/// The coordinate of a reading is not greater than the greatest reading.
proof fn lemma_linear_finite(als: u64)
    ensures
        double::quotient(double::whole(als as int), double::whole(LINEAR_SCALE as int))
            <= double::steps_of(0x43f0_0000_0000_0000),
{
    let o = double::one();
    let p = vstd::arithmetic::power2::pow2(64) as int;
    vstd::arithmetic::power2::lemma2_to64();
    vstd::arithmetic::power2::lemma2_to64_rest();
    vstd::arithmetic::power2::lemma_pow2_adds(64, 1074);
    vstd::arithmetic::power2::lemma_pow2_adds(52, 1086);
    double_laws::lemma_whole(20);
    let bits = 0x43f0_0000_0000_0000u64;
    assert(bits / 0x10_0000_0000_0000 == 1087 && bits % 0x10_0000_0000_0000 == 0);
    let most = double::steps_of(bits);
    assert(most == p * o);
    double_laws::lemma_bits_are_number(bits);
    assert(0 <= als * o <= most) by (nonlinear_arith)
        requires
            0 <= als <= p,
            most == p * o,
            o > 0,
    ;
    double_laws::law_rounding_keeps_the_order(als * o, 1, most, 1);
    let x = double::whole(als as int);
    double_laws::law_rounding_keeps_the_order(0, 1, als * o, 1);
    assert((x * o) * o <= (x * o) * (20 * o)) by (nonlinear_arith)
        requires
            x >= 0,
            o > 0,
    ;
    assert(x * o >= 0) by (nonlinear_arith)
        requires
            x >= 0,
            o > 0,
    ;
    double_laws::law_rounding_keeps_the_order(x * o, 20 * o, x * o, o);
    double_laws::lemma_closest_is_number(als * o, 1);
    double_laws::lemma_exact_ratio(x * o, o, x);
}

/// The bits of the coordinate of a reading on a linear scale.
pub(crate) proof fn lemma_linear_bits(als: u64) -> (bits: u64)
    ensures
        bits == spec_linear_coordinate(als),
        bits < INFINITE_BITS,
        double::steps_of(bits) == double::quotient(
            double::whole(als as int),
            double::whole(LINEAR_SCALE as int),
        ),
{
    lemma_linear_finite(als);
    double_laws::lemma_whole_positive(LINEAR_SCALE as int);
    let o = double::one();
    assert(als * o >= 0) by (nonlinear_arith)
        requires
            als >= 0,
            o > 0,
    ;
    double_laws::law_rounding_keeps_the_order(0, 1, als * o, 1);
    let number = double::whole(als as int);
    double_laws::lemma_quotient_order(number, number, double::whole(LINEAR_SCALE as int));
    let bits = double_laws::lemma_number_has_bits(
        double::quotient(number, double::whole(LINEAR_SCALE as int)),
        0x43f0_0000_0000_0000,
    );
    double::lemma_bits_of(bits);
    bits
}

/// The coordinate of a luma.
pub open spec fn luma_coordinate_of(luma: int) -> int {
    double::quotient(double::whole(luma), double::whole(LUMA_SCALE as int))
}

/// The coordinate of an oriented luma.
pub open spec fn luma_place(luma: int, direction: LumaDirection) -> int {
    match direction {
        LumaDirection::Increasing => luma_coordinate_of(luma),
        LumaDirection::Decreasing => double::distance(
            double::whole(5),
            luma_coordinate_of(LUMA_MAX - luma),
        ),
    }
}

fn place_luma(luma: u64, direction: LumaDirection) -> (number: Double)
    requires
        luma <= LUMA_MAX,
    ensures
        number.well_formed(),
        number.exponent <= 10_000,
        number.value() == luma_place(luma as int, direction),
{
    let scale = Double::of(LUMA_SCALE);
    proof {
        double_laws::lemma_whole_positive(LUMA_SCALE as int);
        if scale.mantissa == 0 {
            assert(0 * vstd::arithmetic::power2::pow2(scale.exponent as nat) == 0);
        }
    }
    match direction {
        LumaDirection::Increasing => Double::of(luma).over(scale),
        LumaDirection::Decreasing => Double::of(5).apart(Double::of(LUMA_MAX - luma).over(scale)),
    }
}

/// Different numbers are some way apart.
pub(crate) proof fn lemma_apart(left: int, right: int)
    requires
        0 <= left < right,
    ensures
        double::distance(right, left) >= 1,
{
    double::lemma_exact(1, 0);
    vstd::arithmetic::power2::lemma2_to64();
    double_laws::law_rounding_keeps_the_order(1, 1, right - left, 1);
}

/// How close the coordinate of a luma is to the exact one.
proof fn lemma_luma_coordinate(luma: int)
    requires
        0 <= luma <= LUMA_MAX,
    ensures
        ({
            let off = luma_coordinate_of(luma) * 20 - luma * double::one();
            -(20 * double_laws::slack()) <= off <= 20 * double_laws::slack()
        }),
        0 <= luma_coordinate_of(luma) <= 5 * double::one(),
{
    double_laws::lemma_slack();
    double_laws::lemma_whole(luma);
    double_laws::lemma_whole(20);
    double_laws::lemma_whole(5);
    let o = double::one();
    let e = double_laws::slack();
    let d = 20 * o;
    let n = (luma * o) * o;
    assert(0 <= luma * o <= 100 * o) by (nonlinear_arith)
        requires
            0 <= luma <= 100,
            o > 0,
    ;
    assert(0 <= n <= 0x2_0000 * o * d) by (nonlinear_arith)
        requires
            n == (luma * o) * o,
            0 <= luma * o <= 100 * o,
            d == 20 * o,
            o > 0,
    ;
    double_laws::lemma_small_error(n, d);
    let q = double::quotient(luma * o, d);
    assert(-((20 * e) * o) <= (q * 20 - luma * o) * o <= (20 * e) * o) by (nonlinear_arith)
        requires
            -(e * d) <= q * d - n <= e * d,
            d == 20 * o,
            n == (luma * o) * o,
    ;
    double_laws::lemma_divide(q * 20 - luma * o, 20 * e, o);
    double_laws::lemma_quotient_order(luma * o, 100 * o, d);
    assert((100 * o) * o == (5 * o) * d) by (nonlinear_arith)
        requires
            d == 20 * o,
    ;
    double_laws::lemma_exact_ratio((100 * o) * o, d, 5 * o);
}

/// How close the coordinate of an oriented luma is to the exact one.
pub(crate) proof fn lemma_luma_place(luma: int, direction: LumaDirection)
    requires
        0 <= luma <= LUMA_MAX,
    ensures
        ({
            let off = luma_place(luma, direction) * 20 - luma * double::one();
            -(40 * double_laws::slack()) <= off <= 40 * double_laws::slack()
        }),
        0 <= luma_place(luma, direction),
{
    lemma_luma_coordinate(luma);
    lemma_luma_coordinate(LUMA_MAX - luma);
    double_laws::lemma_slack();
    double_laws::lemma_whole(5);
    let o = double::one();
    let q = luma_coordinate_of(LUMA_MAX - luma);
    let n = 5 * o - q;
    assert(n <= 0x2_0000 * o * 1);
    double_laws::lemma_small_error(n, 1);
    double_laws::lemma_closest_is_number(n, 1);
    assert((LUMA_MAX - luma) * o == 100 * o - luma * o) by (nonlinear_arith);
    if direction == LumaDirection::Decreasing {
        assert(luma_place(luma, direction) == double::closest(n, 1)) by {
            if 5 * o <= q {
                assert(5 * o == q);
            }
        }
    }
}

/// A greater luma has a greater coordinate.
pub(crate) proof fn lemma_luma_places(luma: int, more: int, direction: LumaDirection)
    requires
        0 <= luma <= more <= LUMA_MAX,
    ensures
        0 <= luma_place(luma, direction) <= luma_place(more, direction),
        luma < more ==> luma_place(luma, direction) < luma_place(more, direction),
{
    lemma_luma_place(luma, direction);
    lemma_luma_place(more, direction);
    double_laws::lemma_slack();
    let o = double::one();
    if luma < more {
        assert(more * o >= luma * o + o) by (nonlinear_arith)
            requires
                more >= luma + 1,
                o > 0,
        ;
    }
}

impl Model {
    pub open spec fn als_coordinate(&self, als: u64) -> int {
        oriented_als(als as int, self.als_max as int, self.als_direction)
    }

    pub open spec fn luma_coordinate(&self, luma: u8) -> int {
        oriented_luma(luma as int, self.luma_direction, self.luma_aware)
    }

    /// The knots around a reading.
    pub open spec fn columns(&self, als: u64) -> (int, int) {
        interval(self.als_knots@, self.als_coordinate(als))
    }

    /// The knots around a luma.
    pub open spec fn rows(&self, luma: u8) -> (int, int) {
        interval(self.luma_knots@, self.luma_coordinate(luma))
    }

    /// How far a coordinate lies between its knots; nowhere where it is on one.
    pub open spec fn across(&self, als: u64) -> int {
        let (x0, x1) = self.columns(als);
        let start = double::steps_of(self.als_knots[x0]);
        if x0 == x1 {
            0
        } else {
            double::quotient(
                double::distance(double::steps_of(self.als_coordinate(als) as u64), start),
                double::distance(double::steps_of(self.als_knots[x1]), start),
            )
        }
    }

    /// How far a luma lies between its knots; nowhere where it is on one.
    pub open spec fn along(&self, luma: u8) -> int {
        let (y0, y1) = self.rows(luma);
        let start = luma_place(self.luma_knots[y0] as int, self.luma_direction);
        if y0 == y1 {
            0
        } else {
            double::quotient(
                double::distance(
                    luma_place(self.luma_coordinate(luma), self.luma_direction),
                    start,
                ),
                double::distance(
                    luma_place(self.luma_knots[y1] as int, self.luma_direction),
                    start,
                ),
            )
        }
    }

    /// The height of the surface at a condition: bilinear between the four knots around.
    pub open spec fn predicted(&self, als: u64, luma: u8) -> int {
        let (x0, x1) = self.columns(als);
        let (y0, y1) = self.rows(luma);
        let share = self.across(als);
        lerp(
            lerp(self.knot_value(x0, y0), self.knot_value(x1, y0), share),
            lerp(self.knot_value(x0, y1), self.knot_value(x1, y1), share),
            self.along(luma),
        )
    }

    fn locate(knots: &Vec<u64>, coordinate: u64) -> (cell: (usize, usize))
        requires
            strictly_increasing(knots@),
            knots.len() > 0,
            knots[0] == 0,
            coordinate <= knots[knots.len() - 1],
        ensures
            cell.0 as int == interval(knots@, coordinate as int).0,
            cell.1 as int == interval(knots@, coordinate as int).1,
            cell.1 < knots.len(),
            cell.0 == cell.1 ==> knots[cell.0 as int] == coordinate,
            cell.0 != cell.1 ==> cell.0 + 1 == cell.1 && knots[cell.0 as int] < coordinate
                < knots[cell.1 as int],
    {
        let upper: usize = lower_bound(knots, coordinate);
        proof {
            lemma_knots_below(knots@, coordinate as int, upper as int);
            if upper == knots.len() {
                assert(knots[knots.len() - 1] < coordinate);
            }
        }
        if knots[upper] == coordinate {
            (upper, upper)
        } else {
            proof {
                if upper == 0 {
                    assert(knots[0] >= coordinate);
                }
            }
            (upper - 1, upper)
        }
    }

    fn value_at(&self, x: usize, y: usize) -> (number: Double)
        requires
            self.well_formed(),
            x < self.als_knots.len(),
            y < self.luma_knots.len(),
        ensures
            number.well_formed(),
            number.exponent <= 10_000,
            number.value() == self.knot_value(x as int, y as int),
    {
        let width: usize = self.als_knots.len();
        proof {
            lemma_cell(width as int, self.luma_knots.len() as int, x as int, y as int);
            assert(0 <= y * width) by (nonlinear_arith)
                requires
                    y >= 0,
                    width >= 0,
            ;
        }
        let place: usize = y * width + x;
        let two = Double::of(2);
        proof {
            double_laws::lemma_whole_positive(2);
            if two.mantissa == 0 {
                assert(0 * vstd::arithmetic::power2::pow2(two.exponent as nat) == 0);
            }
        }
        Double::of(self.lower[place]).plus(Double::of(self.upper[place])).over(two)
    }

    fn als_share(&self, coordinate: u64, x0: usize, x1: usize) -> (share: Double)
        requires
            self.well_formed(),
            x0 < x1 < self.als_knots.len(),
            coordinate <= self.als_max,
        ensures
            share.well_formed(),
            share.exponent <= 10_000,
            share.value() == double::quotient(
                double::distance(
                    double::steps_of(coordinate),
                    double::steps_of(self.als_knots[x0 as int]),
                ),
                double::distance(
                    double::steps_of(self.als_knots[x1 as int]),
                    double::steps_of(self.als_knots[x0 as int]),
                ),
            ),
    {
        proof {
            let last = self.als_knots.len() - 1;
            if x1 < last {
                assert(self.als_knots[x1 as int] < self.als_knots[last]);
            }
            assert(self.als_knots[x0 as int] < self.als_knots[x1 as int]);
            double::lemma_bits_strict(self.als_knots[x0 as int], self.als_knots[x1 as int]);
            lemma_apart(
                double::steps_of(self.als_knots[x0 as int]),
                double::steps_of(self.als_knots[x1 as int]),
            );
        }
        let start = Double::decode(self.als_knots[x0]);
        let width = Double::decode(self.als_knots[x1]).apart(start);
        proof {
            if width.mantissa == 0 {
                assert(0 * vstd::arithmetic::power2::pow2(width.exponent as nat) == 0);
            }
        }
        Double::decode(coordinate).apart(start).over(width)
    }

    fn luma_share(&self, coordinate: u64, y0: usize, y1: usize) -> (share: Double)
        requires
            self.well_formed(),
            y0 < y1 < self.luma_knots.len(),
            coordinate <= LUMA_MAX,
        ensures
            share.well_formed(),
            share.exponent <= 10_000_000,
            share.value() == double::quotient(
                double::distance(
                    luma_place(coordinate as int, self.luma_direction),
                    luma_place(self.luma_knots[y0 as int] as int, self.luma_direction),
                ),
                double::distance(
                    luma_place(self.luma_knots[y1 as int] as int, self.luma_direction),
                    luma_place(self.luma_knots[y0 as int] as int, self.luma_direction),
                ),
            ),
    {
        proof {
            let last = self.luma_knots.len() - 1;
            if y1 < last {
                assert(self.luma_knots[y1 as int] < self.luma_knots[last]);
            }
            assert(self.luma_knots[y0 as int] < self.luma_knots[y1 as int]);
            lemma_luma_places(
                self.luma_knots[y0 as int] as int,
                self.luma_knots[y1 as int] as int,
                self.luma_direction,
            );
            lemma_apart(
                luma_place(self.luma_knots[y0 as int] as int, self.luma_direction),
                luma_place(self.luma_knots[y1 as int] as int, self.luma_direction),
            );
        }
        let start = place_luma(self.luma_knots[y0], self.luma_direction);
        let width = place_luma(self.luma_knots[y1], self.luma_direction).apart(start);
        proof {
            if width.mantissa == 0 {
                assert(0 * vstd::arithmetic::power2::pow2(width.exponent as nat) == 0);
            }
        }
        place_luma(coordinate, self.luma_direction).apart(start).over(width)
    }

    /// The height of the surface at a condition, whose reading is told as its coordinate.
    pub fn predict(&self, als: u64, luma: u8) -> (prediction: Double)
        requires
            self.well_formed(),
        ensures
            prediction.well_formed(),
            prediction.value() == self.predicted(als, luma),
    {
        let als_coordinate: u64 = orient_als(als, self.als_max, self.als_direction);
        let luma_coordinate: u64 = orient_luma(luma, self.luma_direction, self.luma_aware);
        let (x0, x1) = Self::locate(&self.als_knots, als_coordinate);
        let (y0, y1) = Self::locate(&self.luma_knots, luma_coordinate);
        proof {
            assert(0 * vstd::arithmetic::power2::pow2(0) == 0);
        }
        let across = if x0 == x1 {
            Double { mantissa: 0, exponent: 0 }
        } else {
            self.als_share(als_coordinate, x0, x1)
        };
        let along = if y0 == y1 {
            Double { mantissa: 0, exponent: 0 }
        } else {
            self.luma_share(luma_coordinate, y0, y1)
        };
        let bottom = mix(self.value_at(x0, y0), self.value_at(x1, y0), across);
        let top = mix(self.value_at(x0, y1), self.value_at(x1, y1), across);
        mix(bottom, top, along)
    }
}

} // verus!
