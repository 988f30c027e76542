//! Gamma ramps: lookup tables that dim a screen and shift its colour temperature.
//!
//! Gains are numbers of double precision, told in its least steps.

use vstd::prelude::*;

use crate::double;
use crate::double::{Double, ONE_BITS};
use crate::double_laws;

verus! {

pub const NEUTRAL_TEMPERATURE: u64 = 6500;

pub const MIN_TEMPERATURE: u64 = 1000;

pub const MAX_TEMPERATURE: u64 = 25000;

/// The number of temperatures that have a white point.
pub const TEMPERATURES: usize = 24001;

/// The greatest value of a lookup table.
pub const TOP: u64 = 65535;

/// A lookup table: one transfer curve for each of red, green and blue.
pub type Lut = [Vec<u16>; 3];

/// The channel gains of every temperature at full intensity, as the bits of double-precision numbers.
#[derive(Debug)]
pub struct WhitePoints {
    pub gains: Vec<[u64; 3]>,
}

pub open spec fn clamped_temperature(temperature: u64) -> int {
    if temperature < MIN_TEMPERATURE {
        MIN_TEMPERATURE as int
    } else if temperature > MAX_TEMPERATURE {
        MAX_TEMPERATURE as int
    } else {
        temperature as int
    }
}

/// What is left of the light at a dim percentage, in percent.
pub open spec fn remainder(dim: u64) -> int {
    if dim >= 100 {
        0
    } else {
        100 - dim
    }
}

/// What is left of the light at a dim percentage.
pub open spec fn intensity(dim: u64) -> int {
    double::quotient(double::whole(remainder(dim)), double::whole(100))
}

/// Whether one of the channels has a gain of one.
pub open spec fn has_full(gains: [u64; 3]) -> bool {
    gains@[0] == ONE_BITS || gains@[1] == ONE_BITS || gains@[2] == ONE_BITS
}

impl WhitePoints {
    /// There is a gain of at most one for every temperature and of one for one of its channels, and
    /// the neutral temperature changes nothing.
    pub open spec fn valid(&self) -> bool {
        &&& self.gains.len() == TEMPERATURES
        &&& forall|i: int, channel: int|
            0 <= i < TEMPERATURES && 0 <= channel < 3 ==> #[trigger] self.gains[i]@[channel]
                <= ONE_BITS
        &&& forall|i: int| 0 <= i < TEMPERATURES ==> has_full(#[trigger] self.gains[i])
        &&& forall|channel: int|
            0 <= channel < 3 ==> #[trigger] self.bits(NEUTRAL_TEMPERATURE as int, channel)
                == ONE_BITS
    }

    /// The bits of the gain of a channel at a temperature within range.
    pub open spec fn bits(&self, temperature: int, channel: int) -> u64 {
        self.gains[temperature - MIN_TEMPERATURE]@[channel]
    }

    /// The gain of a channel at a temperature within range.
    pub open spec fn white(&self, temperature: int, channel: int) -> int {
        double::steps_of(self.bits(temperature, channel))
    }

    /// The gain of a channel at a dim percentage and a temperature.
    pub open spec fn gain(&self, dim: u64, temperature: u64, channel: int) -> int {
        double::product(self.white(clamped_temperature(temperature), channel), intensity(dim))
    }

    /// Takes the gains of all temperatures in ascending order, if they are a valid table.
    pub fn new(gains: Vec<[u64; 3]>) -> (points: Option<Self>)
        ensures
            points is Some <==> (WhitePoints { gains }).valid(),
            points matches Some(points) ==> points.gains == gains,
    {
        if gains.len() != TEMPERATURES {
            return None;
        }
        let neutral: usize = 5500;
        if gains[neutral][0] != ONE_BITS || gains[neutral][1] != ONE_BITS || gains[neutral][2]
            != ONE_BITS {
            proof {
                let points = WhitePoints { gains };
                assert(points.bits(NEUTRAL_TEMPERATURE as int, 0) == gains[5500]@[0]);
                assert(points.bits(NEUTRAL_TEMPERATURE as int, 1) == gains[5500]@[1]);
                assert(points.bits(NEUTRAL_TEMPERATURE as int, 2) == gains[5500]@[2]);
            }
            return None;
        }
        let mut i: usize = 0;
        while i < gains.len()
            invariant
                i <= gains.len(),
                gains.len() == TEMPERATURES,
                forall|k: int, channel: int|
                    0 <= k < i && 0 <= channel < 3 ==> #[trigger] gains[k]@[channel] <= ONE_BITS,
                forall|k: int| 0 <= k < i ==> has_full(#[trigger] gains[k]),
            decreases gains.len() - i,
        {
            if gains[i][0] > ONE_BITS || gains[i][1] > ONE_BITS || gains[i][2] > ONE_BITS {
                proof {
                    let points = WhitePoints { gains };
                    assert(points.gains[i as int]@[0] > ONE_BITS || points.gains[i as int]@[1]
                        > ONE_BITS || points.gains[i as int]@[2] > ONE_BITS);
                }
                return None;
            }
            if gains[i][0] != ONE_BITS && gains[i][1] != ONE_BITS && gains[i][2] != ONE_BITS {
                proof {
                    let points = WhitePoints { gains };
                    assert(!has_full(points.gains[i as int]));
                }
                return None;
            }
            i = i + 1;
        }
        Some(WhitePoints { gains })
    }

    /// The channel gains at a dim percentage and a temperature.
    pub fn gains(&self, dim: u64, temperature: u64) -> (gains: [Double; 3])
        requires
            self.valid(),
        ensures
            forall|channel: int|
                0 <= channel < 3 ==> (#[trigger] gains@[channel]).value() == self.gain(
                    dim,
                    temperature,
                    channel,
                ) && gains@[channel].well_formed() && gains@[channel].exponent <= 10_000,
    {
        let clamped: u64 = if temperature < MIN_TEMPERATURE {
            MIN_TEMPERATURE
        } else if temperature > MAX_TEMPERATURE {
            MAX_TEMPERATURE
        } else {
            temperature
        };
        let left: u64 = if dim >= 100 { 0 } else { 100 - dim };
        let index: usize = (clamped - MIN_TEMPERATURE) as usize;
        let white = &self.gains[index];
        proof {
            assert(self.gains[index as int]@[0] <= ONE_BITS);
            assert(self.gains[index as int]@[1] <= ONE_BITS);
            assert(self.gains[index as int]@[2] <= ONE_BITS);
        }
        let hundred = Double::of(100);
        proof {
            lemma_positive(hundred, 100);
        }
        let intensity = Double::of(left).over(hundred);
        [
            Double::decode(white[0]).times(intensity),
            Double::decode(white[1]).times(intensity),
            Double::decode(white[2]).times(intensity),
        ]
    }
}

/// A positive integer is a positive number.
pub(crate) proof fn lemma_positive(number: Double, value: int)
    requires
        0 < value < double::LIMIT,
        number.value() == double::whole(value),
    ensures
        number.mantissa > 0,
        number.value() > 0,
{
    double_laws::lemma_whole(value);
    assert(value * double::one() > 0) by (nonlinear_arith)
        requires
            value > 0,
            double::one() > 0,
    ;
    if number.mantissa == 0 {
        assert(0 * vstd::arithmetic::power2::pow2(number.exponent as nat) == 0);
    }
}

/// The value of a lookup table that a number is rounded to.
pub open spec fn level(number: int) -> int {
    if double::round(number) <= TOP {
        double::round(number)
    } else {
        TOP as int
    }
}

fn to_level(number: Double) -> (value: u16)
    requires
        number.well_formed(),
    ensures
        value == level(number.value()),
{
    proof {
        double_laws::lemma_value_is_number(number);
        double_laws::lemma_round_order(0, number.value());
    }
    let value: u64 = number.rounded();
    if value <= TOP {
        value as u16
    } else {
        65535
    }
}

/// How far an index is along a curve of `size` values.
pub open spec fn position(size: int, index: int) -> int {
    if size <= 1 {
        0
    } else {
        double::quotient(double::whole(index), double::whole(size - 1))
    }
}

/// An evenly rising curve of `size` values scaled by a gain.
pub open spec fn linear_value(size: int, gain: int, index: int) -> int {
    level(double::product(double::product(position(size, index), gain), double::whole(TOP as int)))
}

pub open spec fn linear_curve(size: int, gain: int) -> Seq<u16> {
    Seq::new(size as nat, |index: int| linear_value(size, gain, index) as u16)
}

pub open spec fn applied_value(value: int, gain: int) -> int {
    level(double::product(double::whole(value), gain))
}

pub open spec fn applied_curve(curve: Seq<u16>, gain: int) -> Seq<u16> {
    Seq::new(curve.len(), |index: int| applied_value(curve[index] as int, gain) as u16)
}

fn linear_channel(size: usize, gain: Double) -> (curve: Vec<u16>)
    requires
        gain.well_formed(),
        gain.exponent <= 10_000,
    ensures
        curve@ == linear_curve(size as int, gain.value()),
{
    let mut curve: Vec<u16> = Vec::new();
    let mut index: usize = 0;
    let top = Double::of(TOP);
    let last = Double::of(if size <= 1 { 1 } else { (size - 1) as u64 });
    let ghost all = linear_curve(size as int, gain.value());
    proof {
        double_laws::lemma_whole_positive(if size <= 1 {
            1
        } else {
            size - 1
        });
        if last.mantissa == 0 {
            assert(0 * vstd::arithmetic::power2::pow2(last.exponent as nat) == 0);
        }
    }
    while index < size
        invariant
            index <= size,
            gain.well_formed(),
            gain.exponent <= 10_000,
            top.well_formed(),
            top.exponent <= 1202,
            top.value() == double::whole(TOP as int),
            last.well_formed(),
            last.exponent <= 1202,
            last.mantissa > 0,
            size > 1 ==> last.value() == double::whole(size - 1),
            all == linear_curve(size as int, gain.value()),
            curve@ == all.take(index as int),
        decreases size - index,
    {
        let position = if size <= 1 {
            Double { mantissa: 0, exponent: 0 }
        } else {
            Double::of(index as u64).over(last)
        };
        proof {
            assert(0 * vstd::arithmetic::power2::pow2(0) == 0);
            assert(position.value() == crate::gamma::ramp::position(size as int, index as int));
        }
        let value: u16 = to_level(position.times(gain).times(top));
        proof {
            assert(all[index as int] == value);
            assert(all.take(index + 1) == all.take(index as int).push(value));
        }
        curve.push(value);
        index = index + 1;
    }
    proof {
        assert(all.take(size as int) == all);
    }
    curve
}

/// The lookup table of an evenly rising curve at a dim percentage and a temperature.
pub fn linear(points: &WhitePoints, size: usize, dim: u64, temperature: u64) -> (lut: Lut)
    requires
        points.valid(),
    ensures
        forall|channel: int|
            0 <= channel < 3 ==> (#[trigger] lut@[channel])@ == linear_curve(
                size as int,
                points.gain(dim, temperature, channel),
            ),
{
    let gains = points.gains(dim, temperature);
    proof {
        assert(gains@[0].well_formed() && gains@[1].well_formed() && gains@[2].well_formed());
    }
    [
        linear_channel(size, gains[0]),
        linear_channel(size, gains[1]),
        linear_channel(size, gains[2]),
    ]
}

fn apply_channel(base: &Vec<u16>, gain: Double) -> (curve: Vec<u16>)
    requires
        gain.well_formed(),
        gain.exponent <= 10_000,
    ensures
        curve@ == applied_curve(base@, gain.value()),
{
    let mut curve: Vec<u16> = Vec::new();
    let mut index: usize = 0;
    let ghost all = applied_curve(base@, gain.value());
    while index < base.len()
        invariant
            index <= base.len(),
            gain.well_formed(),
            gain.exponent <= 10_000,
            all == applied_curve(base@, gain.value()),
            curve@ == all.take(index as int),
        decreases base.len() - index,
    {
        let value: u16 = to_level(Double::of(base[index] as u64).times(gain));
        proof {
            assert(all[index as int] == value);
            assert(all.take(index + 1) == all.take(index as int).push(value));
        }
        curve.push(value);
        index = index + 1;
    }
    proof {
        assert(all.take(base.len() as int) == all);
    }
    curve
}

/// Scales the curves of a lookup table to a dim percentage and a temperature.
pub fn apply(points: &WhitePoints, base: &Lut, dim: u64, temperature: u64) -> (lut: Lut)
    requires
        points.valid(),
    ensures
        forall|channel: int|
            0 <= channel < 3 ==> (#[trigger] lut@[channel])@ == applied_curve(
                base@[channel]@,
                points.gain(dim, temperature, channel),
            ),
{
    let gains = points.gains(dim, temperature);
    proof {
        assert(gains@[0].well_formed() && gains@[1].well_formed() && gains@[2].well_formed());
    }
    [
        apply_channel(&base[0], gains[0]),
        apply_channel(&base[1], gains[1]),
        apply_channel(&base[2], gains[2]),
    ]
}

/// The curves of a lookup table.
pub open spec fn curves(lut: Lut) -> Seq<Seq<u16>> {
    Seq::new(3, |channel: int| lut@[channel]@)
}

/// The greatest value of a curve, zero where it is empty.
pub open spec fn peak(curve: Seq<u16>) -> int
    decreases curve.len(),
{
    if curve.len() == 0 {
        0
    } else {
        let rest = peak(curve.drop_last());
        if curve.last() > rest {
            curve.last() as int
        } else {
            rest
        }
    }
}

/// The brightest channel; the last one where several are equally bright.
pub open spec fn reference(lut: Seq<Seq<u16>>) -> int {
    if peak(lut[2]) >= peak(lut[0]) && peak(lut[2]) >= peak(lut[1]) {
        2
    } else if peak(lut[1]) >= peak(lut[0]) {
        1
    } else {
        0
    }
}

/// The channel whose curve stands for a channel: its own, unless that one is all dark.
pub open spec fn source(lut: Seq<Seq<u16>>, channel: int) -> int {
    if peak(lut[channel]) > 0 {
        channel
    } else {
        reference(lut)
    }
}

/// A value of a curve with this peak, stretched so that the peak becomes the greatest value.
pub open spec fn stretched_value(value: int, peak: int) -> int {
    level(
        double::product(
            double::quotient(double::whole(value), double::whole(peak)),
            double::whole(TOP as int),
        ),
    )
}

/// A curve stretched so that its peak becomes the greatest value.
pub open spec fn stretched_curve(curve: Seq<u16>) -> Seq<u16> {
    Seq::new(curve.len(), |index: int| stretched_value(curve[index] as int, peak(curve)) as u16)
}

/// The curve of a channel without the gain that is already in it.
pub open spec fn neutral_curve(lut: Seq<Seq<u16>>, channel: int) -> Seq<u16> {
    let curve = lut[source(lut, channel)];
    if peak(curve) == 0 {
        linear_curve(lut[channel].len() as int, double::one())
    } else {
        stretched_curve(curve)
    }
}

pub(crate) proof fn lemma_peak(curve: Seq<u16>)
    ensures
        0 <= peak(curve) <= TOP,
        forall|i: int| 0 <= i < curve.len() ==> curve[i] <= peak(curve),
    decreases curve.len(),
{
    if curve.len() > 0 {
        let front = curve.drop_last();
        lemma_peak(front);
        assert forall|i: int| 0 <= i < curve.len() implies curve[i] <= peak(curve) by {
            if i < front.len() {
                assert(front[i] == curve[i]);
            }
        }
    }
}

fn find_peak(curve: &Vec<u16>) -> (result: u16)
    ensures
        result == peak(curve@),
{
    let mut result: u16 = 0;
    let mut index: usize = 0;
    while index < curve.len()
        invariant
            index <= curve.len(),
            result == peak(curve@.take(index as int)),
        decreases curve.len() - index,
    {
        proof {
            assert(curve@.take(index + 1).drop_last() == curve@.take(index as int));
        }
        if curve[index] > result {
            result = curve[index];
        }
        index = index + 1;
    }
    proof {
        assert(curve@.take(curve.len() as int) == curve@);
    }
    result
}

fn stretch(curve: &Vec<u16>, top: u16) -> (result: Vec<u16>)
    requires
        top == peak(curve@),
        top > 0,
    ensures
        result@ == stretched_curve(curve@),
{
    let mut result: Vec<u16> = Vec::new();
    let mut index: usize = 0;
    let ghost all = stretched_curve(curve@);
    let peak = Double::of(top as u64);
    let greatest = Double::of(TOP);
    proof {
        lemma_positive(peak, top as int);
    }
    while index < curve.len()
        invariant
            index <= curve.len(),
            peak.well_formed(),
            peak.exponent <= 1202,
            peak.mantissa > 0,
            peak.value() == double::whole(crate::gamma::ramp::peak(curve@)),
            greatest.well_formed(),
            greatest.exponent <= 1202,
            greatest.value() == double::whole(TOP as int),
            all == stretched_curve(curve@),
            result@ == all.take(index as int),
        decreases curve.len() - index,
    {
        let value: u16 = to_level(Double::of(curve[index] as u64).over(peak).times(greatest));
        proof {
            assert(all[index as int] == value);
            assert(all.take(index + 1) == all.take(index as int).push(value));
        }
        result.push(value);
        index = index + 1;
    }
    proof {
        assert(all.take(curve.len() as int) == all);
    }
    result
}

fn neutral_channel(base: &Lut, channel: usize, peaks: &[u16; 3], reference: usize) -> (curve: Vec<
    u16,
>)
    requires
        channel < 3,
        reference == crate::gamma::ramp::reference(curves(*base)),
        forall|c: int| 0 <= c < 3 ==> #[trigger] peaks@[c] == peak(base@[c]@),
    ensures
        curve@ == neutral_curve(curves(*base), channel as int),
{
    let source: usize = if peaks[channel] > 0 { channel } else { reference };
    let ghost lut = curves(*base);
    proof {
        assert(lut[0] == base@[0]@ && lut[1] == base@[1]@ && lut[2] == base@[2]@);
        assert(peaks@[channel as int] == peak(base@[channel as int]@));
        assert(peaks@[source as int] == peak(base@[source as int]@));
        assert(lut[channel as int] == base@[channel as int]@);
        assert(lut[source as int] == base@[source as int]@);
    }
    let top: u16 = peaks[source];
    if top == 0 {
        proof {
            double::lemma_one_bits();
        }
        linear_channel(base[channel].len(), Double::decode(ONE_BITS))
    } else {
        stretch(&base[source], top)
    }
}

/// Removes the channel gains already present in a lookup table while retaining each channel's
/// transfer curve. This gives back a neutral base to which absolute dim and temperature values
/// can be applied without compounding them.
pub fn neutralize(base: &Lut) -> (lut: Lut)
    ensures
        forall|channel: int|
            0 <= channel < 3 ==> (#[trigger] lut@[channel])@ == neutral_curve(
                curves(*base),
                channel,
            ),
{
    let peaks: [u16; 3] = [find_peak(&base[0]), find_peak(&base[1]), find_peak(&base[2])];
    let reference: usize = if peaks[2] >= peaks[0] && peaks[2] >= peaks[1] {
        2
    } else if peaks[1] >= peaks[0] {
        1
    } else {
        0
    };
    [
        neutral_channel(base, 0, &peaks, reference),
        neutral_channel(base, 1, &peaks, reference),
        neutral_channel(base, 2, &peaks, reference),
    ]
}

/// The greatest value of a whole lookup table.
pub open spec fn top_peak(lut: Seq<Seq<u16>>) -> int {
    peak(lut[reference(lut)])
}

/// The squared distance between the gain of a channel at a temperature and the observed one.
pub open spec fn channel_error(points: WhitePoints, lut: Seq<Seq<u16>>, temperature: int, channel: int) -> int {
    let observed = double::quotient(
        double::whole(peak(lut[channel])),
        double::whole(top_peak(lut)),
    );
    let off = double::distance(points.gain(0, temperature as u64, channel), observed);
    double::product(off, off)
}

/// The squared distance between the gains of a temperature and the observed ones.
pub open spec fn error(points: WhitePoints, lut: Seq<Seq<u16>>, temperature: int) -> int {
    double::sum(
        double::sum(
            channel_error(points, lut, temperature, 0),
            channel_error(points, lut, temperature, 1),
        ),
        channel_error(points, lut, temperature, 2),
    )
}

/// The dim percentage of a table with this greatest value.
pub open spec fn estimated_dim(top: int) -> int {
    let rest = double::distance(
        double::one(),
        double::quotient(double::whole(top), double::whole(TOP as int)),
    );
    let dim = double::round(double::product(double::whole(100), rest));
    if dim <= 100 {
        dim
    } else {
        100
    }
}

/// The temperature whose gains are closest to the observed ones; the lowest of several.
pub open spec fn closest_temperature(points: WhitePoints, lut: Seq<Seq<u16>>, temperature: int) -> bool {
    &&& MIN_TEMPERATURE <= temperature <= MAX_TEMPERATURE
    &&& forall|other: int|
        MIN_TEMPERATURE <= other <= MAX_TEMPERATURE ==> error(points, lut, temperature)
            <= #[trigger] error(points, lut, other)
    &&& forall|other: int|
        MIN_TEMPERATURE <= other < temperature ==> error(points, lut, temperature)
            < #[trigger] error(points, lut, other)
}

/// Whether these are the dim percentage and the temperature that a lookup table represents: a table
/// without light is fully dimmed and neutral, else its highest value tells the dimming and the
/// proportions of its channels the temperature.
pub open spec fn represents(points: WhitePoints, lut: Seq<Seq<u16>>, controls: (u64, u64)) -> bool {
    let top = top_peak(lut);
    if top == 0 {
        controls == (100u64, NEUTRAL_TEMPERATURE)
    } else {
        &&& controls.0 == estimated_dim(top)
        &&& closest_temperature(points, lut, controls.1 as int)
    }
}

fn squared(gain: Double, observed: Double) -> (error: Double)
    requires
        gain.well_formed(),
        gain.exponent <= 10_000,
        observed.well_formed(),
        observed.exponent <= 10_000,
    ensures
        error.well_formed(),
        error.exponent <= 100_000,
        error.value() == double::product(
            double::distance(gain.value(), observed.value()),
            double::distance(gain.value(), observed.value()),
        ),
{
    let off = gain.apart(observed);
    off.times(off)
}

/// Estimates the dim percentage and the temperature that a lookup table represents. The estimate
/// is only the starting point of a transition; later tables are generated from a neutral base.
pub fn estimate(points: &WhitePoints, base: &Lut) -> (controls: (u64, u64))
    requires
        points.valid(),
    ensures
        represents(*points, curves(*base), controls),
        controls.0 <= 100,
{
    let ghost lut = curves(*base);
    let peaks: [u16; 3] = [find_peak(&base[0]), find_peak(&base[1]), find_peak(&base[2])];
    let top: u16 = if peaks[2] >= peaks[0] && peaks[2] >= peaks[1] {
        peaks[2]
    } else if peaks[1] >= peaks[0] {
        peaks[1]
    } else {
        peaks[0]
    };
    proof {
        assert(lut[0] == base@[0]@ && lut[1] == base@[1]@ && lut[2] == base@[2]@);
        assert(top == top_peak(lut));
        lemma_peak(lut[reference(lut)]);
    }
    if top == 0 {
        return (100, NEUTRAL_TEMPERATURE);
    }
    let highest = Double::of(top as u64);
    proof {
        lemma_positive(highest, top as int);
    }
    let observed: [Double; 3] = [
        Double::of(peaks[0] as u64).over(highest),
        Double::of(peaks[1] as u64).over(highest),
        Double::of(peaks[2] as u64).over(highest),
    ];
    let mut best: u64 = MIN_TEMPERATURE;
    let mut least = Double { mantissa: 0, exponent: 0 };
    let mut temperature: u64 = MIN_TEMPERATURE;
    while temperature <= MAX_TEMPERATURE
        invariant
            points.valid(),
            lut == curves(*base),
            forall|channel: int|
                0 <= channel < 3 ==> (#[trigger] observed@[channel]).well_formed()
                    && observed@[channel].exponent <= 10_000 && observed@[channel].value()
                    == double::quotient(
                    double::whole(peak(lut[channel])),
                    double::whole(top_peak(lut)),
                ),
            MIN_TEMPERATURE <= temperature <= MAX_TEMPERATURE + 1,
            MIN_TEMPERATURE <= best <= MAX_TEMPERATURE,
            least.well_formed(),
            temperature > MIN_TEMPERATURE ==> {
                &&& best < temperature
                &&& least.value() == error(*points, lut, best as int)
                &&& forall|other: int|
                    MIN_TEMPERATURE <= other < temperature ==> least.value() <= #[trigger] error(
                        *points,
                        lut,
                        other,
                    )
                &&& forall|other: int|
                    MIN_TEMPERATURE <= other < best ==> least.value() < #[trigger] error(
                        *points,
                        lut,
                        other,
                    )
            },
        decreases MAX_TEMPERATURE + 1 - temperature,
    {
        let gains = points.gains(0, temperature);
        proof {
            assert(gains@[0].well_formed() && gains@[1].well_formed() && gains@[2].well_formed());
            assert(observed@[0].well_formed() && observed@[1].well_formed()
                && observed@[2].well_formed());
        }
        let next = squared(gains[0], observed[0]).plus(squared(gains[1], observed[1])).plus(
            squared(gains[2], observed[2]),
        );
        assert(next.value() == error(*points, lut, temperature as int));
        if temperature == MIN_TEMPERATURE || !next.at_least(least) {
            best = temperature;
            least = next;
        }
        temperature = temperature + 1;
    }
    proof {
        double::lemma_one_bits();
    }
    let greatest = Double::of(TOP);
    proof {
        lemma_positive(greatest, TOP as int);
    }
    let rest = Double::decode(ONE_BITS).apart(highest.over(greatest));
    let dim: u64 = Double::of(100).times(rest).rounded();
    (if dim <= 100 { dim } else { 100 }, best)
}

} // verus!
