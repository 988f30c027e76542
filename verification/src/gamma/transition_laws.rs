//! What transitions promise.

use vstd::prelude::*;
use vstd::arithmetic::power2::{lemma2_to64, lemma_pow2_adds, lemma_pow2_pos, pow2};

use crate::double;
use crate::double_laws;

use super::ramp_laws;
use super::transition;
use super::transition::{SECOND, TRANSITION_DURATION};

verus! {

/// Half a second is exact.
pub(crate) proof fn lemma_half()
    ensures
        2 * transition::seconds(TRANSITION_DURATION) == double::one(),
        transition::seconds(TRANSITION_DURATION) > 0,
        double_laws::is_number(transition::seconds(TRANSITION_DURATION)),
{
    let h = pow2(1073) as int;
    let o = double::one();
    lemma2_to64();
    lemma_pow2_adds(1, 1073);
    lemma_pow2_pos(1073);
    assert(o == 2 * h);
    double::lemma_exact(1, 1073);
    double_laws::lemma_whole(0);
    double_laws::lemma_whole(500_000_000);
    double_laws::lemma_whole(1_000_000_000);
    let d = 1_000_000_000 * o;
    let n = (500_000_000 * o) * o;
    assert(n == h * d) by (nonlinear_arith)
        requires
            n == (500_000_000 * o) * o,
            d == 1_000_000_000 * o,
            o == 2 * h,
    ;
    double_laws::lemma_exact_ratio(n, d, h);
    assert(0 * o == 0);
}

/// The duration of a transition.
pub open spec fn duration() -> int {
    TRANSITION_DURATION as int
}

/// The part of the duration is close to the exact one.
proof fn lemma_share(time: u64)
    requires
        time <= TRANSITION_DURATION,
    ensures
        0 <= transition::share(time) <= double::one(),
        double_laws::is_number(transition::share(time)),
        -(3 * (double_laws::fine() * duration())) <= transition::share(time) * duration() - time * double::one() <= 3 * (double_laws::fine()
            * duration()),
{
    double_laws::lemma_fine();
    lemma_half();
    let o = double::one();
    let f = double_laws::fine();
    let h = transition::seconds(TRANSITION_DURATION);
    let g = 1_000_000_000int;
    let k = time as int;
    double_laws::lemma_whole(0);
    double_laws::lemma_whole(k);
    double_laws::lemma_whole(500_000_000);
    double_laws::lemma_whole(g);
    assert(0 * o == 0);
    assert(0 <= k * o <= 500_000_000 * o) by (nonlinear_arith)
        requires
            0 <= k <= 500_000_000,
            o > 0,
    ;
    let d = g * o;
    let n = (k * o) * o;
    let q = double::quotient(k * o, d);
    double_laws::lemma_quotient_order(k * o, 500_000_000 * o, d);
    assert(0 + q == q);
    assert(transition::seconds(time) == q);
    assert(0 <= n <= 4 * o * d) by (nonlinear_arith)
        requires
            n == (k * o) * o,
            d == 1_000_000_000 * o,
            0 <= k <= 500_000_000,
            o > 0,
    ;
    double_laws::lemma_fine_error(n, d);
    assert(-((f * g) * o) <= (q * g - k * o) * o <= (f * g) * o) by (nonlinear_arith)
        requires
            -(f * d) <= q * d - n <= f * d,
            d == g * o,
            n == (k * o) * o,
    ;
    double_laws::lemma_divide(q * g - k * o, f * g, o);
    assert(q <= h) by {
        double_laws::lemma_quotient_order(500_000_000 * o, 500_000_000 * o, d);
        assert(0 + double::quotient(500_000_000 * o, d) == double::quotient(500_000_000 * o, d));
        assert(transition::seconds(TRANSITION_DURATION) == double::quotient(500_000_000 * o, d));
    }
    double_laws::lemma_quotient_order(q, h, h);
    double_laws::lemma_quotient_same(h);
    let p = double::quotient(q, h);
    assert(transition::share(time) == p);
    let m = q * o;
    assert(0 <= m <= 4 * o * h) by (nonlinear_arith)
        requires
            m == q * o,
            0 <= q <= h,
            o > 0,
    ;
    double_laws::lemma_fine_error(m, h);
    assert((p - 2 * q) * h == p * h - m) by (nonlinear_arith)
        requires
            m == q * o,
            o == 2 * h,
    ;
    double_laws::lemma_divide(p - 2 * q, f, h);
    assert(p * 500_000_000 == (p - 2 * q) * 500_000_000 + q * 1_000_000_000);
    assert(q * g == q * 1_000_000_000 && f * g == f * 1_000_000_000);
    assert(double_laws::fine() * duration() == f * 500_000_000);
    assert(transition::share(time) * duration() == p * 500_000_000);
}

/// The progress after the duration is all of it.
proof fn lemma_done(time: u64)
    requires
        time >= TRANSITION_DURATION,
    ensures
        transition::share(time) == double::one(),
        transition::progress(time) == double::one(),
{
    lemma_half();
    let o = double::one();
    let h = transition::seconds(TRANSITION_DURATION);
    double_laws::lemma_whole(0);
    double_laws::lemma_whole(1);
    double_laws::lemma_whole(2);
    double_laws::lemma_whole(3);
    double_laws::lemma_whole(SECOND as int);
    double_laws::lemma_whole((time / SECOND) as int);
    double_laws::lemma_whole((time % SECOND) as int);
    assert(0 * o == 0);
    let (a, b) = ((time / SECOND) as int, (time % SECOND) as int);
    let d = 1_000_000_000 * o;
    assert(0 <= b * o && 0 <= a * o) by (nonlinear_arith)
        requires
            0 <= a,
            0 <= b,
            o > 0,
    ;
    double_laws::lemma_quotient_order(b * o, b * o, d);
    let q = double::quotient(b * o, d);
    if a == 0 {
        assert(500_000_000 * o <= b * o) by (nonlinear_arith)
            requires
                b >= 500_000_000,
                o > 0,
        ;
        double_laws::lemma_whole(500_000_000);
        double_laws::lemma_quotient_order(500_000_000 * o, b * o, d);
        assert(0 + q == q);
        let half = double::quotient(500_000_000 * o, d);
        assert(0 + half == half);
        double_laws::lemma_quotient_order(500_000_000 * o, 500_000_000 * o, d);
        assert(h == half);
    } else {
        assert(a * o >= o) by (nonlinear_arith)
            requires
                a >= 1,
                o > 0,
        ;
        double_laws::law_rounding_keeps_the_order(o, 1, a * o + q, 1);
        assert(double::closest(o, 1) == o);
    }
    assert(transition::seconds(time) >= h);
    double_laws::lemma_quotient_order(h, transition::seconds(time), h);
    double_laws::lemma_quotient_same(h);
    double_laws::lemma_product_one(o);
    double_laws::lemma_product_one(2 * o);
    assert(3 * o - 2 * o == o);
}

/// The exact progress, times the third power of the duration.
pub open spec fn exact(time: int) -> int {
    time * time * (3 * duration() - 2 * time)
}

/// The third power of the duration.
pub closed spec fn cube() -> int {
    duration() * duration() * duration()
}

proof fn lemma_cube()
    ensures
        cube() == duration() * duration() * duration(),
        cube() > 0,
{
    let l = duration();
    assert(l * l * l > 0) by (nonlinear_arith)
        requires
            l > 0,
    ;
}

/// The progress is close to the exact one.
proof fn lemma_progress_error(time: u64)
    requires
        time <= TRANSITION_DURATION,
    ensures
        0 <= transition::progress(time),
        -(42 * (double_laws::fine() * cube())) <= transition::progress(time) * cube() - exact(time as int) * double::one()
            <= 42 * (double_laws::fine() * cube()),
{
    double_laws::lemma_fine();
    lemma_share(time);
    let o = double::one();
    let f = double_laws::fine();
    let k = time as int;
    let p = transition::share(time);
    let l = duration();
    double_laws::lemma_whole(1);
    double_laws::lemma_whole(2);
    double_laws::lemma_whole(3);
    assert(1 * o == o);
    // The square.
    assert(0 <= p * p <= 4 * o * o) by (nonlinear_arith)
        requires
            0 <= p <= o,
    ;
    double_laws::lemma_fine_error(p * p, o);
    double_laws::lemma_product_order(p, p, o, o);
    double_laws::lemma_product_one(o);
    let s = double::product(p, p);
    // The rest.
    assert(0 <= (2 * o) * p <= 4 * o * o) by (nonlinear_arith)
        requires
            0 <= p <= o,
    ;
    double_laws::lemma_fine_error((2 * o) * p, o);
    double_laws::lemma_product_order(2 * o, p, 2 * o, o);
    double_laws::lemma_product_one(2 * o);
    let t = double::product(2 * o, p);
    assert(-(f * o) <= (t - 2 * p) * o <= f * o) by (nonlinear_arith)
        requires
            -(f * o) <= t * o - (2 * o) * p <= f * o,
    ;
    double_laws::lemma_divide(t - 2 * p, f, o);
    assert(3 * o - t <= 4 * o * 1);
    double_laws::lemma_fine_error(3 * o - t, 1);
    let r = double::distance(3 * o, t);
    assert(r == double::closest(3 * o - t, 1));
    assert(-(2 * f) <= r - (3 * o - 2 * p) <= 2 * f);
    double_laws::lemma_closest_is_number(3 * o - t, 1);
    assert(r <= 3 * o + f);
    // The product.
    assert(0 <= s * r <= 4 * o * o) by (nonlinear_arith)
        requires
            0 <= s <= o,
            0 <= r <= 4 * o,
    ;
    double_laws::lemma_fine_error(s * r, o);
    double_laws::lemma_product_order(s, r, s, r);
    let x = double::product(s, r);
    assert(x == transition::progress(time));
    lemma_cube();
    lemma_errors(k, p, s, r, x, o, f, l, cube());
}

/// How the errors of the steps add up.
proof fn lemma_errors(k: int, p: int, s: int, r: int, x: int, o: int, f: int, l: int, c3: int)
    requires
        0 < l,
        c3 == l * l * l,
        0 <= k <= l,
        0 <= p <= o,
        0 < f,
        o == 0x4_0000_0000_0000 * f,
        -(3 * (f * l)) <= p * l - k * o <= 3 * (f * l),
        -(f * o) <= s * o - p * p <= f * o,
        -(2 * f) <= r - (3 * o - 2 * p) <= 2 * f,
        -(f * o) <= x * o - s * r <= f * o,
    ensures
        -(42 * (f * c3)) <= x * c3 - (k * k * (3 * l - 2 * k)) * o <= 42 * (f * c3),
{
    let a = p * l - k * o;
    let fl = f * l;
    let l2 = l * l;
    let l3 = c3;
    assert(l2 > 0 && l3 > 0) by (nonlinear_arith)
        requires
            l2 == l * l,
            l3 == l * l * l,
            l > 0,
    ;
    assert(fl > 0) by (nonlinear_arith)
        requires
            fl == f * l,
            f > 0,
            l > 0,
    ;
    // The square, times the second power.
    let e1 = s * o - p * p;
    let b = s * l2 - (k * k) * o;
    let z = k * o;
    let y = p * l;
    assert(y * y == z * z + 2 * z * a + a * a) by (nonlinear_arith)
        requires
            y == z + a,
    ;
    assert((p * p) * l2 == y * y) by (nonlinear_arith)
        requires
            y == p * l,
            l2 == l * l,
    ;
    assert((s * o) * l2 == (p * p) * l2 + e1 * l2) by (nonlinear_arith)
        requires
            s * o == p * p + e1,
    ;
    assert(b * o == (s * o) * l2 - z * z) by (nonlinear_arith)
        requires
            b == s * l2 - (k * k) * o,
            z == k * o,
    ;
    let fo = f * o;
    let g = fo * l2;
    assert(-(6 * g) <= 2 * (k * o) * a <= 6 * g) by (nonlinear_arith)
        requires
            -(3 * fl) <= a <= 3 * fl,
            0 <= k <= l,
            o > 0,
            fl == f * l,
            g == (f * o) * (l * l),
            f > 0,
    ;
    assert(0 <= a * a <= 9 * (fl * fl)) by (nonlinear_arith)
        requires
            -(3 * fl) <= a <= 3 * fl,
            fl > 0,
    ;
    assert(9 * (fl * fl) <= g) by (nonlinear_arith)
        requires
            fl == f * l,
            g == (f * o) * (l * l),
            o >= 9 * f,
            f > 0,
            l > 0,
    ;
    assert(-g <= e1 * l2 <= g) by (nonlinear_arith)
        requires
            -fo <= e1 <= fo,
            g == fo * l2,
            l2 > 0,
    ;
    assert(g == (f * l2) * o) by (nonlinear_arith)
        requires
            g == (f * o) * l2,
    ;
    let fl2 = f * l2;
    assert(fl2 > 0) by (nonlinear_arith)
        requires
            fl2 == f * l2,
            f > 0,
            l2 > 0,
    ;
    assert(-((8 * fl2) * o) <= b * o <= (8 * fl2) * o) by (nonlinear_arith)
        requires
            -(8 * g) <= b * o <= 8 * g,
            g == fl2 * o,
    ;
    double_laws::lemma_divide(b, 8 * fl2, o);
    // The rest, times the duration.
    let c = r * l - (3 * l - 2 * k) * o;
    assert(c == (r - (3 * o - 2 * p)) * l - 2 * a) by (nonlinear_arith)
        requires
            c == r * l - (3 * l - 2 * k) * o,
            a == p * l - k * o,
    ;
    assert(-(8 * fl) <= c <= 8 * fl) by (nonlinear_arith)
        requires
            c == (r - (3 * o - 2 * p)) * l - 2 * a,
            -(2 * f) <= r - (3 * o - 2 * p) <= 2 * f,
            -(3 * fl) <= a <= 3 * fl,
            fl == f * l,
            l > 0,
    ;
    // The product, times the third power.
    let w = 3 * l - 2 * k;
    let e2 = x * o - s * r;
    let k2 = k * k;
    let whole = x * l3 - (k2 * w) * o;
    let u = (s * l2) * (r * l);
    assert(u == (s * r) * l3) by (nonlinear_arith)
        requires
            u == (s * l2) * (r * l),
            l2 == l * l,
            l3 == l * l * l,
    ;
    let (m, n) = (k2 * o, w * o);
    let exact_part = (k2 * w) * o;
    assert(s * l2 == m + b && r * l == n + c);
    assert((m + b) * (n + c) == m * n + m * c + b * n + b * c) by (nonlinear_arith);
    assert(m * n == exact_part * o) by (nonlinear_arith)
        requires
            m == k2 * o,
            n == w * o,
            exact_part == (k2 * w) * o,
    ;
    let sr = s * r;
    assert((x * o) * l3 == sr * l3 + e2 * l3) by (nonlinear_arith)
        requires
            x * o == sr + e2,
    ;
    assert(whole * o == (x * o) * l3 - exact_part * o) by (nonlinear_arith)
        requires
            whole == x * l3 - exact_part,
    ;
    assert(whole * o == m * c + b * n + b * c + e2 * l3);
    let h = fo * l3;
    assert(h == (f * o) * (l2 * l)) by (nonlinear_arith)
        requires
            h == fo * l3,
            fo == f * o,
            l3 == l * l * l,
            l2 == l * l,
    ;
    assert(0 <= k2 <= l2) by (nonlinear_arith)
        requires
            k2 == k * k,
            l2 == l * l,
            0 <= k <= l,
    ;
    assert(-(8 * h) <= (k2 * o) * c <= 8 * h) by (nonlinear_arith)
        requires
            -(8 * fl) <= c <= 8 * fl,
            fl == f * l,
            0 <= k2 <= l2,
            o > 0,
            f > 0,
            l > 0,
            h == (f * o) * (l2 * l),
    ;
    assert(-(24 * h) <= b * (w * o) <= 24 * h) by (nonlinear_arith)
        requires
            -(8 * fl2) <= b <= 8 * fl2,
            fl2 == f * l2,
            0 <= w <= 3 * l,
            o > 0,
            f > 0,
            l2 > 0,
            h == (f * o) * (l2 * l),
    ;
    assert(-(64 * (fl2 * fl)) <= b * c <= 64 * (fl2 * fl)) by (nonlinear_arith)
        requires
            -(8 * fl2) <= b <= 8 * fl2,
            -(8 * fl) <= c <= 8 * fl,
            fl2 > 0,
            fl > 0,
    ;
    assert(64 * (fl2 * fl) <= h) by (nonlinear_arith)
        requires
            fl2 == f * l2,
            fl == f * l,
            h == (f * o) * (l2 * l),
            o >= 64 * f,
            f > 0,
            l > 0,
            l2 > 0,
    ;
    assert(-h <= e2 * l3 <= h) by (nonlinear_arith)
        requires
            -fo <= e2 <= fo,
            h == fo * l3,
            l3 > 0,
    ;
    let bound = f * l3;
    assert(h == bound * o) by (nonlinear_arith)
        requires
            h == (f * o) * l3,
            bound == f * l3,
    ;
    assert(-((34 * bound) * o) <= whole * o <= (34 * bound) * o) by (nonlinear_arith)
        requires
            -(34 * h) <= whole * o <= 34 * h,
            h == bound * o,
    ;
    double_laws::lemma_divide(whole, 34 * bound, o);
    assert(bound >= 0) by (nonlinear_arith)
        requires
            bound == f * l3,
            f > 0,
            l3 > 0,
    ;
}

/// The exact value that lies at `progress` of the way, in steps.
spec fn target(from: u64, to: u64, progress: int) -> int {
    from * double::one() + (to - from) * progress
}

/// A value is at most about a half away from the exact one.
proof fn lemma_value(from: u64, to: u64, progress: int)
    requires
        from <= 65535,
        to <= 65535,
        0 <= progress <= double::one() + 64 * double_laws::fine(),
    ensures
        ({
            let value = transition::spec_interpolate(from, to, progress);
            let off = value * double::one() - target(from, to, progress);
            &&& -(double::one() + 8 * double_laws::slack()) <= 2 * off
            &&& 2 * off <= double::one() + 8 * double_laws::slack()
            &&& 0 <= value
        }),
{
    double_laws::lemma_fine();
    double_laws::lemma_slack();
    let o = double::one();
    let e = double_laws::slack();
    let f = double_laws::fine();
    double_laws::lemma_whole(from as int);
    double_laws::lemma_whole(to as int);
    let d = if to >= from {
        to - from
    } else {
        from - to
    };
    let (start, end) = (from * o, to * o);
    double_laws::lemma_whole(d);
    assert(d * o == (if end >= start {
        end - start
    } else {
        start - end
    }) && (end >= start <==> to >= from)) by (nonlinear_arith)
        requires
            start == from * o,
            end == to * o,
            o > 0,
            d == (if to >= from {
                to - from
            } else {
                from - to
            }),
    ;
    let moved = double::product(d * o, progress);
    ramp_laws::lemma_scaled(d, progress);
    assert(0 <= d * progress <= d * o + 64 * (d * f)) by (nonlinear_arith)
        requires
            0 <= progress <= o + 64 * f,
            d >= 0,
    ;
    assert(64 * (d * f) <= 128 * e) by (nonlinear_arith)
        requires
            e == 0x8000 * f,
            0 <= d <= 65535,
            f > 0,
    ;
    if to >= from {
        let n = start + moved;
        assert(n <= 0x2_0000 * o * 1) by (nonlinear_arith)
            requires
                n == from * o + moved,
                moved <= d * o + 129 * e,
                from + d <= 65535,
                o == 0x8_0000_0000 * e,
                e > 0,
        ;
        double_laws::lemma_small_error(n, 1);
        let s = double::sum(start, moved);
        double_laws::lemma_closest_is_number(n, 1);
        double_laws::lemma_round_bounds(s);
        double_laws::lemma_round_order(0, s);
        lemma_no_overflow(s);
        assert((to - from) * progress == d * progress);
    } else {
        assert((to - from) * progress == -(d * progress)) by (nonlinear_arith)
            requires
                to - from == -d,
        ;
        assert(d * o <= start) by (nonlinear_arith)
            requires
                start == from * o,
                0 <= d <= from,
                o > 0,
        ;
        if start >= moved {
            let n = start - moved;
            assert(n <= 0x2_0000 * o * 1) by (nonlinear_arith)
                requires
                    n <= from * o,
                    from <= 65535,
                    o > 0,
            ;
            double_laws::lemma_small_error(n, 1);
            let s = double::distance(start, moved);
            assert(s == double::closest(n, 1));
            double_laws::lemma_closest_is_number(n, 1);
            double_laws::lemma_round_bounds(s);
            double_laws::lemma_round_order(0, s);
            lemma_no_overflow(s);
        } else {
            double_laws::lemma_round_to(0, 0);
            assert(0 * o == 0);
        }
    }
}

/// A number within the values of a transition is rounded to one that fits.
proof fn lemma_no_overflow(number: int)
    requires
        0 <= number <= 0x2_0000 * double::one() + double_laws::slack(),
    ensures
        double::round(number) <= u64::MAX,
{
    double_laws::lemma_slack();
    double_laws::lemma_round_bounds(number);
    let o = double::one();
    let value = double::round(number);
    if value > u64::MAX {
        assert(value * o >= 0x10_0000 * o) by (nonlinear_arith)
            requires
                value >= 0x10_0000,
                o > 0,
        ;
    }
}

/// The least time that a transition is neither at its beginning nor at its end.
spec fn margin() -> int {
    244_140
}

/// The exact progress lies between nothing and all of it, and close to them at the beginning and at
/// the end.
proof fn lemma_exact_bounds(k: int, l: int, c: int)
    requires
        0 <= k <= l,
        l == duration(),
        c == l * l * l,
    ensures
        0 <= exact(k) <= c,
        k <= margin() ==> exact(k) * 0x10_0000 <= c,
        k >= l - margin() ==> (c - exact(k)) * 0x10_0000 <= c,
{
    let j = l - k;
    let near = k * k * (3 * l - 2 * k);
    let far = j * j * (l + 2 * k);
    assert(exact(k) == near);
    lemma_exact_parts(k, j, l, near, far, c);
}

proof fn lemma_exact_parts(k: int, j: int, l: int, near: int, far: int, c: int)
    requires
        0 <= k,
        0 <= j,
        l == k + j,
        c == l * l * l,
        near == k * k * (3 * l - 2 * k),
        far == j * j * (l + 2 * k),
    ensures
        near + far == c,
        0 <= near,
        0 <= far,
        2048 * k <= l ==> near * 0x10_0000 <= c,
        2048 * j <= l ==> far * 0x10_0000 <= c,
{
    let l2 = l * l;
    let k2 = k * k;
    let j2 = j * j;
    assert(near + far == c) by (nonlinear_arith)
        requires
            l == k + j,
            c == l * l * l,
            near == k * k * (3 * l - 2 * k),
            far == j * j * (l + 2 * k),
    ;
    assert(0 <= k2 && 0 <= j2 && 0 <= l2) by (nonlinear_arith)
        requires
            k2 == k * k,
            j2 == j * j,
            l2 == l * l,
    ;
    let (u, v) = (3 * l - 2 * k, l + 2 * k);
    assert(0 <= k2 * u && k2 * u <= 3 * (k2 * l)) by (nonlinear_arith)
        requires
            0 <= u <= 3 * l,
            0 <= k2,
    ;
    assert(0 <= j2 * v && j2 * v <= 3 * (j2 * l)) by (nonlinear_arith)
        requires
            0 <= v <= 3 * l,
            0 <= j2,
    ;
    if 2048 * k <= l {
        assert(0x40_0000 * k2 <= l2) by (nonlinear_arith)
            requires
                0 <= 2048 * k <= l,
                k2 == k * k,
                l2 == l * l,
        ;
        assert(0x40_0000 * (k2 * l) <= l2 * l) by (nonlinear_arith)
            requires
                0x40_0000 * k2 <= l2,
                l >= 0,
        ;
    }
    if 2048 * j <= l {
        assert(0x40_0000 * j2 <= l2) by (nonlinear_arith)
            requires
                0 <= 2048 * j <= l,
                j2 == j * j,
                l2 == l * l,
        ;
        assert(0x40_0000 * (j2 * l) <= l2 * l) by (nonlinear_arith)
            requires
                0x40_0000 * j2 <= l2,
                l >= 0,
        ;
    }
}

/// The value after some time, between its beginning and its end, and close to them at either.
proof fn lemma_regions(from: u64, to: u64, time: u64)
    requires
        from <= 65535,
        to <= 65535,
        time <= TRANSITION_DURATION,
    ensures
        ({
            let value = transition::spec_interpolate(from, to, transition::progress(time));
            &&& from <= to ==> from <= value <= to
            &&& to <= from ==> to <= value <= from
            &&& time <= margin() ==> value == from
            &&& time >= duration() - margin() ==> value == to
        }),
{
    double_laws::lemma_fine();
    double_laws::lemma_slack();
    lemma_progress_error(time);
    let o = double::one();
    let e = double_laws::slack();
    let f = double_laws::fine();
    let k = time as int;
    let x = transition::progress(time);
    let c = cube();
    lemma_cube();
    lemma_exact_bounds(k, duration(), c);
    let rest = c - exact(k);
    assert(x <= o + 42 * f) by (nonlinear_arith)
        requires
            x * c <= exact(k) * o + 42 * (f * c),
            exact(k) <= c,
            c > 0,
            o > 0,
    ;
    lemma_value(from, to, x);
    let value = transition::spec_interpolate(from, to, x);
    let d = to - from;
    let goal = target(from, to, x);
    let from_o = from * o;
    let to_o = to * o;
    assert(to_o == from_o + d * o) by (nonlinear_arith)
        requires
            to_o == to * o,
            from_o == from * o,
            d == to - from,
    ;
    assert(d >= 0 ==> 0 <= d * x <= d * o + 42 * (65535 * f)) by (nonlinear_arith)
        requires
            0 <= x <= o + 42 * f,
            d <= 65535,
            f > 0,
    ;
    assert(d <= 0 ==> 0 >= d * x >= d * o - 42 * (65535 * f)) by (nonlinear_arith)
        requires
            0 <= x <= o + 42 * f,
            d >= -65535,
            f > 0,
    ;
    lemma_settles(value, goal, from as int, to as int, o, e);
    if k <= margin() {
        assert(0x10_0000 * x <= o + 42 * (0x10_0000 * f)) by (nonlinear_arith)
            requires
                x * c <= exact(k) * o + 42 * (f * c),
                exact(k) * 0x10_0000 <= c,
                c > 0,
                o > 0,
        ;
        assert(-o <= 8 * (d * x) <= o) by (nonlinear_arith)
            requires
                0 <= x,
                0x10_0000 * x <= o + 42 * (0x10_0000 * f),
                o == 0x4_0000_0000_0000 * f,
                -65535 <= d <= 65535,
                f > 0,
        ;
        lemma_same_value(value, from as int, goal, o, e);
    }
    if k >= duration() - margin() {
        assert(0x10_0000 * (o - x) <= o + 42 * (0x10_0000 * f)) by (nonlinear_arith)
            requires
                x * c >= exact(k) * o - 42 * (f * c),
                exact(k) + rest == c,
                rest * 0x10_0000 <= c,
                c > 0,
                o > 0,
        ;
        let y = o - x;
        assert(-o <= 8 * (d * y) <= o) by (nonlinear_arith)
            requires
                -(42 * f) <= y,
                0x10_0000 * y <= o + 42 * (0x10_0000 * f),
                o == 0x4_0000_0000_0000 * f,
                -65535 <= d <= 65535,
                f > 0,
        ;
        assert(d * x == d * o - d * y) by (nonlinear_arith)
            requires
                y == o - x,
        ;
        lemma_same_value(value, to as int, goal, o, e);
    }
}

/// An integer about a half away from a number that is close to another integer is that one.
proof fn lemma_same_value(value: int, wanted: int, goal: int, o: int, e: int)
    requires
        o == 0x8_0000_0000 * e,
        e > 0,
        -(o + 8 * e) <= 2 * (value * o - goal) <= o + 8 * e,
        -o <= 8 * (goal - wanted * o) <= o,
    ensures
        value == wanted,
{
    assert(value == wanted) by (nonlinear_arith)
        requires
            -o < value * o - wanted * o < o,
            o > 0,
    ;
}

/// An integer about a half away from a number between two integers is between them.
proof fn lemma_settles(value: int, goal: int, from: int, to: int, o: int, e: int)
    requires
        o == 0x8_0000_0000 * e,
        e > 0,
        -(o + 8 * e) <= 2 * (value * o - goal) <= o + 8 * e,
        from <= to ==> from * o <= goal <= to * o + 0x1000 * e,
        to <= from ==> to * o - 0x1000 * e <= goal <= from * o,
    ensures
        from <= to ==> from <= value <= to,
        to <= from ==> to <= value <= from,
{
    if from <= to {
        assert(from <= value <= to) by (nonlinear_arith)
            requires
                from * o - o < value * o < to * o + o,
                o > 0,
        ;
    }
    if to <= from {
        assert(to <= value <= from) by (nonlinear_arith)
            requires
                to * o - o < value * o < from * o + o,
                o > 0,
        ;
    }
}

/// A transition goes from its beginning to its end and stays between them.
pub(crate) proof fn lemma_ends(from: u64, to: u64, time: u64)
    requires
        from <= 65535,
        to <= 65535,
    ensures
        ({
            let value = transition::spec_interpolate(from, to, transition::progress(time));
            &&& from <= to ==> from <= value <= to
            &&& to <= from ==> to <= value <= from
            &&& time == 0 ==> value == from
            &&& time >= TRANSITION_DURATION ==> value == to
        }),
{
    if time >= TRANSITION_DURATION {
        lemma_done(time);
        lemma_done(TRANSITION_DURATION);
        lemma_regions(from, to, TRANSITION_DURATION);
    } else {
        lemma_regions(from, to, time);
    }
}

/// A transition is over after its time.
pub(crate) proof fn lemma_over(time: u64)
    requires
        time >= TRANSITION_DURATION,
    ensures
        transition::is_over(time),
{
    lemma_done(time);
}

/// More progress does not lead back.
proof fn lemma_order(from: u64, to: u64, less: int, more: int)
    requires
        0 <= less <= more,
    ensures
        from <= to ==> transition::spec_interpolate(from, to, less) <= transition::spec_interpolate(from, to, more),
        to <= from ==> transition::spec_interpolate(from, to, more) <= transition::spec_interpolate(from, to, less),
{
    double_laws::lemma_whole(0);
    let o = double::one();
    assert(0 <= from * o && 0 <= to * o) by (nonlinear_arith)
        requires
            from >= 0,
            to >= 0,
            o > 0,
    ;
    let (start, end) = (double::whole(from as int), double::whole(to as int));
    if from <= to {
        assert(from * o <= to * o) by (nonlinear_arith)
            requires
                from <= to,
                o > 0,
        ;
        double_laws::law_rounding_keeps_the_order(from * o, 1, to * o, 1);
    }
    if to <= from {
        assert(to * o <= from * o) by (nonlinear_arith)
            requires
                to <= from,
                o > 0,
        ;
        double_laws::law_rounding_keeps_the_order(to * o, 1, from * o, 1);
    }
    double_laws::law_rounding_keeps_the_order(from * o, 1, from * o, 1);
    let way = double::distance(start, end);
    if end >= start {
        double_laws::lemma_closest_is_number(end - start, 1);
    } else {
        double_laws::lemma_closest_is_number(start - end, 1);
    }
    double_laws::lemma_product_order(way, less, way, more);
    let (first, second) = (double::product(way, less), double::product(way, more));
    if end >= start {
        double_laws::law_rounding_keeps_the_order(start + first, 1, start + second, 1);
        double_laws::lemma_round_order(double::sum(start, first), double::sum(start, second));
        if to <= from {
            assert(start == end);
            lemma_no_way(start, less);
            lemma_no_way(start, more);
        }
    } else if start >= second {
        double_laws::law_rounding_keeps_the_order(start - second, 1, start - first, 1);
        lemma_apart(start, first);
        lemma_apart(start, second);
        double_laws::lemma_round_order(
            double::distance(start, second),
            double::distance(start, first),
        );
    } else {
        double_laws::lemma_round_to(0, 0);
        if start >= first {
            lemma_apart(start, first);
            double_laws::lemma_closest_is_number(start - first, 1);
            double_laws::lemma_round_order(0, double::distance(start, first));
        }
    }
}

proof fn lemma_apart(left: int, right: int)
    requires
        left >= right,
    ensures
        double::distance(left, right) == double::closest(left - right, 1),
{
}

/// Where there is no way to go, progress moves nothing.
proof fn lemma_no_way(start: int, progress: int)
    ensures
        double::product(double::distance(start, start), progress) == 0,
{
    double_laws::lemma_whole(0);
    assert(0 * double::one() == 0);
    assert(double::distance(start, start) == 0);
    assert(0 * progress == 0 * double::one());
    double_laws::lemma_exact_ratio(0 * progress, double::one(), 0);
}

/// In between, a later progress is not less.
proof fn lemma_middle(earlier: u64, later: u64)
    requires
        margin() < earlier <= later < duration() - margin(),
    ensures
        0 <= transition::progress(earlier) <= transition::progress(later),
{
    double_laws::lemma_fine();
    lemma_progress_error(earlier);
    lemma_progress_error(later);
    if earlier < later {
        lemma_cube();
        lemma_grows(
            earlier as int,
            later as int,
            duration(),
            cube(),
            double::one(),
            double_laws::fine(),
            transition::progress(earlier),
            transition::progress(later),
        );
    }
}

/// Where the exact progress grows by more than the errors, the progress grows.
proof fn lemma_grows(a: int, b: int, l: int, c: int, o: int, f: int, x: int, y: int)
    requires
        0 < a < b < l,
        2048 * a >= l,
        2048 * (l - b) >= l,
        c == l * l * l,
        0 < f,
        344_064 * (l * f) <= o,
        0 < o,
        0 < c,
        x * c - (a * a * (3 * l - 2 * a)) * o <= 42 * (f * c),
        y * c - (b * b * (3 * l - 2 * b)) * o >= -(42 * (f * c)),
    ensures
        x <= y,
{
    let near = a * a * (3 * l - 2 * a);
    let far = b * b * (3 * l - 2 * b);
    let gain = far - near;
    let first = a * (l - a);
    let second = b * (l - b);
    let third = a * (l - b);
    let fourth = b * (l - a);
    let factor = 2 * first + 2 * second + third + fourth;
    let l2 = l * l;
    let sum = 3 * l * (a + b) - 2 * (a * a + a * b + b * b);
    assert(b * b * (3 * l - 2 * b) - a * a * (3 * l - 2 * a) == (b - a) * sum) by (nonlinear_arith)
        requires
            sum == 3 * l * (a + b) - 2 * (a * a + a * b + b * b),
    ;
    assert(a * (l - a) == a * l - a * a) by (nonlinear_arith);
    assert(b * (l - b) == b * l - b * b) by (nonlinear_arith);
    assert(a * (l - b) == a * l - a * b) by (nonlinear_arith);
    assert(b * (l - a) == b * l - a * b) by (nonlinear_arith);
    assert(3 * l * (a + b) == 3 * (a * l) + 3 * (b * l)) by (nonlinear_arith);
    assert(sum == factor);
    assert(4096 * first >= l2) by (nonlinear_arith)
        requires
            first == a * (l - a),
            l2 == l * l,
            2048 * a >= l,
            2048 * (l - a) >= l,
            0 < a < l,
    ;
    assert(second >= 0 && third >= 0 && fourth >= 0) by (nonlinear_arith)
        requires
            second == b * (l - b),
            third == a * (l - b),
            fourth == b * (l - a),
            0 < a < b < l,
    ;
    assert((b - a) * factor >= factor) by (nonlinear_arith)
        requires
            b - a >= 1,
            factor >= 0,
    ;
    assert(2048 * gain >= l2);
    let lf = l * f;
    assert(c == l2 * l);
    assert(f * c == l2 * lf) by (nonlinear_arith)
        requires
            c == l2 * l,
            lf == l * f,
    ;
    assert(2048 * (gain * o) >= l2 * o) by (nonlinear_arith)
        requires
            2048 * gain >= l2,
            o > 0,
    ;
    assert(l2 * o >= 344_064 * (l2 * lf)) by (nonlinear_arith)
        requires
            o >= 344_064 * lf,
            l2 >= 0,
    ;
    assert(l2 * lf >= 0) by (nonlinear_arith)
        requires
            l2 >= 0,
            lf >= 0,
    ;
    assert(far * o - near * o == gain * o) by (nonlinear_arith)
        requires
            gain == far - near,
    ;
    assert(x * c <= y * c);
    assert(x <= y) by (nonlinear_arith)
        requires
            x * c <= y * c,
            c > 0,
    ;
}

/// A transition only moves towards its target: a later value is as far as an earlier one, or
/// farther.
pub proof fn law_transitions_do_not_turn_back(from: u64, to: u64, earlier: u64, later: u64)
    requires
        from <= 65535,
        to <= 65535,
        earlier <= later,
    ensures
        ({
            let first = transition::spec_interpolate(from, to, transition::progress(earlier));
            let second = transition::spec_interpolate(from, to, transition::progress(later));
            &&& from <= to ==> from <= first <= second <= to
            &&& to <= from ==> to <= second <= first <= from
        }),
{
    lemma_ends(from, to, earlier);
    lemma_ends(from, to, later);
    if later < TRANSITION_DURATION {
        lemma_regions(from, to, earlier);
        lemma_regions(from, to, later);
        if earlier > margin() && later < duration() - margin() {
            lemma_middle(earlier, later);
            lemma_order(from, to, transition::progress(earlier), transition::progress(later));
        }
    }
}

/// A transition eases in and out: after the part `s` of half a second it is at `s * s * (3 - 2 * s)` of
/// its way, but for rounding by less than a part in `2` to the power of 44; and after that time it is
/// at its end.
pub proof fn law_transitions_ease_in_and_out(time: u64)
    ensures
        time >= 500_000_000 ==> transition::progress(time) == double::one(),
        time <= 500_000_000 ==> {
            let whole = 500_000_000 * 500_000_000 * 500_000_000 * double::one();
            let exact = (time * time * (1_500_000_000 - 2 * time)) * double::one();
            let off = transition::progress(time) * (500_000_000 * 500_000_000 * 500_000_000) - exact;
            -whole <= 0x1000_0000_0000 * off <= whole
        },
{
    if time >= 500_000_000 {
        lemma_done(time);
    }
    if time <= 500_000_000 {
        lemma_progress_error(time);
        double_laws::lemma_fine();
        let (o, f) = (double::one(), double_laws::fine());
        lemma_cube();
        let l = duration();
        assert(l * l * l == 125_000_000_000_000_000_000_000_000) by (nonlinear_arith)
            requires
                l == 500_000_000,
        ;
        assert(cube() == 125_000_000_000_000_000_000_000_000);
        let (c, x) = (cube(), transition::progress(time));
        assert(f * c == 125_000_000_000_000_000_000_000_000 * f);
        assert(x * c == x * (500_000_000 * 500_000_000 * 500_000_000));
        assert(exact(time as int) == time * time * (1_500_000_000 - 2 * time));
    }
}

/// A value on the way lies where the progress is: it is the integer closest to that point, but for
/// rounding by less than a part in `2` to the power of 30.
pub proof fn law_values_lie_where_the_progress_is(from: u64, to: u64, progress: int)
    requires
        from <= 65535,
        to <= 65535,
        0 <= progress <= double::one(),
    ensures
        ({
            let value = transition::spec_interpolate(from, to, progress);
            let off = value * double::one() - (from * double::one() + (to - from) * progress);
            &&& -(double::one() + 8 * double_laws::slack()) <= 2 * off
            &&& 2 * off <= double::one() + 8 * double_laws::slack()
        }),
        double::one() == 0x8_0000_0000 * double_laws::slack(),
{
    double_laws::lemma_fine();
    double_laws::lemma_slack();
    lemma_value(from, to, progress);
}

/// The time of a transition is counted from its beginning, and before it there is none.
pub proof fn law_time_is_counted_from_the_beginning(started: u64, now: u64)
    ensures
        now >= started ==> started + transition::elapsed(started, now) == now,
        now <= started ==> transition::elapsed(started, now) == 0,
{
}

/// A transition is not over before it is at its target.
pub proof fn law_transitions_end_at_the_target(from: u64, to: u64, time: u64)
    requires
        from <= 65535,
        to <= 65535,
        transition::is_over(time),
    ensures
        transition::spec_interpolate(from, to, transition::progress(time)) == to,
        time >= 500_000_000 - 244_140,
{
    if time < 500_000_000 - 244_140 {
        double_laws::lemma_fine();
        lemma_progress_error(time);
        lemma_cube();
        let (o, f, l, c) = (double::one(), double_laws::fine(), duration(), cube());
        let (k, j) = (time as int, l - time);
        let (near, far) = (k * k * (3 * l - 2 * k), j * j * (l + 2 * k));
        lemma_exact_parts(k, j, l, near, far, c);
        let l2 = l * l;
        assert(0x40_0000 * (j * j) >= l2) by (nonlinear_arith)
            requires
                2048 * j >= l,
                l2 == l * l,
                l == 500_000_000,
        ;
        assert(0x40_0000 * far >= c) by (nonlinear_arith)
            requires
                0x40_0000 * (j * j) >= l2,
                far == j * j * (l + 2 * k),
                c == l2 * l,
                k >= 0,
                l > 0,
        ;
        let x = transition::progress(time);
        assert(x * c <= near * o + 42 * (f * c));
        assert(near * o == c * o - far * o) by (nonlinear_arith)
            requires
                near + far == c,
        ;
        assert(0x40_0000 * (far * o) >= c * o) by (nonlinear_arith)
            requires
                0x40_0000 * far >= c,
                o > 0,
        ;
        assert(c * o == 0x4_0000_0000_0000 * (f * c)) by (nonlinear_arith)
            requires
                o == 0x4_0000_0000_0000 * f,
        ;
        assert(f * c > 0) by (nonlinear_arith)
            requires
                f > 0,
                c > 0,
        ;
        assert(x * c < o * c) by (nonlinear_arith)
            requires
                x * c < c * o,
        ;
        assert(x < o) by (nonlinear_arith)
            requires
                x * c < o * c,
                c > 0,
        ;
    } else if time <= 500_000_000 {
        lemma_regions(from, to, time);
    } else {
        lemma_ends(from, to, time);
    }
}

} // verus!
