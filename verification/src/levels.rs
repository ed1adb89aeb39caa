//! What the effects make of the level of a sample, in exact terms.
use vstd::arithmetic::power2::{lemma2_to64, lemma_pow2_adds, lemma_pow2_pos, pow2};
use vstd::prelude::*;

use crate::arith::{sample, sample_gives, sample_lit, Arith, SampleFormula};
use crate::effects::{
    is_amplified, is_bass_boosted, is_distorted, is_low_part, is_reverberated, SAMPLE_FIVE,
    SAMPLE_HALF, SAMPLE_NINETEEN_TWENTIETHS, SAMPLE_SEVEN_TENTHS, SAMPLE_TWENTIETH,
    SAMPLE_TWO_FIFTHS,
};
use crate::exact::distance;
use crate::num::{
    Sample, SAMPLE_BINADE, SAMPLE_INFINITY, SAMPLE_MINUS_ONE, SAMPLE_ONE, SAMPLE_ZERO,
};

verus! {

/// What the sample with the given bits is worth in multiples of the least positive sample.
pub open spec fn sample_worth(c: int) -> int {
    if c < SAMPLE_BINADE {
        c
    } else {
        (SAMPLE_BINADE + c % (SAMPLE_BINADE as int)) * pow2(
            (c / (SAMPLE_BINADE as int) - 1) as nat,
        )
    }
}

/// What a finite sample is worth in multiples of the least positive sample.
pub open spec fn level(s: Sample) -> int {
    if s.order() < 0 {
        -sample_worth(-s.order())
    } else {
        sample_worth(s.order())
    }
}

/// What 1 is worth in multiples of the least positive sample.
pub open spec fn full_level() -> int {
    sample_worth(SAMPLE_ONE as int)
}

/// What the greatest finite sample is worth in multiples of the least positive sample.
pub open spec fn most_level() -> int {
    sample_worth(SAMPLE_INFINITY - 1)
}

/// Whether a sample is finite.
pub open spec fn is_finite_sample(s: Sample) -> bool {
    s.magnitude() < SAMPLE_INFINITY
}

/// Whether `r` is finite, and no finite sample times `scale` is nearer to `exact` than `r` is.
pub open spec fn is_nearest_level(exact: int, scale: int, r: Sample) -> bool {
    &&& is_finite_sample(r)
    &&& forall|q: Sample|
        is_finite_sample(q) ==> distance(level(r) * scale, exact) <= distance(
            #[trigger] level(q) * scale,
            exact,
        )
}

/// Whether the arithmetic rounds sums, differences and products of samples to the nearest sample.
pub open spec fn levels_are_rounded<A: Arith>(m: &A) -> bool {
    &&& forall|a: Sample, b: Sample, r: Sample|
        {
            &&& is_finite_sample(a)
            &&& is_finite_sample(b)
            &&& distance(level(a) + level(b), 0) <= most_level()
            &&& #[trigger] call_ensures(A::sample_plus, (m, a, b), r)
        } ==> is_nearest_level(level(a) + level(b), 1, r)
    &&& forall|a: Sample, b: Sample, r: Sample|
        {
            &&& is_finite_sample(a)
            &&& is_finite_sample(b)
            &&& distance(level(a) - level(b), 0) <= most_level()
            &&& #[trigger] call_ensures(A::sample_minus, (m, a, b), r)
        } ==> is_nearest_level(level(a) - level(b), 1, r)
    &&& forall|a: Sample, b: Sample, r: Sample|
        {
            &&& is_finite_sample(a)
            &&& is_finite_sample(b)
            &&& distance(level(a) * level(b), 0) <= most_level() * full_level()
            &&& #[trigger] call_ensures(A::sample_times, (m, a, b), r)
        } ==> is_nearest_level(level(a) * level(b), full_level(), r)
}

/// Whether a sample is finite and its level is at most so many times the full level, up or down.
pub open spec fn is_within(s: Sample, times: int) -> bool {
    &&& is_finite_sample(s)
    &&& -(times * full_level()) <= level(s) <= times * full_level()
}

/// There is room above the full level.
proof fn lemma_room()
    ensures
        full_level() > 0,
        1_000_000 * full_level() <= most_level(),
{
    let f = SAMPLE_BINADE as int;
    let (one, top) = (SAMPLE_ONE as int, SAMPLE_INFINITY - 1);
    let p = pow2(126) as int;
    lemma_pow2_pos(126);
    lemma2_to64();
    lemma_pow2_adds(63, 64);
    lemma_pow2_adds(126, 127);
    assert(one / f == 127 && one % f == 0);
    assert(top / f == 254 && top % f == f - 1);
    let w = pow2(127) as int;
    assert(pow2(127) == pow2(63) * pow2(64));
    assert(w >= 1_000_000) by {
        let (x, y) = (pow2(63) as int, pow2(64) as int);
        lemma_pow2_pos(63);
        assert(x * y >= y) by (nonlinear_arith)
            requires
                x >= 1,
                y >= 0,
        ;
    }
    assert(full_level() == f * p);
    assert(most_level() == (f + (f - 1)) * (p * w));
    assert(f * p > 0) by (nonlinear_arith)
        requires
            f > 0,
            p > 0,
    ;
    assert(1_000_000 * (f * p) <= (f + (f - 1)) * (p * w)) by (nonlinear_arith)
        requires
            f >= 1,
            p > 0,
            w >= 1_000_000,
    ;
}

/// What is nearest is no further from zero than twice what it is nearest to.
proof fn lemma_twice_at_most(exact: int, scale: int, r: Sample, times: int)
    requires
        is_nearest_level(exact, scale, r),
        scale > 0,
        -(times * full_level()) * scale <= exact <= (times * full_level()) * scale,
    ensures
        is_within(r, 2 * times),
{
    let zero = Sample { bits: SAMPLE_ZERO };
    assert(level(zero) == 0);
    assert(0 * scale == 0);
    assert(distance(level(r) * scale, exact) <= distance(level(zero) * scale, exact));
    let (u, t) = (level(r), times * full_level());
    assert(2 * t == (2 * times) * full_level()) by (nonlinear_arith)
        requires
            t == times * full_level(),
    ;
    let x = u * scale;
    assert(-(2 * (t * scale)) <= x <= 2 * (t * scale)) by {
        assert((-t) * scale == -(t * scale)) by (nonlinear_arith);
    }
    assert(-(2 * t) <= u <= 2 * t) by (nonlinear_arith)
        requires
            -(2 * (t * scale)) <= u * scale <= 2 * (t * scale),
            scale > 0,
    ;
}

/// A product of samples.
proof fn lemma_product<A: Arith>(m: &A, a: Sample, b: Sample, r: Sample, j: int, k: int)
    requires
        levels_are_rounded(m),
        call_ensures(A::sample_times, (m, a, b), r),
        is_within(a, j),
        is_within(b, k),
        0 <= j <= 1000,
        0 <= k <= 1000,
    ensures
        is_nearest_level(level(a) * level(b), full_level(), r),
        is_within(r, 2 * (j * k)),
{
    let one = full_level();
    let (x, y) = (level(a), level(b));
    lemma_room();
    let (p, q) = (j * one, k * one);
    assert(-(p * q) <= x * y <= p * q) by (nonlinear_arith)
        requires
            -p <= x <= p,
            -q <= y <= q,
    ;
    let t = (j * k) * one;
    assert(p * q == t * one) by (nonlinear_arith)
        requires
            p == j * one,
            q == k * one,
            t == (j * k) * one,
    ;
    assert(0 <= j * k <= 1_000_000) by (nonlinear_arith)
        requires
            0 <= j <= 1000,
            0 <= k <= 1000,
    ;
    assert(t * one <= most_level() * one && (-t) * one == -(t * one)) by (nonlinear_arith)
        requires
            t == (j * k) * one,
            j * k <= 1_000_000,
            1_000_000 * one <= most_level(),
            one > 0,
    ;
    assert(is_nearest_level(x * y, one, r));
    lemma_twice_at_most(x * y, one, r, j * k);
}

/// A sum of samples.
proof fn lemma_sum<A: Arith>(m: &A, a: Sample, b: Sample, r: Sample, j: int, k: int)
    requires
        levels_are_rounded(m),
        call_ensures(A::sample_plus, (m, a, b), r),
        is_within(a, j),
        is_within(b, k),
        0 <= j <= 100_000,
        0 <= k <= 100_000,
    ensures
        is_nearest_level(level(a) + level(b), 1, r),
        is_within(r, 2 * (j + k)),
{
    let one = full_level();
    lemma_room();
    assert(j * one + k * one == (j + k) * one) by (nonlinear_arith);
    assert((j + k) * one <= 1_000_000 * one) by (nonlinear_arith)
        requires
            j + k <= 1_000_000,
            one > 0,
    ;
    lemma_twice_at_most(level(a) + level(b), 1, r, j + k);
}

/// Whether `limited` is a sample moved into -1 to 1.
pub open spec fn is_moved_into_range(s: Sample, limited: Sample) -> bool {
    if s.order() < -(SAMPLE_ONE as int) {
        limited.bits == SAMPLE_MINUS_ONE
    } else if s.order() > SAMPLE_ONE {
        limited.bits == SAMPLE_ONE
    } else {
        limited == s
    }
}

/// What is moved into range.
proof fn lemma_moved<A: Arith>(m: &A, f: SampleFormula, r: Sample) -> (s: Sample)
    requires
        sample_gives(
            m,
            f.clamped(Sample { bits: SAMPLE_MINUS_ONE }, Sample { bits: SAMPLE_ONE }),
            r,
        ),
    ensures
        sample_gives(m, f, s),
        s.is_number() ==> is_moved_into_range(s, r),
{
    let (low, high) = (Sample { bits: SAMPLE_MINUS_ONE }, Sample { bits: SAMPLE_ONE });
    choose|s: Sample| sample_gives(m, f, s) && r == #[trigger] s.clamp(low, high)
}

/// A change of volume multiplies the level of each sample of the range by the volume and moves the
/// product into -1 to 1.
pub proof fn a_volume_multiplies_the_level<A: Arith>(
    m: &A,
    before: Seq<Sample>,
    start: int,
    end: int,
    volume: Sample,
    after: Seq<Sample>,
    i: int,
)
    requires
        levels_are_rounded(m),
        is_amplified(m, before, start, end, volume, after),
        start <= i < end,
        is_within(before[i], 100),
        is_within(volume, 100),
    ensures
        exists|product: Sample| #[trigger]
            is_nearest_level(level(before[i]) * level(volume), full_level(), product)
                && is_moved_into_range(product, after[i]),
{
    let f = sample(before[i]) * sample(volume);
    assert(after[i] == after[i]);
    let p = lemma_moved(m, f, after[i]);
    let (a, b) = choose|a: Sample, b: Sample|
        sample_gives(m, sample(before[i]), a) && sample_gives(m, sample(volume), b)
            && #[trigger] call_ensures(A::sample_times, (m, a, b), p);
    assert(a == before[i] && b == volume);
    lemma_product(m, a, b, p, 100, 100);
}

/// What some constants are worth.
proof fn lemma_levels()
    ensures
        level(Sample { bits: SAMPLE_FIVE }) == 5 * full_level(),
        2 * level(Sample { bits: SAMPLE_HALF }) == full_level(),
        is_within(Sample { bits: SAMPLE_FIVE }, 5),
        is_within(Sample { bits: SAMPLE_HALF }, 1),
{
    let f = SAMPLE_BINADE as int;
    let (one, five, half) = (SAMPLE_ONE as int, SAMPLE_FIVE as int, SAMPLE_HALF as int);
    lemma_room();
    lemma_pow2_adds(125, 1);
    lemma_pow2_adds(126, 2);
    lemma2_to64();
    let (p, q, r) = (pow2(125) as int, pow2(126) as int, pow2(128) as int);
    assert(q == 2 * p && r == 4 * q);
    assert(one / f == 127 && one % f == 0);
    assert(five / f == 129 && 4 * (five % f) == f);
    assert(half / f == 126 && half % f == 0);
    assert(level(Sample { bits: SAMPLE_FIVE }) == (f + five % f) * r);
    assert(level(Sample { bits: SAMPLE_HALF }) == f * p);
    assert(full_level() == f * q);
    assert((f + five % f) * r == 5 * (f * q)) by (nonlinear_arith)
        requires
            4 * (five % f) == f,
            r == 4 * q,
    ;
    assert(2 * (f * p) == f * q) by (nonlinear_arith)
        requires
            q == 2 * p,
    ;
}

/// What lies between 0 and 1 is within 1.
proof fn lemma_fractions()
    ensures
        is_within(Sample { bits: SAMPLE_SEVEN_TENTHS }, 1),
        is_within(Sample { bits: SAMPLE_TWO_FIFTHS }, 1),
        is_within(Sample { bits: SAMPLE_TWENTIETH }, 1),
        is_within(Sample { bits: SAMPLE_NINETEEN_TWENTIETHS }, 1),
{
    lemma_fraction(SAMPLE_SEVEN_TENTHS as int);
    lemma_fraction(SAMPLE_TWO_FIFTHS as int);
    lemma_fraction(SAMPLE_TWENTIETH as int);
    lemma_fraction(SAMPLE_NINETEEN_TWENTIETHS as int);
}

/// The worth of bits below those of 1.
proof fn lemma_fraction(c: int)
    requires
        SAMPLE_BINADE <= c < SAMPLE_ONE,
    ensures
        0 <= sample_worth(c) <= full_level(),
{
    let f = SAMPLE_BINADE as int;
    let e = c / f;
    let one = SAMPLE_ONE as int;
    assert(one / f == 127 && one % f == 0);
    assert(1 <= e <= 126);
    lemma_pow2_pos((e - 1) as nat);
    lemma_pow2_pos((126 - e) as nat);
    lemma_pow2_adds(e as nat, (126 - e) as nat);
    lemma_pow2_adds((e - 1) as nat, 1);
    lemma2_to64();
    let (p, q, r) = (
        pow2((e - 1) as nat) as int,
        pow2((126 - e) as nat) as int,
        pow2(126) as int,
    );
    assert(r == (2 * p) * q);
    let k = c % f;
    assert(0 <= (f + k) * p <= f * r) by (nonlinear_arith)
        requires
            r == (2 * p) * q,
            p >= 1,
            q >= 1,
            0 <= k < f,
    ;
}

/// Distortion takes the hyperbolic tangent of five times the level, and 0.7 of that.
pub proof fn distortion_bends_five_times_the_level<A: Arith>(
    m: &A,
    before: Seq<Sample>,
    start: int,
    end: int,
    after: Seq<Sample>,
    i: int,
)
    requires
        levels_are_rounded(m),
        is_distorted(m, before, start, end, after),
        start <= i < end,
        is_within(before[i], 100),
    ensures
        exists|driven: Sample, bent: Sample|
            {
                &&& #[trigger] is_nearest_level(
                    level(before[i]) * (5 * full_level()),
                    full_level(),
                    driven,
                )
                &&& #[trigger] call_ensures(A::sample_tanh, (m, driven), bent)
                &&& is_within(bent, 1) ==> is_nearest_level(
                    level(bent) * level(Sample { bits: SAMPLE_SEVEN_TENTHS }),
                    full_level(),
                    after[i],
                )
            },
{
    let f = sample(before[i]) * sample_lit(SAMPLE_FIVE);
    assert(after[i] == after[i]);
    assert(sample_gives(m, f.tanh() * sample_lit(SAMPLE_SEVEN_TENTHS), after[i]));
    let (bent, share) = choose|a: Sample, b: Sample|
        sample_gives(m, f.tanh(), a) && sample_gives(m, sample_lit(SAMPLE_SEVEN_TENTHS), b)
            && #[trigger] call_ensures(A::sample_times, (m, a, b), after[i]);
    let driven = choose|a: Sample|
        sample_gives(m, f, a) && #[trigger] call_ensures(A::sample_tanh, (m, a), bent);
    let (a, b) = choose|a: Sample, b: Sample|
        sample_gives(m, sample(before[i]), a) && sample_gives(m, sample_lit(SAMPLE_FIVE), b)
            && #[trigger] call_ensures(A::sample_times, (m, a, b), driven);
    assert(a == before[i] && b.bits == SAMPLE_FIVE && share.bits == SAMPLE_SEVEN_TENTHS);
    lemma_levels();
    lemma_fractions();
    lemma_product(m, a, b, driven, 100, 5);
    if is_within(bent, 1) {
        lemma_product(m, bent, share, after[i], 1, 1);
    }
}

/// Whether a sample is a weighted sum of two others, each step rounded to the nearest sample.
pub open spec fn is_weighted_sum(
    a: Sample,
    weight: int,
    b: Sample,
    other_weight: int,
    sum: Sample,
) -> bool {
    exists|p: Sample, q: Sample|
        {
            &&& #[trigger] is_nearest_level(level(a) * weight, full_level(), p)
            &&& #[trigger] is_nearest_level(level(b) * other_weight, full_level(), q)
            &&& is_nearest_level(level(p) + level(q), 1, sum)
        }
}

/// A weighted sum.
proof fn lemma_weighted_sum<A: Arith>(
    m: &A,
    a: Sample,
    v: Sample,
    b: Sample,
    w: Sample,
    sum: Sample,
)
    requires
        levels_are_rounded(m),
        sample_gives(m, sample(a) * sample(v) + sample(b) * sample(w), sum),
        is_within(a, 100),
        is_within(b, 100),
        is_within(v, 1),
        is_within(w, 1),
    ensures
        is_weighted_sum(a, level(v), b, level(w), sum),
        is_within(sum, 1000),
{
    let (p, q) = choose|p: Sample, q: Sample|
        sample_gives(m, sample(a) * sample(v), p) && sample_gives(m, sample(b) * sample(w), q)
            && #[trigger] call_ensures(A::sample_plus, (m, p, q), sum);
    let (a1, v1) = choose|x: Sample, y: Sample|
        sample_gives(m, sample(a), x) && sample_gives(m, sample(v), y)
            && #[trigger] call_ensures(A::sample_times, (m, x, y), p);
    let (b1, w1) = choose|x: Sample, y: Sample|
        sample_gives(m, sample(b), x) && sample_gives(m, sample(w), y)
            && #[trigger] call_ensures(A::sample_times, (m, x, y), q);
    assert(a1 == a && v1 == v && b1 == b && w1 == w);
    lemma_product(m, a, v, p, 100, 1);
    lemma_product(m, b, w, q, 100, 1);
    lemma_sum(m, p, q, sum, 200, 200);
    lemma_room();
}

/// Reverb adds half of the echo to 0.7 of each sample and moves the sum into -1 to 1. There is no
/// echo of the first 8000 samples. Later the echo is what was fed 8000 samples before: the sample
/// there plus 0.4 of its own echo.
pub proof fn reverb_adds_the_echo_of_8000_samples_before<A: Arith>(
    m: &A,
    before: Seq<Sample>,
    start: int,
    end: int,
    echo: Seq<Sample>,
    feed: Seq<Sample>,
    after: Seq<Sample>,
    k: int,
)
    requires
        levels_are_rounded(m),
        is_reverberated(m, before, start, end, echo, feed, after),
        0 <= k < end - start,
        is_within(before[start + k], 1),
        k >= 8000 ==> is_within(before[start + (k - 8000)], 1) && is_within(echo[k - 8000], 10)
            && is_within(feed[k - 8000], 50),
    ensures
        k < 8000 ==> echo[k].bits == SAMPLE_ZERO,
        k >= 8000 ==> exists|fed_back: Sample|
            {
                &&& #[trigger] is_nearest_level(
                    level(echo[k - 8000]) * level(Sample { bits: SAMPLE_TWO_FIFTHS }),
                    full_level(),
                    fed_back,
                )
                &&& is_nearest_level(
                    level(before[start + (k - 8000)]) + level(fed_back),
                    1,
                    echo[k],
                )
            },
        exists|sum: Sample| #[trigger]
            is_weighted_sum(
                before[start + k],
                level(Sample { bits: SAMPLE_SEVEN_TENTHS }),
                echo[k],
                level(Sample { bits: SAMPLE_HALF }),
                sum,
            ) && is_moved_into_range(sum, after[start + k]),
{
    lemma_levels();
    lemma_fractions();
    lemma_room();
    let i = start + k;
    let (seven, half) = (
        Sample { bits: SAMPLE_SEVEN_TENTHS },
        Sample { bits: SAMPLE_HALF },
    );
    assert(echo[k] == echo[k] && after[i] == after[i]);
    if k >= 8000 {
        let j = k - 8000;
        let s = before[start + j];
        assert(feed[j] == feed[j]);
        let two = sample_lit(SAMPLE_TWO_FIFTHS);
        assert(sample_gives(m, sample(s) + sample(echo[j]) * two, feed[j]));
        let (a, p) = choose|a: Sample, p: Sample|
            sample_gives(m, sample(s), a) && sample_gives(m, sample(echo[j]) * two, p)
                && #[trigger] call_ensures(A::sample_plus, (m, a, p), feed[j]);
        let (e, t) = choose|e: Sample, t: Sample|
            sample_gives(m, sample(echo[j]), e) && sample_gives(m, two, t)
                && #[trigger] call_ensures(A::sample_times, (m, e, t), p);
        assert(a == s && e == echo[j] && t.bits == SAMPLE_TWO_FIFTHS);
        lemma_product(m, e, t, p, 10, 1);
        lemma_sum(m, a, p, feed[j], 1, 20);
        assert(echo[k] == feed[j]);
    } else {
        assert(level(echo[k]) == 0);
        assert(50 * full_level() >= 0);
    }
    let f = sample(before[i]) * sample(seven) + sample(echo[k]) * sample(half);
    let sum = lemma_moved(m, f, after[i]);
    assert(is_within(echo[k], 100) && is_within(before[i], 100));
    lemma_weighted_sum(m, before[i], seven, echo[k], half, sum);
}

/// The low part of a sample is a twentieth of it plus 19 twentieths of the low part before it,
/// nothing at the range's start. A change of the bass multiplies the low part by the gain, adds
/// what else there is of the sample, and moves the sum into -1 to 1.
pub proof fn bass_multiplies_the_low_part<A: Arith>(
    m: &A,
    before: Seq<Sample>,
    start: int,
    end: int,
    gain: Sample,
    lows: Seq<Sample>,
    after: Seq<Sample>,
    k: int,
)
    requires
        levels_are_rounded(m),
        is_bass_boosted(m, before, start, end, gain, lows, after),
        0 <= k < end - start,
        is_within(before[start + k], 1),
        is_within(lows[k], 2),
        k > 0 ==> is_within(lows[k - 1], 2),
        is_within(gain, 100),
    ensures
        is_weighted_sum(
            before[start + k],
            level(Sample { bits: SAMPLE_TWENTIETH }),
            if k == 0 {
                Sample { bits: SAMPLE_ZERO }
            } else {
                lows[k - 1]
            },
            level(Sample { bits: SAMPLE_NINETEEN_TWENTIETHS }),
            lows[k],
        ),
        exists|low: Sample, high: Sample, sum: Sample|
            {
                &&& #[trigger] is_nearest_level(level(lows[k]) * level(gain), full_level(), low)
                &&& #[trigger] is_nearest_level(level(before[start + k]) - level(lows[k]), 1, high)
                &&& #[trigger] is_nearest_level(level(low) + level(high), 1, sum)
                &&& is_moved_into_range(sum, after[start + k])
            },
{
    lemma_fractions();
    lemma_room();
    let i = start + k;
    let zero = Sample { bits: SAMPLE_ZERO };
    assert(level(zero) == 0);
    let previous = if k == 0 {
        zero
    } else {
        lows[k - 1]
    };
    let (v, w) = (
        Sample { bits: SAMPLE_TWENTIETH },
        Sample { bits: SAMPLE_NINETEEN_TWENTIETHS },
    );
    assert(is_low_part(m, before, start, lows, k));
    let f = sample(v) * sample(before[i]) + sample(w) * sample(previous);
    assert(sample_gives(m, f, lows[k]));
    let (p, q) = choose|p: Sample, q: Sample|
        sample_gives(m, sample(v) * sample(before[i]), p) && sample_gives(
            m,
            sample(w) * sample(previous),
            q,
        ) && #[trigger] call_ensures(A::sample_plus, (m, p, q), lows[k]);
    let (v1, s1) = choose|x: Sample, y: Sample|
        sample_gives(m, sample(v), x) && sample_gives(m, sample(before[i]), y)
            && #[trigger] call_ensures(A::sample_times, (m, x, y), p);
    let (w1, p1) = choose|x: Sample, y: Sample|
        sample_gives(m, sample(w), x) && sample_gives(m, sample(previous), y)
            && #[trigger] call_ensures(A::sample_times, (m, x, y), q);
    assert(v1 == v && s1 == before[i] && w1 == w && p1 == previous);
    lemma_product(m, v, before[i], p, 1, 1);
    lemma_product(m, w, previous, q, 1, 2);
    lemma_sum(m, p, q, lows[k], 2, 4);
    assert(level(v) * level(before[i]) == level(before[i]) * level(v)) by (nonlinear_arith);
    assert(level(w) * level(previous) == level(previous) * level(w)) by (nonlinear_arith);
    assert(is_nearest_level(level(before[i]) * level(v), full_level(), p));
    assert(is_nearest_level(level(previous) * level(w), full_level(), q));
    // The result.
    assert(after[i] == after[i]);
    let l = lows[k];
    let g = sample(l) * sample(gain) + (sample(before[i]) - sample(l));
    let sum = lemma_moved(m, g, after[i]);
    let (low, high) = choose|x: Sample, y: Sample|
        sample_gives(m, sample(l) * sample(gain), x) && sample_gives(
            m,
            sample(before[i]) - sample(l),
            y,
        ) && #[trigger] call_ensures(A::sample_plus, (m, x, y), sum);
    let (l1, g1) = choose|x: Sample, y: Sample|
        sample_gives(m, sample(l), x) && sample_gives(m, sample(gain), y)
            && #[trigger] call_ensures(A::sample_times, (m, x, y), low);
    let (s2, l2) = choose|x: Sample, y: Sample|
        sample_gives(m, sample(before[i]), x) && sample_gives(m, sample(l), y)
            && #[trigger] call_ensures(A::sample_minus, (m, x, y), high);
    assert(l1 == l && g1 == gain && s2 == before[i] && l2 == l);
    lemma_product(m, l, gain, low, 2, 100);
    let exact = level(before[i]) - level(l);
    assert(is_nearest_level(exact, 1, high));
    lemma_twice_at_most(exact, 1, high, 3);
    lemma_sum(m, low, high, sum, 400, 6);
}

} // verus!
