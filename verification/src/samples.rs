//! What the effects do to single samples of a buffer.
use vstd::prelude::*;

use crate::arith::{
    count, functional, gives, gives_count, sample, sample_gives, sample_lit, val, Arith,
};
use crate::clip::AudioClip;
use crate::effects::{
    are_frames_at_speed, frame_samples, frames_samples, is_amplified, is_bass_boosted, is_distorted,
    is_low_part, is_reverberated, is_speed_changed, spliced, SAMPLE_FIVE, SAMPLE_HALF,
    SAMPLE_NINETEEN_TWENTIETHS, SAMPLE_SEVEN_TENTHS, SAMPLE_TWENTIETH, SAMPLE_TWO_FIFTHS,
};
use crate::exact::{
    faithful, is_nearest, lemma_constants, lemma_count, lemma_most, lemma_not_above,
    lemma_not_below, lemma_units_grow, lemma_whole, most_units, one_units, units,
};
use crate::meaning::lemma_whole_part;
use crate::num::{Num, Sample, SAMPLE_MINUS_ONE, SAMPLE_ONE, SAMPLE_ZERO, ZERO};
use crate::outcomes::sample_formula_has_one_value;

verus! {

/// Where the frames of a range stand among its samples.
proof fn lemma_frames_samples(
    before: Seq<Sample>,
    start: int,
    end: int,
    channels: int,
    frames: Seq<usize>,
    i: int,
    c: int,
)
    requires
        channels > 0,
    ensures
        frames_samples(before, start, end, channels, frames).len() == frames.len() * channels,
        0 <= i < frames.len() && 0 <= c < channels ==> 0 <= i * channels + c < frames.len()
            * channels && frames_samples(before, start, end, channels, frames)[i * channels + c]
            == frame_samples(before, start, end, channels, frames[i] as int)[c],
    decreases frames.len(),
{
    if frames.len() == 0 {
        assert(0 * channels == 0);
    } else {
        let n = frames.len() - 1;
        lemma_frames_samples(before, start, end, channels, frames.drop_last(), i, c);
        assert((n + 1) * channels == n * channels + channels) by (nonlinear_arith);
        if 0 <= i < frames.len() && 0 <= c < channels {
            assert(0 <= i * channels && (i < n ==> i * channels + channels <= n * channels))
                by (nonlinear_arith)
                requires
                    0 <= i,
                    channels > 0,
            ;
        }
    }
}

/// The whole part of a rounded quotient of a whole number.
proof fn lemma_frames_left<A: Arith>(m: &A, total: u64, speed: Num, n: usize)
    requires
        faithful(m),
        gives_count(m, count(total) / val(speed), n),
        total <= 0x20_0000_0000_0000,
        speed.is_finite(),
        units(speed) > 0,
        total * one_units() / units(speed) < 0x20_0000_0000_0000,
        total * one_units() / units(speed) < usize::MAX,
    ensures
        ({
            let k = total * one_units() / units(speed);
            &&& k <= n <= k + 1
            &&& total * one_units() == k * units(speed) ==> n == k
        }),
{
    let one = one_units();
    let s = units(speed);
    let q = choose|q: Num| #[trigger]
        gives(m, count(total) / val(speed), q) && call_ensures(A::to_count, (m, q), n);
    let (a, b) = choose|a: Num, b: Num|
        gives(m, count(total), a) && gives(m, val(speed), b) && #[trigger] call_ensures(
            A::over,
            (m, a, b),
            q,
        );
    assert(b == speed);
    lemma_constants();
    lemma_count(m, total, a);
    let x = total * one;
    let k = x / s;
    vstd::arithmetic::div_mod::lemma_fundamental_div_mod(x, s);
    vstd::arithmetic::div_mod::lemma_mod_bound(x, s);
    assert(x >= 0) by (nonlinear_arith)
        requires
            x == total * one,
            one > 0,
            total >= 0,
    ;
    vstd::arithmetic::div_mod::lemma_div_pos_is_pos(x, s);
    assert(k * s <= x < (k + 1) * s) by (nonlinear_arith)
        requires
            x == s * k + x % s,
            0 <= x % s < s,
    ;
    let lo = lemma_whole(k);
    let hi = lemma_whole(k + 1);
    lemma_most(hi);
    let exact = x * one;
    assert(units(lo) * s == (k * s) * one && units(hi) * s == ((k + 1) * s) * one)
        by (nonlinear_arith)
        requires
            units(lo) == k * one,
            units(hi) == (k + 1) * one,
    ;
    assert((k * s) * one <= exact <= ((k + 1) * s) * one && exact >= 0) by (nonlinear_arith)
        requires
            exact == x * one,
            0 <= x,
            k * s <= x < (k + 1) * s,
            one > 0,
    ;
    assert(units(hi) * s <= most_units() * s) by (nonlinear_arith)
        requires
            units(hi) <= most_units(),
            s > 0,
    ;
    lemma_units_grow(Num { bits: ZERO }, speed);
    lemma_units_grow(speed, Num { bits: ZERO });
    assert(is_nearest(exact, s, q));
    lemma_not_below(exact, s, q, lo);
    lemma_not_above(exact, s, q, hi);
    lemma_whole_part(units(q), k, k + 1);
    if x == k * s {
        lemma_not_above(exact, s, q, lo);
        lemma_whole_part(units(q), k, k);
    }
}

/// The whole part of a rounded multiple of a speed.
proof fn lemma_frame_played<A: Arith>(m: &A, i: u64, speed: Num, f: usize)
    requires
        faithful(m),
        gives_count(m, count(i) * val(speed), f),
        i <= 0x20_0000_0000_0000,
        speed.is_finite(),
        units(speed) > 0,
        i * units(speed) / one_units() < 0x20_0000_0000_0000,
        i * units(speed) / one_units() < usize::MAX,
    ensures
        ({
            let k = i * units(speed) / one_units();
            &&& k <= f <= k + 1
            &&& i * units(speed) == k * one_units() ==> f == k
        }),
{
    let one = one_units();
    let s = units(speed);
    let q = choose|q: Num| #[trigger]
        gives(m, count(i) * val(speed), q) && call_ensures(A::to_count, (m, q), f);
    let (a, b) = choose|a: Num, b: Num|
        gives(m, count(i), a) && gives(m, val(speed), b) && #[trigger] call_ensures(
            A::times,
            (m, a, b),
            q,
        );
    assert(b == speed);
    lemma_constants();
    lemma_count(m, i, a);
    let x = i * s;
    let k = x / one;
    vstd::arithmetic::div_mod::lemma_fundamental_div_mod(x, one);
    vstd::arithmetic::div_mod::lemma_mod_bound(x, one);
    assert(x >= 0) by (nonlinear_arith)
        requires
            x == i * s,
            s > 0,
            i >= 0,
    ;
    vstd::arithmetic::div_mod::lemma_div_pos_is_pos(x, one);
    assert(k * one <= x < (k + 1) * one) by (nonlinear_arith)
        requires
            x == one * k + x % one,
            0 <= x % one < one,
    ;
    let lo = lemma_whole(k);
    let hi = lemma_whole(k + 1);
    lemma_most(hi);
    let exact = x * one;
    assert(units(a) * s == exact) by (nonlinear_arith)
        requires
            units(a) == i * one,
            x == i * s,
            exact == x * one,
    ;
    assert(units(lo) * one <= exact <= units(hi) * one && 0 <= exact <= most_units() * one)
        by (nonlinear_arith)
        requires
            exact == x * one,
            0 <= x,
            units(lo) <= x <= units(hi) <= most_units(),
            one > 0,
    ;
    assert(is_nearest(exact, one, q));
    lemma_not_below(exact, one, q, lo);
    lemma_not_above(exact, one, q, hi);
    lemma_whole_part(units(q), k, k + 1);
    if x == k * one {
        lemma_not_above(exact, one, q, lo);
        lemma_whole_part(units(q), k, k);
    }
}

/// How many samples stand after a change where `start..end` stood.
pub open spec fn window_len(
    before: Seq<Sample>,
    start: int,
    end: int,
    after: Seq<Sample>,
) -> int {
    after.len() - before.len() + (end - start)
}

/// A change of speed keeps what lies before and after the range. In place of the range stand whole
/// frames. Every sample of them is a sample of the range or silence.
pub proof fn a_change_of_speed_plays_the_range_alone<A: Arith>(
    m: &A,
    before: &AudioClip,
    start: int,
    end: int,
    after: &AudioClip,
    at: int,
)
    requires
        is_speed_changed(m, before, start, end, after),
        0 <= start <= end <= before.buffer@.len(),
        before.channels > 0,
    ensures
        ({
            let window = window_len(before.buffer@, start, end, after.buffer@);
            &&& window >= 0
            &&& window % (before.channels as int) == 0
            &&& 0 <= at < start ==> after.buffer@[at] == before.buffer@[at]
            &&& start + window <= at < after.buffer@.len() ==> after.buffer@[at]
                == before.buffer@[at - window + (end - start)]
            &&& start <= at < start + window ==> {
                ||| after.buffer@[at] == (Sample { bits: SAMPLE_ZERO })
                ||| exists|j: int|
                    start <= j < end && after.buffer@[at] == #[trigger] before.buffer@[j]
            }
        }),
{
    let channels = before.channels as int;
    let frames = choose|frames: Seq<usize>| #[trigger]
        are_frames_at_speed(m, (end - start) / channels, before.speed, frames)
            && after.buffer@ == spliced(
            before.buffer@,
            start,
            end,
            frames_samples(before.buffer@, start, end, channels, frames),
        );
    let window = frames.len() * channels;
    lemma_frames_samples(before.buffer@, start, end, channels, frames, 0, 0);
    vstd::arithmetic::div_mod::lemma_mod_multiples_basic(frames.len() as int, channels);
    assert(window >= 0) by (nonlinear_arith)
        requires
            window == frames.len() * channels,
            channels > 0,
    ;
    if start <= at < start + window {
        let k = at - start;
        let i = k / channels;
        let c = k % channels;
        vstd::arithmetic::div_mod::lemma_fundamental_div_mod(k, channels);
        vstd::arithmetic::div_mod::lemma_mod_bound(k, channels);
        assert(k == i * channels + c && 0 <= i < frames.len()) by (nonlinear_arith)
            requires
                k == channels * i + c,
                0 <= k < frames.len() * channels,
                0 <= c < channels,
        ;
        lemma_frames_samples(before.buffer@, start, end, channels, frames, i, c);
        let f = frames[i] as int;
        assert(f * channels >= 0) by (nonlinear_arith)
            requires
                f >= 0,
                channels > 0,
        ;
        let j = start + f * channels + c;
        if j < end {
            assert(after.buffer@[at] == before.buffer@[j]);
        }
    }
}

/// Frame `i` of what a change of speed puts in place of a range is the frame of the range that lies
/// `i` times the speed behind its start, and silence where the range has no such frame. Where `i`
/// times the speed is no whole number, rounding may take the next frame.
pub proof fn a_change_of_speed_plays_frames_in_step<A: Arith>(
    m: &A,
    before: &AudioClip,
    start: int,
    end: int,
    after: &AudioClip,
    i: int,
    c: int,
)
    requires
        faithful(m),
        is_speed_changed(m, before, start, end, after),
        0 <= start <= end <= before.buffer@.len(),
        before.channels > 0,
        before.speed.is_finite(),
        units(before.speed) > 0,
        0 <= i < 0x20_0000_0000_0000,
        0 <= c < before.channels,
        (i + 1) * before.channels <= window_len(before.buffer@, start, end, after.buffer@),
        i * units(before.speed) / one_units() < 0x20_0000_0000_0000,
        i * units(before.speed) / one_units() < usize::MAX,
    ensures
        ({
            let k = i * units(before.speed) / one_units();
            let played = after.buffer@[start + i * before.channels + c];
            ||| plays(before, start, end, k, c, played)
            ||| i * units(before.speed) != k * one_units() && plays(
                before,
                start,
                end,
                k + 1,
                c,
                played,
            )
        }),
{
    let channels = before.channels as int;
    let frames = choose|frames: Seq<usize>| #[trigger]
        are_frames_at_speed(m, (end - start) / channels, before.speed, frames)
            && after.buffer@ == spliced(
            before.buffer@,
            start,
            end,
            frames_samples(before.buffer@, start, end, channels, frames),
        );
    lemma_frames_samples(before.buffer@, start, end, channels, frames, i, c);
    assert(i < frames.len()) by (nonlinear_arith)
        requires
            (i + 1) * channels <= frames.len() * channels,
            channels > 0,
    ;
    assert(0 <= i * channels) by (nonlinear_arith)
        requires
            0 <= i,
            channels > 0,
    ;
    lemma_frame_played(m, i as u64, before.speed, frames[i]);
}

/// Whether a sample is that of channel `c` of frame `f` of a range, silence behind the range.
pub open spec fn plays(
    before: &AudioClip,
    start: int,
    end: int,
    f: int,
    c: int,
    played: Sample,
) -> bool {
    let j = start + f * before.channels + c;
    if j < end {
        played == before.buffer@[j]
    } else {
        played == (Sample { bits: SAMPLE_ZERO })
    }
}

/// A change of speed leaves as many frames as the range has, divided by the speed: exactly where
/// that is a whole number, else one more at most through rounding.
pub proof fn a_change_of_speed_divides_the_length<A: Arith>(
    m: &A,
    before: &AudioClip,
    start: int,
    end: int,
    after: &AudioClip,
)
    requires
        faithful(m),
        is_speed_changed(m, before, start, end, after),
        0 <= start <= end <= before.buffer@.len(),
        before.channels > 0,
        before.speed.is_finite(),
        units(before.speed) > 0,
        end - start <= 0x20_0000_0000_0000,
        (end - start) / (before.channels as int) * one_units() / units(before.speed)
            < 0x20_0000_0000_0000,
        (end - start) / (before.channels as int) * one_units() / units(before.speed) < usize::MAX,
    ensures
        ({
            let total = (end - start) / (before.channels as int);
            let n = total * one_units() / units(before.speed);
            let window = window_len(before.buffer@, start, end, after.buffer@);
            ||| window == n * before.channels
            ||| total * one_units() != n * units(before.speed) && window == (n + 1)
                * before.channels
        }),
{
    let channels = before.channels as int;
    let total = (end - start) / channels;
    let frames = choose|frames: Seq<usize>| #[trigger]
        are_frames_at_speed(m, total, before.speed, frames) && after.buffer@ == spliced(
            before.buffer@,
            start,
            end,
            frames_samples(before.buffer@, start, end, channels, frames),
        );
    lemma_frames_samples(before.buffer@, start, end, channels, frames, 0, 0);
    vstd::arithmetic::div_mod::lemma_div_pos_is_pos(end - start, channels);
    vstd::arithmetic::div_mod::lemma_div_is_ordered_by_denominator(end - start, 1, channels);
    assert((end - start) / 1 == end - start);
    lemma_frames_left(m, total as u64, before.speed, frames.len() as usize);
}

/// Whether `after` has as many samples as `before`, and the same ones outside `start..end`.
pub open spec fn is_untouched_outside(
    before: Seq<Sample>,
    start: int,
    end: int,
    after: Seq<Sample>,
) -> bool {
    &&& after.len() == before.len()
    &&& forall|i: int| 0 <= i < start ==> #[trigger] after[i] == before[i]
    &&& forall|i: int| end <= i < before.len() ==> #[trigger] after[i] == before[i]
}

/// Distortion works on each sample by itself: what becomes of a sample of the range depends neither
/// on where it stands nor on any other sample. What is outside the range stays.
pub proof fn distortion_works_on_each_sample_by_itself<A: Arith>(
    m: &A,
    before: Seq<Sample>,
    start: int,
    end: int,
    after: Seq<Sample>,
    i: int,
    other_before: Seq<Sample>,
    other_start: int,
    other_end: int,
    other_after: Seq<Sample>,
    j: int,
)
    requires
        functional(m),
        is_distorted(m, before, start, end, after),
        is_distorted(m, other_before, other_start, other_end, other_after),
        0 <= start <= i < end <= before.len(),
        0 <= other_start <= j < other_end <= other_before.len(),
        before[i] == other_before[j],
    ensures
        after[i] == other_after[j],
        is_untouched_outside(before, start, end, after),
{
    let f = (sample(before[i]) * sample_lit(SAMPLE_FIVE)).tanh() * sample_lit(
        SAMPLE_SEVEN_TENTHS,
    );
    assert(sample_gives(m, f, after[i]));
    assert(sample_gives(m, f, other_after[j]));
    sample_formula_has_one_value(m, f, after[i], other_after[j]);
}

/// A change of volume works on each sample by itself, as distortion does.
pub proof fn volume_works_on_each_sample_by_itself<A: Arith>(
    m: &A,
    volume: Sample,
    before: Seq<Sample>,
    start: int,
    end: int,
    after: Seq<Sample>,
    i: int,
    other_before: Seq<Sample>,
    other_start: int,
    other_end: int,
    other_after: Seq<Sample>,
    j: int,
)
    requires
        functional(m),
        is_amplified(m, before, start, end, volume, after),
        is_amplified(m, other_before, other_start, other_end, volume, other_after),
        0 <= start <= i < end <= before.len(),
        0 <= other_start <= j < other_end <= other_before.len(),
        before[i] == other_before[j],
    ensures
        after[i] == other_after[j],
        is_untouched_outside(before, start, end, after),
{
    let f = (sample(before[i]) * sample(volume)).clamped(
        Sample { bits: SAMPLE_MINUS_ONE },
        Sample { bits: SAMPLE_ONE },
    );
    assert(sample_gives(m, f, after[i]));
    assert(sample_gives(m, f, other_after[j]));
    sample_formula_has_one_value(m, f, after[i], other_after[j]);
}

/// What is fed back `k` samples into two ranges is equal where the samples that lead there are.
proof fn lemma_same_feed<A: Arith>(
    m: &A,
    before: Seq<Sample>,
    start: int,
    end: int,
    echo: Seq<Sample>,
    feed: Seq<Sample>,
    after: Seq<Sample>,
    other_before: Seq<Sample>,
    other_start: int,
    other_end: int,
    other_echo: Seq<Sample>,
    other_feed: Seq<Sample>,
    other_after: Seq<Sample>,
    k: int,
)
    requires
        functional(m),
        is_reverberated(m, before, start, end, echo, feed, after),
        is_reverberated(
            m,
            other_before,
            other_start,
            other_end,
            other_echo,
            other_feed,
            other_after,
        ),
        0 <= k < end - start,
        k < other_end - other_start,
        forall|n: int|
            #![trigger is_step_back(k, n)]
            is_step_back(k, n) ==> before[start + (k - 8000 * n)] == other_before[other_start + (k
                - 8000 * n)],
    ensures
        echo[k] == other_echo[k],
        feed[k] == other_feed[k],
    decreases k,
{
    assert(is_step_back(k, 0));
    if k >= 8000 {
        assert forall|n: int|
            #![trigger is_step_back(k - 8000, n)]
            is_step_back(k - 8000, n) implies before[start + (k - 8000 - 8000 * n)]
            == other_before[other_start + (k - 8000 - 8000 * n)] by {
            assert(is_step_back(k, n + 1));
        }
        lemma_same_feed(
            m,
            before,
            start,
            end,
            echo,
            feed,
            after,
            other_before,
            other_start,
            other_end,
            other_echo,
            other_feed,
            other_after,
            k - 8000,
        );
    }
    let f = sample(before[start + k]) + sample(echo[k]) * sample_lit(SAMPLE_TWO_FIFTHS);
    assert(echo[k] == other_echo[k]);
    assert(sample_gives(m, f, feed[k]));
    assert(sample_gives(m, f, other_feed[k]));
    sample_formula_has_one_value(m, f, feed[k], other_feed[k]);
}

/// Whether `n` echoes before the sample `k` of a range there still is a sample of the range.
pub open spec fn is_step_back(k: int, n: int) -> bool {
    0 <= n && 8000 * n <= k
}

/// Reverb starts anew at the range's start, and what becomes of sample `k` of a range depends on
/// that sample and on those 8000, 16000 and so on before it in the range, and on nothing else.
/// So the first 8000 samples have no echo, and where the range lies in the buffer does not matter.
/// What is outside the range stays.
pub proof fn reverb_repeats_the_range_every_8000_samples<A: Arith>(
    m: &A,
    before: Seq<Sample>,
    start: int,
    end: int,
    echo: Seq<Sample>,
    feed: Seq<Sample>,
    after: Seq<Sample>,
    other_before: Seq<Sample>,
    other_start: int,
    other_end: int,
    other_echo: Seq<Sample>,
    other_feed: Seq<Sample>,
    other_after: Seq<Sample>,
    k: int,
)
    requires
        functional(m),
        is_reverberated(m, before, start, end, echo, feed, after),
        is_reverberated(
            m,
            other_before,
            other_start,
            other_end,
            other_echo,
            other_feed,
            other_after,
        ),
        0 <= start <= end <= before.len(),
        0 <= other_start <= other_end <= other_before.len(),
        0 <= k < end - start,
        k < other_end - other_start,
        forall|n: int|
            #![trigger is_step_back(k, n)]
            is_step_back(k, n) ==> before[start + (k - 8000 * n)] == other_before[other_start + (k
                - 8000 * n)],
    ensures
        after[start + k] == other_after[other_start + k],
        is_untouched_outside(before, start, end, after),
{
    lemma_same_feed(
        m,
        before,
        start,
        end,
        echo,
        feed,
        after,
        other_before,
        other_start,
        other_end,
        other_echo,
        other_feed,
        other_after,
        k,
    );
    assert(is_step_back(k, 0));
    let f = (sample(before[start + k]) * sample_lit(SAMPLE_SEVEN_TENTHS) + sample(echo[k])
        * sample_lit(SAMPLE_HALF)).clamped(
        Sample { bits: SAMPLE_MINUS_ONE },
        Sample { bits: SAMPLE_ONE },
    );
    let (i, j) = (start + k, other_start + k);
    assert(sample_gives(m, f, after[i]));
    assert(sample_gives(m, f, other_after[j]));
    sample_formula_has_one_value(m, f, after[i], other_after[j]);
}

/// The low parts of two ranges are equal where their samples up to there are.
proof fn lemma_same_low_part<A: Arith>(
    m: &A,
    before: Seq<Sample>,
    start: int,
    lows: Seq<Sample>,
    other_before: Seq<Sample>,
    other_start: int,
    other_lows: Seq<Sample>,
    k: int,
)
    requires
        functional(m),
        0 <= k < lows.len(),
        k < other_lows.len(),
        forall|i: int|
            0 <= i < lows.len() ==> #[trigger] is_low_part(m, before, start, lows, i),
        forall|i: int|
            0 <= i < other_lows.len() ==> #[trigger] is_low_part(
                m,
                other_before,
                other_start,
                other_lows,
                i,
            ),
        before.subrange(start, start + k + 1) == other_before.subrange(
            other_start,
            other_start + k + 1,
        ),
        0 <= start,
        start + k < before.len(),
        0 <= other_start,
        other_start + k < other_before.len(),
    ensures
        lows[k] == other_lows[k],
    decreases k,
{
    let (a, b) = (
        before.subrange(start, start + k + 1),
        other_before.subrange(other_start, other_start + k + 1),
    );
    assert(a[k] == before[start + k] && b[k] == other_before[other_start + k]);
    if k > 0 {
        assert(a.subrange(0, k) =~= before.subrange(start, start + k));
        assert(b.subrange(0, k) =~= other_before.subrange(other_start, other_start + k));
        lemma_same_low_part(
            m,
            before,
            start,
            lows,
            other_before,
            other_start,
            other_lows,
            k - 1,
        );
    }
    let previous = if k == 0 {
        Sample { bits: SAMPLE_ZERO }
    } else {
        lows[k - 1]
    };
    let f = sample_lit(SAMPLE_TWENTIETH) * sample(before[start + k]) + sample_lit(
        SAMPLE_NINETEEN_TWENTIETHS,
    ) * sample(previous);
    assert(is_low_part(m, before, start, lows, k));
    assert(is_low_part(m, other_before, other_start, other_lows, k));
    sample_formula_has_one_value(m, f, lows[k], other_lows[k]);
}

/// A change of the bass starts anew at the range's start, and what becomes of sample `k` of a range
/// depends on the samples of the range up to it and on nothing else: where the range lies in the
/// buffer does not matter. What is outside the range stays.
pub proof fn bass_depends_on_the_range_up_to_a_sample<A: Arith>(
    m: &A,
    gain: Sample,
    before: Seq<Sample>,
    start: int,
    end: int,
    lows: Seq<Sample>,
    after: Seq<Sample>,
    other_before: Seq<Sample>,
    other_start: int,
    other_end: int,
    other_lows: Seq<Sample>,
    other_after: Seq<Sample>,
    k: int,
)
    requires
        functional(m),
        is_bass_boosted(m, before, start, end, gain, lows, after),
        is_bass_boosted(m, other_before, other_start, other_end, gain, other_lows, other_after),
        0 <= start <= end <= before.len(),
        0 <= other_start <= other_end <= other_before.len(),
        0 <= k < end - start,
        k < other_end - other_start,
        before.subrange(start, start + k + 1) == other_before.subrange(
            other_start,
            other_start + k + 1,
        ),
    ensures
        after[start + k] == other_after[other_start + k],
        is_untouched_outside(before, start, end, after),
{
    lemma_same_low_part(m, before, start, lows, other_before, other_start, other_lows, k);
    let (i, j) = (start + k, other_start + k);
    assert(before.subrange(start, start + k + 1)[k] == before[i]);
    assert(other_before.subrange(other_start, other_start + k + 1)[k] == other_before[j]);
    let f = (sample(lows[k]) * sample(gain) + (sample(before[i]) - sample(lows[k]))).clamped(
        Sample { bits: SAMPLE_MINUS_ONE },
        Sample { bits: SAMPLE_ONE },
    );
    assert(sample_gives(m, f, after[i]));
    assert(sample_gives(m, f, other_after[j]));
    sample_formula_has_one_value(m, f, after[i], other_after[j]);
}

} // verus!
