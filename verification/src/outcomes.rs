//! What the operations leave is determined: where the arithmetic is a function, no two outcomes of
//! one operation differ.
use vstd::prelude::*;

use crate::arith::{
    count, functional, gives, gives_count, gives_pcm, gives_pixels, lit, sample, sample_gives,
    sample_lit, val, Arith, Formula, SampleFormula,
};
use crate::clip::{
    aligned, are_amplitudes, chunk, chunk_size, duration_formula, frames_between, is_effect_range,
    is_selection_range, is_span_range, loudest, peak, position_formula, present, AudioClip, Zone,
    AMPLITUDE_COUNT, THOUSANDTH,
};
use crate::edit::{
    are_cut_zones, are_trimmed_zones, is_cut, is_cut_zone, is_selection_cut, is_trimmed,
    is_trimmed_after, is_trimmed_zone, kept_samples, refreshed, share_formula,
};
use crate::effects::{
    are_frames_at_speed, frames_samples, is_amplified, is_bass_boosted, is_distorted, is_effect_on,
    is_effect_outcome, is_low_part, is_reverberated, is_speed_changed, same_timing, spliced,
    Effect, ECHO_LENGTH, HUNDREDTH, SAMPLE_FIVE, SAMPLE_HALF, SAMPLE_NINETEEN_TWENTIETHS,
    SAMPLE_SEVEN_TENTHS, SAMPLE_TWENTIETH, SAMPLE_TWO_FIFTHS,
};
use crate::mouse::{
    drag_formula, grip_formula, is_canvas_size, is_clip_put, is_drag_lane, is_dragged, is_grabbed,
    is_mouse_moved, is_pressed, is_ticked, seconds_formula, BOTTOM_MARGIN, CANCEL_BUTTON,
    CLIP_MARGIN_Y, GRIP_HEIGHT, RIGHT_MARGIN,
};
use crate::num::{Num, Sample, ONE, SAMPLE_MINUS_ONE, SAMPLE_ONE, SAMPLE_ZERO, ZERO};
use crate::playback::{
    are_exported, are_heard, are_placements, contribution, is_clip_source, is_exported,
    is_frame_at, is_heard, is_mixdown, is_mixed, is_placement, rest_formula, ClipSource, Mixdown,
    Placement, SAMPLE_PCM_MAX,
};
use crate::scene::{
    are_bars, are_marks, is_bar, is_clip_box, is_lane_band, is_mark, is_strip, is_waveform,
    lane_y_formula, marked_second, x_formula, Bar, ClipBox, LaneBand, Mark, Strip, Waveform,
    BACK_NARROWING, BACK_X, BARS_NARROWING, BARS_X, BAR_SHARE, HALF_WAVE_HEIGHT, LANE_LABEL_Y,
    LEAST_CLIP_WIDTH, MARKS_PAST_END, NAME_X, NAME_Y, WAVE_HEIGHT,
};
use crate::timeline::{
    are_ends, index_of, is_first_free_lane, is_new_clip, is_occupied, lane_formula, latest,
    ratio_formula, snap_formula, time_formula, topmost, DecodedAudio, MouseMode, TimelineState,
    GRID, HEADER_WIDTH, RULER_HEIGHT, TRACK_HEIGHT,
};

verus! {

/// Under an arithmetic that is a function, a formula has at most one value.
pub proof fn formula_has_one_value<A: Arith>(m: &A, f: Formula, r: Num, s: Num)
    requires
        functional(m),
        gives(m, f, r),
        gives(m, f, s),
    ensures
        r == s,
    decreases f,
{
    match f {
        Formula::Value(_) => {},
        Formula::Count(_) => {},
        Formula::Widened(_) => {},
        Formula::Sum(x, y) => {
            let (a, b) = choose|a: Num, b: Num|
                gives(m, *x, a) && gives(m, *y, b) && #[trigger] call_ensures(
                    A::plus,
                    (m, a, b),
                    r,
                );
            let (c, d) = choose|a: Num, b: Num|
                gives(m, *x, a) && gives(m, *y, b) && #[trigger] call_ensures(
                    A::plus,
                    (m, a, b),
                    s,
                );
            formula_has_one_value(m, *x, a, c);
            formula_has_one_value(m, *y, b, d);
        },
        Formula::Difference(x, y) => {
            let (a, b) = choose|a: Num, b: Num|
                gives(m, *x, a) && gives(m, *y, b) && #[trigger] call_ensures(
                    A::minus,
                    (m, a, b),
                    r,
                );
            let (c, d) = choose|a: Num, b: Num|
                gives(m, *x, a) && gives(m, *y, b) && #[trigger] call_ensures(
                    A::minus,
                    (m, a, b),
                    s,
                );
            formula_has_one_value(m, *x, a, c);
            formula_has_one_value(m, *y, b, d);
        },
        Formula::Product(x, y) => {
            let (a, b) = choose|a: Num, b: Num|
                gives(m, *x, a) && gives(m, *y, b) && #[trigger] call_ensures(
                    A::times,
                    (m, a, b),
                    r,
                );
            let (c, d) = choose|a: Num, b: Num|
                gives(m, *x, a) && gives(m, *y, b) && #[trigger] call_ensures(
                    A::times,
                    (m, a, b),
                    s,
                );
            formula_has_one_value(m, *x, a, c);
            formula_has_one_value(m, *y, b, d);
        },
        Formula::Quotient(x, y) => {
            let (a, b) = choose|a: Num, b: Num|
                gives(m, *x, a) && gives(m, *y, b) && #[trigger] call_ensures(
                    A::over,
                    (m, a, b),
                    r,
                );
            let (c, d) = choose|a: Num, b: Num|
                gives(m, *x, a) && gives(m, *y, b) && #[trigger] call_ensures(
                    A::over,
                    (m, a, b),
                    s,
                );
            formula_has_one_value(m, *x, a, c);
            formula_has_one_value(m, *y, b, d);
        },
        Formula::Rounded(x) => {
            let a = choose|a: Num|
                gives(m, *x, a) && #[trigger] call_ensures(A::round, (m, a), r);
            let c = choose|a: Num|
                gives(m, *x, a) && #[trigger] call_ensures(A::round, (m, a), s);
            formula_has_one_value(m, *x, a, c);
        },
        Formula::Max(x, n) => {
            let a = choose|a: Num| gives(m, *x, a) && r == #[trigger] a.max(n);
            let c = choose|a: Num| gives(m, *x, a) && s == #[trigger] a.max(n);
            formula_has_one_value(m, *x, a, c);
        },
        Formula::Min(x, n) => {
            let a = choose|a: Num| gives(m, *x, a) && r == #[trigger] a.min(n);
            let c = choose|a: Num| gives(m, *x, a) && s == #[trigger] a.min(n);
            formula_has_one_value(m, *x, a, c);
        },
        Formula::Clamped(x, low, high) => {
            let a = choose|a: Num| gives(m, *x, a) && r == #[trigger] a.clamp(low, high);
            let c = choose|a: Num| gives(m, *x, a) && s == #[trigger] a.clamp(low, high);
            formula_has_one_value(m, *x, a, c);
        },
    }
}

/// Under an arithmetic that is a function, a formula of samples has at most one value.
pub proof fn sample_formula_has_one_value<A: Arith>(m: &A, f: SampleFormula, r: Sample, s: Sample)
    requires
        functional(m),
        sample_gives(m, f, r),
        sample_gives(m, f, s),
    ensures
        r == s,
    decreases f,
{
    match f {
        SampleFormula::Value(_) => {},
        SampleFormula::Sum(x, y) => {
            let (a, b) = choose|a: Sample, b: Sample|
                sample_gives(m, *x, a) && sample_gives(m, *y, b) && #[trigger] call_ensures(
                    A::sample_plus,
                    (m, a, b),
                    r,
                );
            let (c, d) = choose|a: Sample, b: Sample|
                sample_gives(m, *x, a) && sample_gives(m, *y, b) && #[trigger] call_ensures(
                    A::sample_plus,
                    (m, a, b),
                    s,
                );
            sample_formula_has_one_value(m, *x, a, c);
            sample_formula_has_one_value(m, *y, b, d);
        },
        SampleFormula::Difference(x, y) => {
            let (a, b) = choose|a: Sample, b: Sample|
                sample_gives(m, *x, a) && sample_gives(m, *y, b) && #[trigger] call_ensures(
                    A::sample_minus,
                    (m, a, b),
                    r,
                );
            let (c, d) = choose|a: Sample, b: Sample|
                sample_gives(m, *x, a) && sample_gives(m, *y, b) && #[trigger] call_ensures(
                    A::sample_minus,
                    (m, a, b),
                    s,
                );
            sample_formula_has_one_value(m, *x, a, c);
            sample_formula_has_one_value(m, *y, b, d);
        },
        SampleFormula::Product(x, y) => {
            let (a, b) = choose|a: Sample, b: Sample|
                sample_gives(m, *x, a) && sample_gives(m, *y, b) && #[trigger] call_ensures(
                    A::sample_times,
                    (m, a, b),
                    r,
                );
            let (c, d) = choose|a: Sample, b: Sample|
                sample_gives(m, *x, a) && sample_gives(m, *y, b) && #[trigger] call_ensures(
                    A::sample_times,
                    (m, a, b),
                    s,
                );
            sample_formula_has_one_value(m, *x, a, c);
            sample_formula_has_one_value(m, *y, b, d);
        },
        SampleFormula::Quotient(x, y) => {
            let (a, b) = choose|a: Sample, b: Sample|
                sample_gives(m, *x, a) && sample_gives(m, *y, b) && #[trigger] call_ensures(
                    A::sample_over,
                    (m, a, b),
                    r,
                );
            let (c, d) = choose|a: Sample, b: Sample|
                sample_gives(m, *x, a) && sample_gives(m, *y, b) && #[trigger] call_ensures(
                    A::sample_over,
                    (m, a, b),
                    s,
                );
            sample_formula_has_one_value(m, *x, a, c);
            sample_formula_has_one_value(m, *y, b, d);
        },
        SampleFormula::Tanh(x) => {
            let a = choose|a: Sample|
                sample_gives(m, *x, a) && #[trigger] call_ensures(A::sample_tanh, (m, a), r);
            let c = choose|a: Sample|
                sample_gives(m, *x, a) && #[trigger] call_ensures(A::sample_tanh, (m, a), s);
            sample_formula_has_one_value(m, *x, a, c);
        },
        SampleFormula::Clamped(x, low, high) => {
            let a = choose|a: Sample| sample_gives(m, *x, a) && r == #[trigger] a.clamp(low, high);
            let c = choose|a: Sample| sample_gives(m, *x, a) && s == #[trigger] a.clamp(low, high);
            sample_formula_has_one_value(m, *x, a, c);
        },
    }
}

/// Under an arithmetic that is a function, a formula has at most one whole part.
pub proof fn count_is_determined<A: Arith>(m: &A, f: Formula, n: usize, k: usize)
    requires
        functional(m),
        gives_count(m, f, n),
        gives_count(m, f, k),
    ensures
        n == k,
{
    let v = choose|v: Num| #[trigger] gives(m, f, v) && call_ensures(A::to_count, (m, v), n);
    let w = choose|v: Num| #[trigger] gives(m, f, v) && call_ensures(A::to_count, (m, v), k);
    formula_has_one_value(m, f, v, w);
}

/// Under an arithmetic that is a function, a formula is at most one number of pixels.
pub proof fn pixels_are_determined<A: Arith>(m: &A, f: Formula, n: i32, k: i32)
    requires
        functional(m),
        gives_pixels(m, f, n),
        gives_pixels(m, f, k),
    ensures
        n == k,
{
    let v = choose|v: Num| #[trigger] gives(m, f, v) && call_ensures(A::to_pixels, (m, v), n);
    let w = choose|v: Num| #[trigger] gives(m, f, v) && call_ensures(A::to_pixels, (m, v), k);
    formula_has_one_value(m, f, v, w);
}

/// Under an arithmetic that is a function, a formula of samples is at most one 16-bit integer.
pub proof fn pcm_is_determined<A: Arith>(m: &A, f: SampleFormula, n: i16, k: i16)
    requires
        functional(m),
        gives_pcm(m, f, n),
        gives_pcm(m, f, k),
    ensures
        n == k,
{
    let v = choose|v: Sample|
        #[trigger] sample_gives(m, f, v) && call_ensures(A::to_pcm, (m, v), n);
    let w = choose|v: Sample|
        #[trigger] sample_gives(m, f, v) && call_ensures(A::to_pcm, (m, v), k);
    sample_formula_has_one_value(m, f, v, w);
}

/// The range of samples that a selection with the given span covers is determined.
pub(crate) proof fn lemma_span_range<A: Arith>(
    m: &A,
    clip: &AudioClip,
    a: Num,
    b: Num,
    span: Num,
    r: Option<(usize, usize)>,
    s: Option<(usize, usize)>,
)
    requires
        functional(m),
        is_span_range(m, clip, a, b, span, r),
        is_span_range(m, clip, a, b, span, s),
    ensures
        r == s,
{
    let total = clip.buffer@.len();
    if !(span.abs().lt(Num { bits: THOUSANDTH }) || total == 0 || clip.channels == 0) {
        let low = val(a.min(b)) * count(total as u64);
        let high = val(a.max(b)) * count(total as u64);
        let (c, d) = choose|c: usize, d: usize| #[trigger]
            gives_count(m, low, c) && #[trigger] gives_count(m, high, d) && r == frames_between(
                c as int,
                d as int,
                total as int,
                clip.channels as int,
            );
        let (g, h) = choose|c: usize, d: usize| #[trigger]
            gives_count(m, low, c) && #[trigger] gives_count(m, high, d) && s == frames_between(
                c as int,
                d as int,
                total as int,
                clip.channels as int,
            );
        count_is_determined(m, low, c, g);
        count_is_determined(m, high, d, h);
    }
}

/// The range of samples that a selection covers is determined.
pub proof fn selection_range_is_determined<A: Arith>(
    m: &A,
    clip: &AudioClip,
    r: Option<(usize, usize)>,
    s: Option<(usize, usize)>,
)
    requires
        functional(m),
        is_selection_range(m, clip, r),
        is_selection_range(m, clip, s),
    ensures
        r == s,
{
    if let Some((a, b)) = clip.selection {
        let f = val(b) - val(a);
        let p = choose|span: Num| #[trigger]
            gives(m, f, span) && is_span_range(m, clip, a, b, span, r);
        let q = choose|span: Num| #[trigger]
            gives(m, f, span) && is_span_range(m, clip, a, b, span, s);
        formula_has_one_value(m, f, p, q);
        lemma_span_range(m, clip, a, b, p, r, s);
    }
}

/// The range of samples that an effect works on is determined.
pub proof fn effect_range_is_determined<A: Arith>(
    m: &A,
    clip: &AudioClip,
    r: Option<(usize, usize)>,
    s: Option<(usize, usize)>,
)
    requires
        functional(m),
        is_effect_range(m, clip, r),
        is_effect_range(m, clip, s),
    ensures
        r == s,
{
    let p = if r is Some && is_selection_range(m, clip, r) {
        r
    } else {
        None
    };
    let q = if s is Some && is_selection_range(m, clip, s) {
        s
    } else {
        None
    };
    selection_range_is_determined(m, clip, p, q);
}

/// The waveform of samples is determined.
pub proof fn amplitudes_are_determined<A: Arith>(
    m: &A,
    samples: Seq<Sample>,
    n: nat,
    r: Seq<Sample>,
    s: Seq<Sample>,
)
    requires
        functional(m),
        are_amplitudes(m, samples, n, r),
        are_amplitudes(m, samples, n, s),
    ensures
        r == s,
{
    let size = chunk_size(samples.len() as int, n as int);
    assert forall|i: int| 0 <= i < n implies r[i] == s[i] by {
        if samples.len() > 0 {
            sample_formula_has_one_value(
                m,
                sample(peak(chunk(samples, size, i))) / sample(loudest(samples, size, n)),
                r[i],
                s[i],
            );
        }
    }
    assert(r =~= s);
}

/// What distortion leaves is determined.
pub proof fn distortion_is_determined<A: Arith>(
    m: &A,
    before: Seq<Sample>,
    start: int,
    end: int,
    r: Seq<Sample>,
    s: Seq<Sample>,
)
    requires
        functional(m),
        is_distorted(m, before, start, end, r),
        is_distorted(m, before, start, end, s),
    ensures
        r == s,
{
    assert forall|i: int| 0 <= i < r.len() implies r[i] == s[i] by {
        if start <= i < end {
            sample_formula_has_one_value(
                m,
                (sample(before[i]) * sample_lit(SAMPLE_FIVE)).tanh() * sample_lit(
                    SAMPLE_SEVEN_TENTHS,
                ),
                r[i],
                s[i],
            );
        }
    }
    assert(r =~= s);
}

/// What amplifying leaves is determined.
pub proof fn amplification_is_determined<A: Arith>(
    m: &A,
    before: Seq<Sample>,
    start: int,
    end: int,
    volume: Sample,
    r: Seq<Sample>,
    s: Seq<Sample>,
)
    requires
        functional(m),
        is_amplified(m, before, start, end, volume, r),
        is_amplified(m, before, start, end, volume, s),
    ensures
        r == s,
{
    assert forall|i: int| 0 <= i < r.len() implies r[i] == s[i] by {
        if start <= i < end {
            sample_formula_has_one_value(
                m,
                (sample(before[i]) * sample(volume)).clamped(
                    Sample { bits: SAMPLE_MINUS_ONE },
                    Sample { bits: SAMPLE_ONE },
                ),
                r[i],
                s[i],
            );
        }
    }
    assert(r =~= s);
}

/// The echo and the feed of reverb agree up to position `k`.
proof fn lemma_same_echo<A: Arith>(
    m: &A,
    before: Seq<Sample>,
    start: int,
    end: int,
    echo: Seq<Sample>,
    feed: Seq<Sample>,
    r: Seq<Sample>,
    other_echo: Seq<Sample>,
    other_feed: Seq<Sample>,
    s: Seq<Sample>,
    k: int,
)
    requires
        functional(m),
        is_reverberated(m, before, start, end, echo, feed, r),
        is_reverberated(m, before, start, end, other_echo, other_feed, s),
        0 <= k < end - start,
    ensures
        echo[k] == other_echo[k],
        feed[k] == other_feed[k],
    decreases k,
{
    if k >= ECHO_LENGTH {
        lemma_same_echo(
            m,
            before,
            start,
            end,
            echo,
            feed,
            r,
            other_echo,
            other_feed,
            s,
            k - ECHO_LENGTH,
        );
    }
    assert(echo[k] == other_echo[k]);
    sample_formula_has_one_value(
        m,
        sample(before[start + k]) + sample(echo[k]) * sample_lit(SAMPLE_TWO_FIFTHS),
        feed[k],
        other_feed[k],
    );
}

/// What reverb leaves is determined.
pub proof fn reverb_is_determined<A: Arith>(
    m: &A,
    before: Seq<Sample>,
    start: int,
    end: int,
    echo: Seq<Sample>,
    feed: Seq<Sample>,
    r: Seq<Sample>,
    other_echo: Seq<Sample>,
    other_feed: Seq<Sample>,
    s: Seq<Sample>,
)
    requires
        functional(m),
        is_reverberated(m, before, start, end, echo, feed, r),
        is_reverberated(m, before, start, end, other_echo, other_feed, s),
    ensures
        r == s,
{
    assert forall|i: int| 0 <= i < r.len() implies r[i] == s[i] by {
        if start <= i < end {
            lemma_same_echo(
                m,
                before,
                start,
                end,
                echo,
                feed,
                r,
                other_echo,
                other_feed,
                s,
                i - start,
            );
            sample_formula_has_one_value(
                m,
                (sample(before[i]) * sample_lit(SAMPLE_SEVEN_TENTHS) + sample(echo[i - start])
                    * sample_lit(SAMPLE_HALF)).clamped(
                    Sample { bits: SAMPLE_MINUS_ONE },
                    Sample { bits: SAMPLE_ONE },
                ),
                r[i],
                s[i],
            );
        }
    }
    assert(r =~= s);
}

/// The low parts of samples agree up to position `k`.
proof fn lemma_same_lows<A: Arith>(
    m: &A,
    before: Seq<Sample>,
    start: int,
    n: int,
    lows: Seq<Sample>,
    others: Seq<Sample>,
    k: int,
)
    requires
        functional(m),
        forall|j: int| 0 <= j < n ==> #[trigger] is_low_part(m, before, start, lows, j),
        forall|j: int| 0 <= j < n ==> #[trigger] is_low_part(m, before, start, others, j),
        0 <= k < n,
    ensures
        lows[k] == others[k],
    decreases k,
{
    if k > 0 {
        lemma_same_lows(m, before, start, n, lows, others, k - 1);
    }
    assert(is_low_part(m, before, start, lows, k));
    assert(is_low_part(m, before, start, others, k));
    let previous = if k == 0 {
        Sample { bits: SAMPLE_ZERO }
    } else {
        lows[k - 1]
    };
    sample_formula_has_one_value(
        m,
        sample_lit(SAMPLE_TWENTIETH) * sample(before[start + k]) + sample_lit(
            SAMPLE_NINETEEN_TWENTIETHS,
        ) * sample(previous),
        lows[k],
        others[k],
    );
}

/// What amplifying the bass leaves is determined.
pub proof fn bass_is_determined<A: Arith>(
    m: &A,
    before: Seq<Sample>,
    start: int,
    end: int,
    gain: Sample,
    lows: Seq<Sample>,
    r: Seq<Sample>,
    others: Seq<Sample>,
    s: Seq<Sample>,
)
    requires
        functional(m),
        is_bass_boosted(m, before, start, end, gain, lows, r),
        is_bass_boosted(m, before, start, end, gain, others, s),
    ensures
        r == s,
{
    assert forall|i: int| 0 <= i < r.len() implies r[i] == s[i] by {
        if start <= i < end {
            lemma_same_lows(m, before, start, end - start, lows, others, i - start);
            sample_formula_has_one_value(
                m,
                (sample(lows[i - start]) * sample(gain) + (sample(before[i]) - sample(
                    lows[i - start],
                ))).clamped(Sample { bits: SAMPLE_MINUS_ONE }, Sample { bits: SAMPLE_ONE }),
                r[i],
                s[i],
            );
        }
    }
    assert(r =~= s);
}

/// The frames that play a range at a speed are determined.
pub proof fn frames_are_determined<A: Arith>(
    m: &A,
    total: int,
    speed: Num,
    r: Seq<usize>,
    s: Seq<usize>,
)
    requires
        functional(m),
        are_frames_at_speed(m, total, speed, r),
        are_frames_at_speed(m, total, speed, s),
    ensures
        r == s,
{
    count_is_determined(
        m,
        count(total as u64) / val(speed),
        r.len() as usize,
        s.len() as usize,
    );
    assert forall|i: int| 0 <= i < r.len() implies r[i] == s[i] by {
        count_is_determined(m, count(i as u64) * val(speed), r[i], s[i]);
    }
    assert(r =~= s);
}

/// Whether two clips hold the same.
pub open spec fn alike(a: &AudioClip, b: &AudioClip) -> bool {
    &&& a.id == b.id
    &&& a.lane == b.lane
    &&& a.name == b.name
    &&& a.path == b.path
    &&& a.buffer@ == b.buffer@
    &&& a.amplitudes@ == b.amplitudes@
    &&& a.channels == b.channels
    &&& a.sample_rate == b.sample_rate
    &&& a.start_time_secs == b.start_time_secs
    &&& a.offset_in_audio_secs == b.offset_in_audio_secs
    &&& a.duration_secs == b.duration_secs
    &&& a.volume == b.volume
    &&& a.speed == b.speed
    &&& a.bass_gain == b.bass_gain
    &&& a.selection == b.selection
    &&& a.color == b.color
    &&& a.effect_zones@ == b.effect_zones@
}

/// What a change of speed leaves is determined.
proof fn lemma_speed_change<A: Arith>(
    m: &A,
    before: &AudioClip,
    start: int,
    end: int,
    a: &AudioClip,
    b: &AudioClip,
)
    requires
        functional(m),
        is_speed_changed(m, before, start, end, a),
        is_speed_changed(m, before, start, end, b),
    ensures
        a.buffer@ == b.buffer@,
        a.duration_secs == b.duration_secs,
{
    let total = (end - start) / before.channels as int;
    let channels = before.channels as int;
    let p = choose|frames: Seq<usize>| #[trigger]
        are_frames_at_speed(m, total, before.speed, frames) && a.buffer@ == spliced(
            before.buffer@,
            start,
            end,
            frames_samples(before.buffer@, start, end, channels, frames),
        );
    let q = choose|frames: Seq<usize>| #[trigger]
        are_frames_at_speed(m, total, before.speed, frames) && b.buffer@ == spliced(
            before.buffer@,
            start,
            end,
            frames_samples(before.buffer@, start, end, channels, frames),
        );
    frames_are_determined(m, total, before.speed, p, q);
    formula_has_one_value(
        m,
        duration_formula(a.buffer@.len() as int, before.sample_rate, before.channels),
        a.duration_secs,
        b.duration_secs,
    );
}

/// What an effect leaves of a clip is determined.
pub proof fn effect_is_determined<A: Arith>(
    m: &A,
    before: &AudioClip,
    effect: Option<Effect>,
    a: &AudioClip,
    b: &AudioClip,
)
    requires
        functional(m),
        is_effect_outcome(m, before, effect, a),
        is_effect_outcome(m, before, effect, b),
    ensures
        alike(a, b),
{
    let p = choose|range: Option<(usize, usize)>| #[trigger]
        is_effect_range(m, before, range) && match range {
            None => *a == *before,
            Some((start, end)) => is_effect_on(m, before, effect, start as int, end as int, a),
        };
    let q = choose|range: Option<(usize, usize)>| #[trigger]
        is_effect_range(m, before, range) && match range {
            None => *b == *before,
            Some((start, end)) => is_effect_on(m, before, effect, start as int, end as int, b),
        };
    effect_range_is_determined(m, before, p, q);
    if let Some((start, end)) = p {
        let start = start as int;
        let end = end as int;
        match effect {
            None => {},
            Some(Effect::Distortion) => {
                distortion_is_determined(m, before.buffer@, start, end, a.buffer@, b.buffer@);
            },
            Some(Effect::Reverb) => {
                let (e, f) = choose|e: Seq<Sample>, f: Seq<Sample>|
                    is_reverberated(m, before.buffer@, start, end, e, f, a.buffer@);
                let (g, h) = choose|g: Seq<Sample>, h: Seq<Sample>|
                    is_reverberated(m, before.buffer@, start, end, g, h, b.buffer@);
                reverb_is_determined(
                    m,
                    before.buffer@,
                    start,
                    end,
                    e,
                    f,
                    a.buffer@,
                    g,
                    h,
                    b.buffer@,
                );
            },
            Some(Effect::Bass) => {
                let gain = before.bass_gain;
                let e = choose|e: Seq<Sample>|
                    is_bass_boosted(m, before.buffer@, start, end, gain, e, a.buffer@);
                let f = choose|f: Seq<Sample>|
                    is_bass_boosted(m, before.buffer@, start, end, gain, f, b.buffer@);
                bass_is_determined(
                    m,
                    before.buffer@,
                    start,
                    end,
                    gain,
                    e,
                    a.buffer@,
                    f,
                    b.buffer@,
                );
            },
            Some(Effect::Volume) => {
                amplification_is_determined(
                    m,
                    before.buffer@,
                    start,
                    end,
                    before.volume,
                    a.buffer@,
                    b.buffer@,
                );
            },
            Some(Effect::Speed) => {
                let f = val(before.speed) - lit(ONE);
                let x = choose|gap: Num| #[trigger]
                    gives(m, f, gap) && if (Num { bits: HUNDREDTH }).lt(gap.abs()) {
                        is_speed_changed(m, before, start, end, a)
                    } else {
                        &&& a.buffer == before.buffer
                        &&& a.effect_zones == before.effect_zones
                        &&& same_timing(before, a)
                    };
                let y = choose|gap: Num| #[trigger]
                    gives(m, f, gap) && if (Num { bits: HUNDREDTH }).lt(gap.abs()) {
                        is_speed_changed(m, before, start, end, b)
                    } else {
                        &&& b.buffer == before.buffer
                        &&& b.effect_zones == before.effect_zones
                        &&& same_timing(before, b)
                    };
                formula_has_one_value(m, f, x, y);
                if (Num { bits: HUNDREDTH }).lt(x.abs()) {
                    lemma_speed_change(m, before, start, end, a, b);
                }
            },
        }
        amplitudes_are_determined(
            m,
            a.buffer@,
            AMPLITUDE_COUNT as nat,
            a.amplitudes@,
            b.amplitudes@,
        );
    }
}

/// What a cut computes anew is determined.
proof fn lemma_refreshed<A: Arith>(m: &A, a: &AudioClip, b: &AudioClip)
    requires
        functional(m),
        a.buffer@ == b.buffer@,
        a.sample_rate == b.sample_rate,
        a.channels == b.channels,
        refreshed(m, a),
        refreshed(m, b),
    ensures
        a.duration_secs == b.duration_secs,
        a.amplitudes@ == b.amplitudes@,
        a.selection == b.selection,
{
    formula_has_one_value(
        m,
        duration_formula(a.buffer@.len() as int, a.sample_rate, a.channels),
        a.duration_secs,
        b.duration_secs,
    );
    amplitudes_are_determined(m, a.buffer@, AMPLITUDE_COUNT as nat, a.amplitudes@, b.amplitudes@);
}

/// Where a cut leaves the zones is determined.
proof fn lemma_cut_zones<A: Arith>(
    m: &A,
    start: int,
    end: int,
    total: int,
    from: Num,
    to: Num,
    rest: Num,
    before: Seq<Zone>,
    a: Seq<Zone>,
    b: Seq<Zone>,
)
    requires
        functional(m),
        are_cut_zones(m, start, end, total, from, to, rest, before, a),
        are_cut_zones(m, start, end, total, from, to, rest, before, b),
    ensures
        a == b,
{
    let p = choose|moved: Seq<Option<Zone>>|
        #![trigger present(moved)]
        {
            &&& moved.len() == before.len()
            &&& forall|i: int|
                0 <= i < before.len() ==> is_cut_zone(
                    m,
                    start,
                    end,
                    total,
                    from,
                    to,
                    rest,
                    before[i],
                    #[trigger] moved[i],
                )
            &&& a == present(moved)
        };
    let q = choose|moved: Seq<Option<Zone>>|
        #![trigger present(moved)]
        {
            &&& moved.len() == before.len()
            &&& forall|i: int|
                0 <= i < before.len() ==> is_cut_zone(
                    m,
                    start,
                    end,
                    total,
                    from,
                    to,
                    rest,
                    before[i],
                    #[trigger] moved[i],
                )
            &&& b == present(moved)
        };
    assert forall|i: int| 0 <= i < p.len() implies p[i] == q[i] by {
        let zone = before[i];
        let share = share_formula(start, end, total);
        assert(is_cut_zone(m, start, end, total, from, to, rest, zone, p[i]));
        assert(is_cut_zone(m, start, end, total, from, to, rest, zone, q[i]));
        if zone.end.le(from) {
            formula_has_one_value(m, val(zone.start) / val(rest), p[i]->0.start, q[i]->0.start);
            formula_has_one_value(m, val(zone.end) / val(rest), p[i]->0.end, q[i]->0.end);
        } else if to.le(zone.start) {
            formula_has_one_value(
                m,
                (val(zone.start) - share) / val(rest),
                p[i]->0.start,
                q[i]->0.start,
            );
            formula_has_one_value(m, (val(zone.end) - share) / val(rest), p[i]->0.end, q[i]->0.end);
        }
    }
    assert(p =~= q);
}

/// What cutting a range out leaves of a clip is determined.
proof fn lemma_cut<A: Arith>(
    m: &A,
    before: &AudioClip,
    start: int,
    end: int,
    a: &AudioClip,
    b: &AudioClip,
)
    requires
        functional(m),
        is_cut(m, before, start, end, a),
        is_cut(m, before, start, end, b),
    ensures
        alike(a, b),
{
    let total = before.buffer@.len() as int;
    lemma_refreshed(m, a, b);
    let low = count(start as u64) / count(total as u64);
    let high = count(end as u64) / count(total as u64);
    let left = lit(ONE) - share_formula(start, end, total);
    let zones = before.effect_zones@;
    let (f, t, r) = choose|from: Num, to: Num, rest: Num|
        {
            &&& #[trigger] gives(m, low, from)
            &&& #[trigger] gives(m, high, to)
            &&& #[trigger] gives(m, left, rest)
            &&& if (Num { bits: ZERO }).lt(rest) {
                are_cut_zones(m, start, end, total, from, to, rest, zones, a.effect_zones@)
            } else {
                a.effect_zones@.len() == 0
            }
        };
    let (g, u, s) = choose|from: Num, to: Num, rest: Num|
        {
            &&& #[trigger] gives(m, low, from)
            &&& #[trigger] gives(m, high, to)
            &&& #[trigger] gives(m, left, rest)
            &&& if (Num { bits: ZERO }).lt(rest) {
                are_cut_zones(m, start, end, total, from, to, rest, zones, b.effect_zones@)
            } else {
                b.effect_zones@.len() == 0
            }
        };
    formula_has_one_value(m, low, f, g);
    formula_has_one_value(m, high, t, u);
    formula_has_one_value(m, left, r, s);
    if (Num { bits: ZERO }).lt(r) {
        lemma_cut_zones(m, start, end, total, f, t, r, zones, a.effect_zones@, b.effect_zones@);
    } else {
        assert(a.effect_zones@ =~= b.effect_zones@);
    }
}

/// What cutting the selection out leaves of a clip is determined.
pub proof fn cut_is_determined<A: Arith>(
    m: &A,
    before: &AudioClip,
    a: &AudioClip,
    b: &AudioClip,
)
    requires
        functional(m),
        is_selection_cut(m, before, a),
        is_selection_cut(m, before, b),
    ensures
        alike(a, b),
{
    let p = choose|range: Option<(usize, usize)>| #[trigger]
        is_selection_range(m, before, range) && match range {
            None => *a == *before,
            Some((start, end)) => is_cut(m, before, start as int, end as int, a),
        };
    let q = choose|range: Option<(usize, usize)>| #[trigger]
        is_selection_range(m, before, range) && match range {
            None => *b == *before,
            Some((start, end)) => is_cut(m, before, start as int, end as int, b),
        };
    selection_range_is_determined(m, before, p, q);
    if let Some((start, end)) = p {
        lemma_cut(m, before, start as int, end as int, a, b);
    }
}

/// Where a trim leaves a zone is determined.
proof fn lemma_trimmed_zone<A: Arith>(
    m: &A,
    ratio: Num,
    zone: Zone,
    a: Option<Zone>,
    b: Option<Zone>,
)
    requires
        functional(m),
        is_trimmed_zone(m, ratio, zone, a),
        is_trimmed_zone(m, ratio, zone, b),
    ensures
        a == b,
{
    let zero = Num { bits: ZERO };
    let one = Num { bits: ONE };
    if !ratio.le(zone.start) {
        let first = (val(zone.start) / val(ratio)).clamped(zero, one);
        let last = (val(zone.end.min(ratio)) / val(ratio)).clamped(zero, one);
        let (c, d) = choose|start: Num, end: Num|
            {
                &&& #[trigger] gives(m, first, start)
                &&& #[trigger] gives(m, last, end)
                &&& a == (if start.lt(end) {
                    Some(Zone { start, end, color: zone.color })
                } else {
                    None
                })
            };
        let (e, f) = choose|start: Num, end: Num|
            {
                &&& #[trigger] gives(m, first, start)
                &&& #[trigger] gives(m, last, end)
                &&& b == (if start.lt(end) {
                    Some(Zone { start, end, color: zone.color })
                } else {
                    None
                })
            };
        formula_has_one_value(m, first, c, e);
        formula_has_one_value(m, last, d, f);
    }
}

/// Where a trim leaves the zones is determined.
proof fn lemma_trimmed_zones<A: Arith>(
    m: &A,
    ratio: Num,
    before: Seq<Zone>,
    a: Seq<Zone>,
    b: Seq<Zone>,
)
    requires
        functional(m),
        are_trimmed_zones(m, ratio, before, a),
        are_trimmed_zones(m, ratio, before, b),
    ensures
        a == b,
{
    let p = choose|moved: Seq<Option<Zone>>|
        #![trigger present(moved)]
        {
            &&& moved.len() == before.len()
            &&& forall|i: int|
                0 <= i < before.len() ==> is_trimmed_zone(m, ratio, before[i], #[trigger] moved[i])
            &&& a == present(moved)
        };
    let q = choose|moved: Seq<Option<Zone>>|
        #![trigger present(moved)]
        {
            &&& moved.len() == before.len()
            &&& forall|i: int|
                0 <= i < before.len() ==> is_trimmed_zone(m, ratio, before[i], #[trigger] moved[i])
            &&& b == present(moved)
        };
    assert forall|i: int| 0 <= i < p.len() implies p[i] == q[i] by {
        assert(is_trimmed_zone(m, ratio, before[i], p[i]));
        assert(is_trimmed_zone(m, ratio, before[i], q[i]));
        lemma_trimmed_zone(m, ratio, before[i], p[i], q[i]);
    }
    assert(p =~= q);
}

/// What cutting off behind a position leaves of a clip is determined.
proof fn lemma_trim<A: Arith>(
    m: &A,
    before: &AudioClip,
    at: int,
    a: &AudioClip,
    b: &AudioClip,
)
    requires
        functional(m),
        is_trimmed(m, before, at, a),
        is_trimmed(m, before, at, b),
    ensures
        alike(a, b),
{
    let total = before.buffer@.len() as int;
    let kept = kept_samples(at, total, before.channels as int);
    lemma_refreshed(m, a, b);
    let f = count(kept as u64) / count(total as u64);
    let p = choose|ratio: Num| #[trigger]
        gives(m, f, ratio) && are_trimmed_zones(m, ratio, before.effect_zones@, a.effect_zones@);
    let q = choose|ratio: Num| #[trigger]
        gives(m, f, ratio) && are_trimmed_zones(m, ratio, before.effect_zones@, b.effect_zones@);
    formula_has_one_value(m, f, p, q);
    lemma_trimmed_zones(m, p, before.effect_zones@, a.effect_zones@, b.effect_zones@);
}

/// What cutting off behind the playhead leaves of a clip is determined.
pub proof fn trim_is_determined<A: Arith>(
    m: &A,
    before: &AudioClip,
    playhead: Num,
    a: &AudioClip,
    b: &AudioClip,
)
    requires
        functional(m),
        is_trimmed_after(m, before, playhead, a),
        is_trimmed_after(m, before, playhead, b),
    ensures
        alike(a, b),
{
    if !playhead.le(before.start_time_secs) {
        let position = position_formula(
            val(playhead) - val(before.start_time_secs),
            before.sample_rate,
            before.channels,
        );
        let p = choose|end: Num| #[trigger]
            before.ends_at(m, end) && if end.le(playhead) || before.channels == 0 {
                *a == *before
            } else {
                exists|at: usize| #[trigger]
                    gives_count(m, position, at) && is_trimmed(m, before, at as int, a)
            };
        let q = choose|end: Num| #[trigger]
            before.ends_at(m, end) && if end.le(playhead) || before.channels == 0 {
                *b == *before
            } else {
                exists|at: usize| #[trigger]
                    gives_count(m, position, at) && is_trimmed(m, before, at as int, b)
            };
        formula_has_one_value(m, val(before.start_time_secs) + val(before.duration_secs), p, q);
        if !(p.le(playhead) || before.channels == 0) {
            let x = choose|at: usize| #[trigger]
                gives_count(m, position, at) && is_trimmed(m, before, at as int, a);
            let y = choose|at: usize| #[trigger]
                gives_count(m, position, at) && is_trimmed(m, before, at as int, b);
            count_is_determined(m, position, x, y);
            lemma_trim(m, before, x as int, a, b);
        }
    }
}

/// Whether two states hold the same.
pub open spec fn same_state(a: &TimelineState, b: &TimelineState) -> bool {
    &&& a.clips@ == b.clips@
    &&& *a == (TimelineState { clips: a.clips, ..*b })
}

/// Where clips end is determined.
pub proof fn ends_are_determined<A: Arith>(
    m: &A,
    clips: Seq<AudioClip>,
    r: Seq<Num>,
    s: Seq<Num>,
)
    requires
        functional(m),
        are_ends(m, clips, r),
        are_ends(m, clips, s),
    ensures
        r == s,
{
    assert forall|i: int| 0 <= i < r.len() implies r[i] == s[i] by {
        assert(clips[i].ends_at(m, r[i]));
        assert(clips[i].ends_at(m, s[i]));
        formula_has_one_value(
            m,
            val(clips[i].start_time_secs) + val(clips[i].duration_secs),
            r[i],
            s[i],
        );
    }
    assert(r =~= s);
}

/// The length of the timeline is determined.
pub proof fn duration_is_determined<A: Arith>(m: &A, state: &TimelineState, r: Num, s: Num)
    requires
        functional(m),
        state.is_duration(m, r),
        state.is_duration(m, s),
    ensures
        r == s,
{
    let p = choose|ends: Seq<Num>| #[trigger]
        are_ends(m, state.clips@, ends) && r == latest(ends);
    let q = choose|ends: Seq<Num>| #[trigger]
        are_ends(m, state.clips@, ends) && s == latest(ends);
    ends_are_determined(m, state.clips@, p, q);
}

/// The lane that a new clip is put on is determined.
pub proof fn free_lane_is_determined<A: Arith>(
    m: &A,
    state: &TimelineState,
    duration: Num,
    r: usize,
    s: usize,
)
    requires
        functional(m),
        state.is_free_lane_for(m, duration, r),
        state.is_free_lane_for(m, duration, s),
    ensures
        r == s,
{
    let f = val(state.playhead_secs) + val(duration);
    let lanes = state.lanes as int;
    let start = state.playhead_secs;
    let (a, p) = choose|end: Num, ends: Seq<Num>|
        {
            &&& #[trigger] gives(m, f, end)
            &&& #[trigger] are_ends(m, state.clips@, ends)
            &&& is_first_free_lane(state.clips@, ends, lanes, start, end, r as int)
        };
    let (b, q) = choose|end: Num, ends: Seq<Num>|
        {
            &&& #[trigger] gives(m, f, end)
            &&& #[trigger] are_ends(m, state.clips@, ends)
            &&& is_first_free_lane(state.clips@, ends, lanes, start, end, s as int)
        };
    formula_has_one_value(m, f, a, b);
    ends_are_determined(m, state.clips@, p, q);
    if r < s {
        assert(is_occupied(state.clips@, p, r as int, start, a));
    } else if s < r {
        assert(is_occupied(state.clips@, p, s as int, start, a));
    }
}

/// The clip at a position of the window is determined.
pub proof fn hit_is_determined<A: Arith>(
    m: &A,
    state: &TimelineState,
    x: Num,
    y: Num,
    r: Option<u32>,
    s: Option<u32>,
)
    requires
        functional(m),
        state.is_hit(m, x, y, r),
        state.is_hit(m, x, y, s),
    ensures
        r == s,
{
    if !(x.lt(Num { bits: HEADER_WIDTH }) || y.lt(Num { bits: RULER_HEIGHT })) {
        let at = time_formula(x, state.pixels_per_second);
        let on = lane_formula(y);
        let (a, b, p) = choose|time: Num, lane: usize, ends: Seq<Num>|
            {
                &&& #[trigger] gives(m, at, time)
                &&& #[trigger] gives_count(m, on, lane)
                &&& #[trigger] are_ends(m, state.clips@, ends)
                &&& r == topmost(state.clips@, ends, lane as int, time)
            };
        let (c, d, q) = choose|time: Num, lane: usize, ends: Seq<Num>|
            {
                &&& #[trigger] gives(m, at, time)
                &&& #[trigger] gives_count(m, on, lane)
                &&& #[trigger] are_ends(m, state.clips@, ends)
                &&& s == topmost(state.clips@, ends, lane as int, time)
            };
        formula_has_one_value(m, at, a, c);
        count_is_determined(m, on, b, d);
        ends_are_determined(m, state.clips@, p, q);
    }
}

/// What taking hold of a clip leaves is determined.
proof fn lemma_grab<A: Arith>(
    m: &A,
    before: &TimelineState,
    i: int,
    x: Num,
    y: Num,
    a: &TimelineState,
    b: &TimelineState,
)
    requires
        functional(m),
        is_grabbed(m, before, i, x, y, a),
        is_grabbed(m, before, i, x, y, b),
    ensures
        same_state(a, b),
{
    let clip = before.clips@[i];
    let grip = grip_formula(clip.lane);
    let offset = time_formula(x, before.pixels_per_second) - val(clip.start_time_secs);
    let ratio = ratio_formula(x, before.pixels_per_second, &clip);
    assert forall|p: Num, q: Num|
        #[trigger] gives(m, grip, p) && #[trigger] gives(m, grip, q) implies p == q by {
        formula_has_one_value(m, grip, p, q);
    }
    if a.mouse_mode == MouseMode::MoveClip {
        formula_has_one_value(m, offset, a.drag_offset_secs, b.drag_offset_secs);
    } else {
        formula_has_one_value(m, ratio, a.selection_start_ratio, b.selection_start_ratio);
    }
}

/// What putting a mouse button down leaves is determined.
pub proof fn press_is_determined<A: Arith>(
    m: &A,
    before: &TimelineState,
    button: u32,
    x: Num,
    y: Num,
    a: &TimelineState,
    b: &TimelineState,
)
    requires
        functional(m),
        is_pressed(m, before, button, x, y, a),
        is_pressed(m, before, button, x, y, b),
    ensures
        same_state(a, b),
{
    if button != CANCEL_BUTTON {
        assert forall|p: Option<u32>, q: Option<u32>| #[trigger]
            before.is_hit(m, x, y, p) && #[trigger] before.is_hit(m, x, y, q) implies p == q by {
            hit_is_determined(m, before, x, y, p, q);
        }
        let hit = choose|hit: Option<u32>| before.is_hit(m, x, y, hit);
        match hit {
            Some(id) => {
                lemma_grab(m, before, index_of(before.clips@, id)->0, x, y, a, b);
            },
            None => {
                if (Num { bits: HEADER_WIDTH }).le(x) && (Num { bits: RULER_HEIGHT }).le(y) {
                    formula_has_one_value(
                        m,
                        time_formula(x, before.pixels_per_second).max(Num { bits: ZERO }),
                        a.playhead_secs,
                        b.playhead_secs,
                    );
                }
            },
        }
    }
}

/// The size of the drawing is determined.
pub proof fn canvas_size_is_determined<A: Arith>(
    m: &A,
    state: &TimelineState,
    r: (i32, i32),
    s: (i32, i32),
)
    requires
        functional(m),
        is_canvas_size(m, state, r),
        is_canvas_size(m, state, s),
    ensures
        r == s,
{
    assert forall|p: Num, q: Num| #[trigger]
        state.is_duration(m, p) && #[trigger] state.is_duration(m, q) implies p == q by {
        duration_is_determined(m, state, p, q);
    }
    let duration = choose|duration: Num| state.is_duration(m, duration);
    pixels_are_determined(
        m,
        lit(HEADER_WIDTH) + val(duration) * val(state.pixels_per_second) + lit(RIGHT_MARGIN),
        r.0,
        s.0,
    );
    pixels_are_determined(
        m,
        lit(RULER_HEIGHT) + count(state.lanes as u64) * lit(TRACK_HEIGHT) + lit(BOTTOM_MARGIN),
        r.1,
        s.1,
    );
}

/// Where a clip is dragged to is determined.
pub proof fn drag_is_determined<A: Arith>(
    m: &A,
    before: &TimelineState,
    clip_id: u32,
    x: Num,
    y: Num,
    a: &TimelineState,
    b: &TimelineState,
)
    requires
        functional(m),
        is_dragged(m, before, clip_id, x, y, a),
        is_dragged(m, before, clip_id, x, y, b),
    ensures
        same_state(a, b),
{
    let to = drag_formula(x, before.pixels_per_second, before.drag_offset_secs);
    let (p, c, k) = choose|at: Num, start: Num, lane: usize|
        {
            &&& #[trigger] gives(m, to, at)
            &&& #[trigger] gives(m, snap_formula(at, Num { bits: GRID }), start)
            &&& #[trigger] is_drag_lane(m, y, lane)
            &&& is_clip_put(before, clip_id, start, lane, a)
        };
    let (q, d, l) = choose|at: Num, start: Num, lane: usize|
        {
            &&& #[trigger] gives(m, to, at)
            &&& #[trigger] gives(m, snap_formula(at, Num { bits: GRID }), start)
            &&& #[trigger] is_drag_lane(m, y, lane)
            &&& is_clip_put(before, clip_id, start, lane, b)
        };
    formula_has_one_value(m, to, p, q);
    formula_has_one_value(m, snap_formula(p, Num { bits: GRID }), c, d);
    assert forall|u: usize, v: usize| #[trigger]
        gives_count(m, lane_formula(y), u) && #[trigger] gives_count(
            m,
            lane_formula(y),
            v,
        ) implies u == v by {
        count_is_determined(m, lane_formula(y), u, v);
    }
}

/// What moving the mouse leaves is determined, and with it the size of the drawing.
pub proof fn mouse_move_is_determined<A: Arith>(
    m: &A,
    before: &TimelineState,
    x: Num,
    y: Num,
    a: &TimelineState,
    r: Option<(i32, i32)>,
    b: &TimelineState,
    s: Option<(i32, i32)>,
)
    requires
        functional(m),
        is_mouse_moved(m, before, x, y, a, r),
        is_mouse_moved(m, before, x, y, b, s),
    ensures
        same_state(a, b),
        r == s,
{
    if let Some(id) = before.drag_clip_id {
        match before.mouse_mode {
            MouseMode::MoveClip => {
                drag_is_determined(m, before, id, x, y, a, b);
                lemma_same_canvas(m, a, b, s->0);
                canvas_size_is_determined(m, a, r->0, s->0);
            },
            MouseMode::SelectInClip => {
                if let Some(i) = index_of(before.clips@, id) {
                    let f = ratio_formula(x, before.pixels_per_second, &before.clips@[i]);
                    assert forall|p: Num, q: Num|
                        #[trigger] gives(m, f, p) && #[trigger] gives(m, f, q) implies p == q by {
                        formula_has_one_value(m, f, p, q);
                    }
                }
            },
            MouseMode::Idle => {},
        }
    }
}

/// States that hold the same are drawn equally large.
proof fn lemma_same_canvas<A: Arith>(
    m: &A,
    a: &TimelineState,
    b: &TimelineState,
    size: (i32, i32),
)
    requires
        same_state(a, b),
        is_canvas_size(m, b, size),
    ensures
        is_canvas_size(m, a, size),
{
    assert forall|d: Num| #[trigger] b.is_duration(m, d) implies a.is_duration(m, d) by {
        let ends = choose|ends: Seq<Num>| #[trigger]
            are_ends(m, b.clips@, ends) && d == latest(ends);
        assert(are_ends(m, a.clips@, ends));
    }
    let d = choose|duration: Num| #[trigger]
        b.is_duration(m, duration) && gives_pixels(
            m,
            lit(HEADER_WIDTH) + val(duration) * val(b.pixels_per_second) + lit(RIGHT_MARGIN),
            size.0,
        );
    assert(a.is_duration(m, d));
}

/// What the clock leaves is determined.
pub proof fn tick_is_determined<A: Arith>(
    m: &A,
    before: &TimelineState,
    now: u64,
    a: &TimelineState,
    b: &TimelineState,
)
    requires
        functional(m),
        is_ticked(m, before, now, a),
        is_ticked(m, before, now, b),
    ensures
        same_state(a, b),
{
    if before.is_playing {
        if let Some(last) = before.last_tick {
            let passed = if last < now {
                (now - last) as u64
            } else {
                0
            };
            formula_has_one_value(
                m,
                val(before.playhead_secs) + seconds_formula(passed),
                a.playhead_secs,
                b.playhead_secs,
            );
        }
        assert forall|p: Num, q: Num| #[trigger]
            before.is_duration(m, p) && #[trigger] before.is_duration(m, q) implies p == q by {
            duration_is_determined(m, before, p, q);
        }
    }
}

/// The start of the frame at a time is determined.
proof fn lemma_frame<A: Arith>(
    m: &A,
    secs: Num,
    sample_rate: u32,
    channels: u16,
    n: usize,
    k: usize,
)
    requires
        functional(m),
        is_frame_at(m, secs, sample_rate, channels, n),
        is_frame_at(m, secs, sample_rate, channels, k),
    ensures
        n == k,
{
    let f = position_formula(val(secs), sample_rate, channels);
    let p = choose|at: usize| #[trigger]
        gives_count(m, f, at) && n == aligned(at as int, channels as int);
    let q = choose|at: usize| #[trigger]
        gives_count(m, f, at) && k == aligned(at as int, channels as int);
    count_is_determined(m, f, p, q);
}

/// Where the clips go in a mix is determined.
pub proof fn placements_are_determined<A: Arith>(
    m: &A,
    clips: Seq<AudioClip>,
    channels: u16,
    sample_rate: u32,
    r: Seq<Option<Placement>>,
    s: Seq<Option<Placement>>,
)
    requires
        functional(m),
        are_placements(m, clips, channels, sample_rate, r),
        are_placements(m, clips, channels, sample_rate, s),
    ensures
        r == s,
{
    assert forall|i: int| 0 <= i < r.len() implies r[i] == s[i] by {
        let clip = clips[i];
        assert(is_placement(m, &clip, channels, sample_rate, r[i]));
        assert(is_placement(m, &clip, channels, sample_rate, s[i]));
        if clip.channels == channels && clip.sample_rate == sample_rate {
            let p = r[i]->0;
            let q = s[i]->0;
            lemma_frame(m, clip.start_time_secs, sample_rate, channels, p.target, q.target);
            lemma_frame(m, clip.offset_in_audio_secs, sample_rate, channels, p.source, q.source);
            lemma_frame(m, clip.duration_secs, sample_rate, channels, p.count, q.count);
        }
    }
    assert(r =~= s);
}

/// The mix at a position is determined.
pub proof fn mix_is_determined<A: Arith>(
    m: &A,
    clips: Seq<AudioClip>,
    placements: Seq<Option<Placement>>,
    n: nat,
    d: int,
    r: Sample,
    s: Sample,
)
    requires
        functional(m),
        is_mixed(m, clips, placements, n, d, r),
        is_mixed(m, clips, placements, n, d, s),
    ensures
        r == s,
    decreases n,
{
    if n > 0 {
        let k = (n - 1) as nat;
        match contribution(&clips[k as int], placements[k as int], d) {
            None => {
                mix_is_determined(m, clips, placements, k, d, r, s);
            },
            Some(added) => {
                let p = choose|before: Sample|
                    is_mixed(m, clips, placements, k, d, before) && #[trigger] sample_gives(
                        m,
                        sample(before) + sample(added),
                        r,
                    );
                let q = choose|before: Sample|
                    is_mixed(m, clips, placements, k, d, before) && #[trigger] sample_gives(
                        m,
                        sample(before) + sample(added),
                        s,
                    );
                mix_is_determined(m, clips, placements, k, d, p, q);
                sample_formula_has_one_value(m, sample(p) + sample(added), r, s);
            },
        }
    }
}

/// What is exported for a position is determined.
proof fn lemma_exported<A: Arith>(
    m: &A,
    clips: Seq<AudioClip>,
    placements: Seq<Option<Placement>>,
    d: int,
    n: i16,
    k: i16,
)
    requires
        functional(m),
        is_exported(m, clips, placements, d, n),
        is_exported(m, clips, placements, d, k),
    ensures
        n == k,
{
    assert forall|p: Sample, q: Sample| #[trigger]
        is_mixed(m, clips, placements, clips.len(), d, p) && #[trigger] is_mixed(
            m,
            clips,
            placements,
            clips.len(),
            d,
            q,
        ) implies p == q by {
        mix_is_determined(m, clips, placements, clips.len(), d, p, q);
    }
    let mixed = choose|mixed: Sample| is_mixed(m, clips, placements, clips.len(), d, mixed);
    pcm_is_determined(
        m,
        sample(
            mixed.clamp(Sample { bits: SAMPLE_MINUS_ONE }, Sample { bits: SAMPLE_ONE }),
        ) * sample_lit(SAMPLE_PCM_MAX),
        n,
        k,
    );
}

/// The exported mix is determined.
pub proof fn mixdown_is_determined<A: Arith>(m: &A, state: &TimelineState, a: &Mixdown, b: &Mixdown)
    requires
        functional(m),
        is_mixdown(m, state, a),
        is_mixdown(m, state, b),
    ensures
        a.channels == b.channels,
        a.sample_rate == b.sample_rate,
        a.bits_per_sample == b.bits_per_sample,
        a.samples@ == b.samples@,
        a.ignored@ == b.ignored@,
{
    let clips = state.clips@;
    let channels = clips[0].channels;
    let sample_rate = clips[0].sample_rate;
    assert forall|p: Num, q: Num| #[trigger]
        state.is_duration(m, p) && #[trigger] state.is_duration(m, q) implies p == q by {
        duration_is_determined(m, state, p, q);
    }
    let duration = choose|duration: Num| state.is_duration(m, duration);
    count_is_determined(
        m,
        position_formula(val(duration), sample_rate, channels),
        a.samples.len(),
        b.samples.len(),
    );
    let p = choose|placements: Seq<Option<Placement>>| #[trigger]
        are_placements(m, clips, channels, sample_rate, placements) && are_exported(
            m,
            clips,
            placements,
            a.samples@,
        );
    let q = choose|placements: Seq<Option<Placement>>| #[trigger]
        are_placements(m, clips, channels, sample_rate, placements) && are_exported(
            m,
            clips,
            placements,
            b.samples@,
        );
    placements_are_determined(m, clips, channels, sample_rate, p, q);
    assert forall|d: int| 0 <= d < a.samples@.len() implies a.samples@[d] == b.samples@[d] by {
        assert(is_exported(m, clips, p, d, a.samples@[d]));
        assert(is_exported(m, clips, p, d, b.samples@[d]));
        lemma_exported(m, clips, p, d, a.samples@[d], b.samples@[d]);
    }
    assert(a.samples@ =~= b.samples@);
}

/// Whether two sources sound the same.
pub open spec fn same_source(a: &ClipSource, b: &ClipSource) -> bool {
    &&& a.channels == b.channels
    &&& a.sample_rate == b.sample_rate
    &&& a.samples@ == b.samples@
    &&& a.delay_secs == b.delay_secs
}

/// Whether two sources, if any, sound the same.
spec fn same_heard(a: Option<ClipSource>, b: Option<ClipSource>) -> bool {
    match (a, b) {
        (Some(p), Some(q)) => same_source(&p, &q),
        (None, None) => true,
        _ => false,
    }
}

/// What plays a clip from an offset is determined.
pub proof fn source_is_determined<A: Arith>(
    m: &A,
    clip: &AudioClip,
    audio_offset: Num,
    delay: Num,
    a: &ClipSource,
    b: &ClipSource,
)
    requires
        functional(m),
        is_clip_source(m, clip, audio_offset, delay, a),
        is_clip_source(m, clip, audio_offset, delay, b),
    ensures
        same_source(a, b),
{
    let total = clip.buffer@.len() as int;
    let channels = clip.channels as int;
    let first = position_formula(val(audio_offset), clip.sample_rate, clip.channels);
    let rest = position_formula(
        rest_formula(clip, audio_offset),
        clip.sample_rate,
        clip.channels,
    );
    assert forall|p: usize, q: usize| #[trigger]
        gives_count(m, first, p) && #[trigger] gives_count(m, first, q) implies p == q by {
        count_is_determined(m, first, p, q);
    }
    assert forall|p: usize, q: usize| #[trigger]
        gives_count(m, rest, p) && #[trigger] gives_count(m, rest, q) implies p == q by {
        count_is_determined(m, rest, p, q);
    }
}

/// What is heard of a clip is determined.
proof fn lemma_heard<A: Arith>(
    m: &A,
    clip: &AudioClip,
    clip_end: Num,
    playhead: Num,
    a: Option<ClipSource>,
    b: Option<ClipSource>,
)
    requires
        functional(m),
        is_heard(m, clip, clip_end, playhead, a),
        is_heard(m, clip, clip_end, playhead, b),
    ensures
        same_heard(a, b),
{
    if !clip_end.le(playhead) {
        let zero = Num { bits: ZERO };
        let wait = (val(clip.start_time_secs) - val(playhead)).max(zero);
        let skip = val(clip.offset_in_audio_secs) + (val(playhead) - val(
            clip.start_time_secs,
        )).max(zero);
        let (c, d) = choose|delay: Num, offset: Num|
            {
                &&& #[trigger] gives(m, wait, delay)
                &&& #[trigger] gives(m, skip, offset)
                &&& a matches Some(s) && is_clip_source(m, clip, offset, delay, &s)
            };
        let (e, f) = choose|delay: Num, offset: Num|
            {
                &&& #[trigger] gives(m, wait, delay)
                &&& #[trigger] gives(m, skip, offset)
                &&& b matches Some(s) && is_clip_source(m, clip, offset, delay, &s)
            };
        formula_has_one_value(m, wait, c, e);
        formula_has_one_value(m, skip, d, f);
        source_is_determined(m, clip, d, c, &a->0, &b->0);
    }
}

/// What is left of two lists that sound the same sounds the same.
proof fn lemma_present_sources(a: Seq<Option<ClipSource>>, b: Seq<Option<ClipSource>>)
    requires
        a.len() == b.len(),
        forall|i: int| 0 <= i < a.len() ==> same_heard(#[trigger] a[i], b[i]),
    ensures
        present(a).len() == present(b).len(),
        forall|i: int|
            0 <= i < present(a).len() ==> same_source(&#[trigger] present(a)[i], &present(b)[i]),
    decreases a.len(),
{
    if a.len() > 0 {
        let c = a.drop_last();
        let d = b.drop_last();
        assert forall|i: int| 0 <= i < c.len() implies same_heard(#[trigger] c[i], d[i]) by {
            assert(same_heard(a[i], b[i]));
        }
        lemma_present_sources(c, d);
        assert(same_heard(a[a.len() - 1], b[a.len() - 1]));
        assert forall|i: int| 0 <= i < present(a).len() implies same_source(
            &#[trigger] present(a)[i],
            &present(b)[i],
        ) by {
            if i < present(c).len() {
                assert(same_source(&present(c)[i], &present(d)[i]));
            }
        }
    }
}

/// What is heard of the timeline is determined.
pub proof fn sources_are_determined<A: Arith>(
    m: &A,
    state: &TimelineState,
    r: Seq<ClipSource>,
    s: Seq<ClipSource>,
)
    requires
        functional(m),
        are_heard(m, state, r),
        are_heard(m, state, s),
    ensures
        r.len() == s.len(),
        forall|i: int| 0 <= i < r.len() ==> same_source(&#[trigger] r[i], &s[i]),
{
    let playhead = state.playhead_secs;
    let (p, a) = choose|ends: Seq<Num>, heard: Seq<Option<ClipSource>>|
        {
            &&& #[trigger] are_ends(m, state.clips@, ends)
            &&& heard.len() == state.clips@.len()
            &&& forall|i: int|
                0 <= i < heard.len() ==> is_heard(
                    m,
                    &state.clips@[i],
                    ends[i],
                    playhead,
                    #[trigger] heard[i],
                )
            &&& r == #[trigger] present(heard)
        };
    let (q, b) = choose|ends: Seq<Num>, heard: Seq<Option<ClipSource>>|
        {
            &&& #[trigger] are_ends(m, state.clips@, ends)
            &&& heard.len() == state.clips@.len()
            &&& forall|i: int|
                0 <= i < heard.len() ==> is_heard(
                    m,
                    &state.clips@[i],
                    ends[i],
                    playhead,
                    #[trigger] heard[i],
                )
            &&& s == #[trigger] present(heard)
        };
    ends_are_determined(m, state.clips@, p, q);
    assert forall|i: int| 0 <= i < a.len() implies same_heard(#[trigger] a[i], b[i]) by {
        assert(is_heard(m, &state.clips@[i], p[i], playhead, a[i]));
        assert(is_heard(m, &state.clips@[i], p[i], playhead, b[i]));
        lemma_heard(m, &state.clips@[i], p[i], playhead, a[i], b[i]);
    }
    lemma_present_sources(a, b);
}

/// What a state makes of decoded audio is determined.
pub proof fn new_clip_is_determined<A: Arith>(
    m: &A,
    state: &TimelineState,
    file_name: Option<Seq<char>>,
    path: Vec<u8>,
    audio: &DecodedAudio,
    a: &AudioClip,
    b: &AudioClip,
)
    requires
        functional(m),
        is_new_clip(m, state, file_name, path, audio, a),
        is_new_clip(m, state, file_name, path, audio, b),
    ensures
        a.name@ == b.name@,
        alike(&(AudioClip { name: b.name, ..*a }), b),
{
    formula_has_one_value(
        m,
        duration_formula(audio.buffer@.len() as int, audio.sample_rate, audio.channels),
        a.duration_secs,
        b.duration_secs,
    );
    free_lane_is_determined(m, state, a.duration_secs, a.lane, b.lane);
    amplitudes_are_determined(m, a.buffer@, AMPLITUDE_COUNT as nat, a.amplitudes@, b.amplitudes@);
    assert(a.effect_zones@ =~= b.effect_zones@);
}

/// Which seconds are marked, and where, is determined.
pub proof fn marks_are_determined<A: Arith>(
    m: &A,
    state: &TimelineState,
    coarse: bool,
    r: Seq<Mark>,
    s: Seq<Mark>,
)
    requires
        functional(m),
        are_marks(m, state, coarse, r),
        are_marks(m, state, coarse, s),
    ensures
        r == s,
{
    assert forall|p: Num, q: Num| #[trigger]
        state.is_duration(m, p) && #[trigger] state.is_duration(m, q) implies p == q by {
        duration_is_determined(m, state, p, q);
    }
    let duration = choose|duration: Num| state.is_duration(m, duration);
    let end = val(duration) + lit(MARKS_PAST_END);
    assert forall|p: usize, q: usize| #[trigger]
        gives_count(m, end, p) && #[trigger] gives_count(m, end, q) implies p == q by {
        count_is_determined(m, end, p, q);
    }
    assert(r.len() == s.len());
    assert forall|k: int| 0 <= k < r.len() implies r[k] == s[k] by {
        let second = marked_second(coarse, k);
        assert(is_mark(m, state.pixels_per_second, second, r[k]));
        assert(is_mark(m, state.pixels_per_second, second, s[k]));
        formula_has_one_value(
            m,
            x_formula(count(second as u64), state.pixels_per_second),
            r[k].x,
            s[k].x,
        );
    }
    assert(r =~= s);
}

/// Where a lane is drawn is determined.
pub proof fn lane_band_is_determined<A: Arith>(m: &A, lane: usize, r: LaneBand, s: LaneBand)
    requires
        functional(m),
        is_lane_band(m, lane, r),
        is_lane_band(m, lane, s),
    ensures
        r == s,
{
    formula_has_one_value(m, lane_y_formula(lane), r.top, s.top);
    formula_has_one_value(m, val(r.top) + lit(TRACK_HEIGHT), r.bottom, s.bottom);
    formula_has_one_value(m, val(r.top) + lit(LANE_LABEL_Y), r.label_y, s.label_y);
}

/// Where a part of a box lies is determined.
proof fn lemma_strip<A: Arith>(
    m: &A,
    x: Num,
    width: Num,
    start: Num,
    end: Num,
    r: Strip,
    s: Strip,
)
    requires
        functional(m),
        is_strip(m, x, width, start, end, r),
        is_strip(m, x, width, start, end, s),
    ensures
        r == s,
{
    formula_has_one_value(m, val(x) + val(start) * val(width), r.x, s.x);
    formula_has_one_value(m, (val(end) - val(start)) * val(width), r.width, s.width);
}

/// Where a bar of a waveform lies is determined.
proof fn lemma_bar<A: Arith>(
    m: &A,
    amps: Seq<Sample>,
    x: Num,
    y: Num,
    width: Num,
    n: usize,
    i: int,
    r: Bar,
    s: Bar,
)
    requires
        functional(m),
        is_bar(m, amps, x, y, width, n, i, r),
        is_bar(m, amps, x, y, width, n, i, s),
    ensures
        r == s,
{
    let amp = amps[i * amps.len() / n as int];
    let line = val(y) + lit(HALF_WAVE_HEIGHT);
    let reach = (Formula::Widened(amp) * lit(WAVE_HEIGHT) * lit(BAR_SHARE)).max(Num { bits: ONE });
    let (a, b) = choose|middle: Num, height: Num|
        {
            &&& #[trigger] gives(m, line, middle)
            &&& #[trigger] gives(m, reach, height)
            &&& gives(m, val(middle) - val(height), r.top)
            &&& gives(m, val(middle) + val(height), r.bottom)
        };
    let (c, d) = choose|middle: Num, height: Num|
        {
            &&& #[trigger] gives(m, line, middle)
            &&& #[trigger] gives(m, reach, height)
            &&& gives(m, val(middle) - val(height), s.top)
            &&& gives(m, val(middle) + val(height), s.bottom)
        };
    formula_has_one_value(m, line, a, c);
    formula_has_one_value(m, reach, b, d);
    formula_has_one_value(m, val(a) - val(b), r.top, s.top);
    formula_has_one_value(m, val(a) + val(b), r.bottom, s.bottom);
    formula_has_one_value(
        m,
        val(x) + lit(BARS_X) + count(i as u64) * ((val(width) - lit(BARS_NARROWING)).max(
            Num { bits: ONE },
        ) / count(n as u64)),
        r.x,
        s.x,
    );
}

/// Whether two waveforms, if any, are drawn the same.
pub open spec fn same_waveform(a: Option<Waveform>, b: Option<Waveform>) -> bool {
    match (a, b) {
        (Some(p), Some(q)) => p.back == q.back && p.bars@ == q.bars@,
        (None, None) => true,
        _ => false,
    }
}

/// The waveform of a clip is determined.
pub proof fn waveform_is_determined<A: Arith>(
    m: &A,
    clip: &AudioClip,
    x: Num,
    y: Num,
    width: Num,
    r: Option<Waveform>,
    s: Option<Waveform>,
)
    requires
        functional(m),
        is_waveform(m, clip, x, y, width, r),
        is_waveform(m, clip, x, y, width, s),
    ensures
        same_waveform(r, s),
{
    let amps = clip.amplitudes@;
    if amps.len() > 0 {
        let all = count(amps.len() as u64);
        assert forall|p: Num, q: Num|
            #[trigger] gives(m, all, p) && #[trigger] gives(m, all, q) implies p == q by {
            formula_has_one_value(m, all, p, q);
        }
        let most = choose|most: Num| gives(m, all, most);
        let shown = val(width.min(most));
        assert forall|p: usize, q: usize| #[trigger]
            gives_count(m, shown, p) && #[trigger] gives_count(m, shown, q) implies p == q by {
            count_is_determined(m, shown, p, q);
        }
        let n = choose|n: usize| gives_count(m, shown, n);
        if n > 0 {
            let v = r->0;
            let w = s->0;
            formula_has_one_value(m, val(x) + lit(BACK_X), v.back.x, w.back.x);
            formula_has_one_value(
                m,
                (val(width) - lit(BACK_NARROWING)).max(Num { bits: ONE }),
                v.back.width,
                w.back.width,
            );
            assert(are_bars(m, amps, x, y, width, n, v.bars@));
            assert(are_bars(m, amps, x, y, width, n, w.bars@));
            assert forall|i: int| 0 <= i < n implies v.bars@[i] == w.bars@[i] by {
                lemma_bar(m, amps, x, y, width, n, i, v.bars@[i], w.bars@[i]);
            }
            assert(v.bars@ =~= w.bars@);
        }
    }
}

/// Where a clip is drawn is determined.
pub proof fn clip_box_is_determined<A: Arith>(
    m: &A,
    state: &TimelineState,
    clip: &AudioClip,
    a: &ClipBox,
    b: &ClipBox,
)
    requires
        functional(m),
        is_clip_box(m, state, clip, a),
        is_clip_box(m, state, clip, b),
    ensures
        a.x == b.x,
        a.y == b.y,
        a.width == b.width,
        a.selected == b.selected,
        a.zones@ == b.zones@,
        a.selection == b.selection,
        a.name_x == b.name_x,
        a.name_y == b.name_y,
        a.wave_y == b.wave_y,
        same_waveform(a.wave, b.wave),
{
    formula_has_one_value(
        m,
        x_formula(val(clip.start_time_secs), state.pixels_per_second),
        a.x,
        b.x,
    );
    formula_has_one_value(m, lane_y_formula(clip.lane) + lit(CLIP_MARGIN_Y), a.y, b.y);
    formula_has_one_value(
        m,
        (val(clip.duration_secs) * val(state.pixels_per_second)).max(
            Num { bits: LEAST_CLIP_WIDTH },
        ),
        a.width,
        b.width,
    );
    formula_has_one_value(m, val(a.x) + lit(NAME_X), a.name_x, b.name_x);
    formula_has_one_value(m, val(a.y) + lit(NAME_Y), a.name_y, b.name_y);
    formula_has_one_value(m, val(a.y) + lit(GRIP_HEIGHT), a.wave_y, b.wave_y);
    waveform_is_determined(m, clip, a.x, a.wave_y, a.width, a.wave, b.wave);
    if let Some((start, end)) = clip.selection {
        lemma_strip(m, a.x, a.width, start, end, a.selection->0, b.selection->0);
    }
    assert forall|i: int| 0 <= i < a.zones@.len() implies a.zones@[i] == b.zones@[i] by {
        let zone = clip.effect_zones@[i];
        lemma_strip(m, a.x, a.width, zone.start, zone.end, a.zones@[i].0, b.zones@[i].0);
    }
    assert(a.zones@ =~= b.zones@);
}

} // verus!
