//! What is drawn where: times, clips, bars and the peaks that the bars show.
use vstd::prelude::*;

use crate::arith::{
    count, functional, gives, gives_count, lit, sample, sample_gives, val, Arith, Formula,
};
use crate::clip::{
    are_amplitudes, chunk, chunk_size, chunk_start, loudest, peak, AudioClip, SAMPLE_THOUSANDTH,
};
use crate::exact::{
    faithful, is_nearest, lemma_above_one, lemma_constants, lemma_count, lemma_exact, lemma_most,
    lemma_not_above, lemma_not_below, lemma_units_grow, lemma_whole, most_units, one_units, units,
};
use crate::gestures::{is_whole, lemma_whole_plus, lemma_whole_sizes, lemma_whole_times};
use crate::meaning::lemma_whole_part;
use crate::mouse::{CLIP_MARGIN_Y, GRIP_HEIGHT};
use crate::num::{Num, Sample, ONE, SAMPLE_ZERO};
use crate::outcomes::formula_has_one_value;
use crate::places::{is_right_of_headers, lemma_header};
use crate::scene::{
    are_bars, are_marks, is_bar, is_clip_box, is_lane_band, is_mark, is_strip, is_waveform,
    lane_y_formula, marked_second, x_formula, Bar, ClipBox, LaneBand, Mark, Strip, Waveform,
    BARS_NARROWING, BARS_X, BAR_SHARE, HALF_WAVE_HEIGHT, LANE_LABEL_Y, LEAST_CLIP_WIDTH,
    MARKS_PAST_END, NAME_X, NAME_Y, WAVE_HEIGHT,
};
use crate::timeline::{TimelineState, HEADER_WIDTH, RULER_HEIGHT, TRACK_HEIGHT};

verus! {

/// Whether a time takes exactly so many pixels.
pub open spec fn takes(time: Num, pixels_per_second: Num, pixels: Num) -> bool {
    &&& pixels.is_finite()
    &&& units(pixels) * one_units() == units(time) * units(pixels_per_second)
}

/// A product that is exactly a value.
proof fn lemma_takes<A: Arith>(m: &A, f: Formula, time: Num, pps: Num, pixels: Num, r: Num)
    requires
        faithful(m),
        gives(m, f * val(pps), r),
        forall|v: Num| #[trigger] gives(m, f, v) ==> v == time,
        time.is_finite(),
        pps.is_finite(),
        takes(time, pps, pixels),
    ensures
        r.is_finite(),
        units(r) == units(pixels),
{
    let one = one_units();
    let (a, b) = choose|a: Num, b: Num|
        gives(m, f, a) && gives(m, val(pps), b) && #[trigger] call_ensures(A::times, (m, a, b), r);
    assert(a == time && b == pps);
    lemma_constants();
    lemma_most(pixels);
    let u = units(pixels);
    assert(-(most_units() * one) <= u * one <= most_units() * one) by (nonlinear_arith)
        requires
            -most_units() <= u <= most_units(),
            one > 0,
    ;
    lemma_exact(u * one, one, r, pixels);
}

/// A time is drawn where the mouse finds it: as far right of the headers as its pixels. `x` is that
/// position.
pub proof fn a_time_is_drawn_where_the_mouse_finds_it<A: Arith>(
    m: &A,
    time: Num,
    pixels_per_second: Num,
    pixels: Num,
    x: Num,
    drawn: Num,
)
    requires
        faithful(m),
        gives(m, x_formula(val(time), pixels_per_second), drawn),
        time.is_finite(),
        pixels_per_second.is_finite(),
        takes(time, pixels_per_second, pixels),
        x.is_finite(),
        is_right_of_headers(x, pixels),
    ensures
        drawn.is_finite(),
        units(drawn) == units(x),
        is_right_of_headers(drawn, pixels),
{
    let f = val(time) * val(pixels_per_second);
    let (h, p) = choose|h: Num, p: Num|
        gives(m, lit(HEADER_WIDTH), h) && gives(m, f, p) && #[trigger] call_ensures(
            A::plus,
            (m, h, p),
            drawn,
        );
    assert(h.bits == HEADER_WIDTH);
    lemma_header();
    lemma_takes(m, val(time), time, pixels_per_second, pixels, p);
    lemma_most(x);
    lemma_exact(units(x), 1, drawn, x);
}

/// Whether a strip of a box reaches from one ratio of its width to another, each step rounded to
/// the nearest value.
pub open spec fn is_strip_between(x: Num, width: Num, start: Num, end: Num, strip: Strip) -> bool {
    &&& exists|from: Num| #[trigger]
        is_nearest(units(start) * units(width), one_units(), from) && is_nearest(
            units(x) + units(from),
            1,
            strip.x,
        )
    &&& exists|span: Num| #[trigger]
        is_nearest(units(end) - units(start), 1, span) && is_nearest(
            units(span) * units(width),
            one_units(),
            strip.width,
        )
}

/// A strip of a box.
proof fn lemma_strip<A: Arith>(m: &A, x: Num, width: Num, start: Num, end: Num, strip: Strip)
    requires
        faithful(m),
        is_strip(m, x, width, start, end, strip),
        x.is_finite(),
        width.is_finite(),
        0 <= units(x),
        0 <= units(width),
        2 * (units(x) + units(width)) <= most_units(),
        0 <= start.order() <= end.order() <= ONE,
    ensures
        is_strip_between(x, width, start, end, strip),
{
    let one = one_units();
    let (zero, unit) = (Num { bits: 0 }, Num { bits: ONE });
    lemma_constants();
    lemma_units_grow(zero, start);
    lemma_units_grow(start, zero);
    lemma_units_grow(start, end);
    lemma_units_grow(end, unit);
    lemma_units_grow(unit, end);
    lemma_units_grow(end, start);
    lemma_most(unit);
    lemma_most(width);
    let (a, from) = choose|a: Num, b: Num|
        gives(m, val(x), a) && gives(m, val(start) * val(width), b) && #[trigger] call_ensures(
            A::plus,
            (m, a, b),
            strip.x,
        );
    let (s, w) = choose|s: Num, w: Num|
        gives(m, val(start), s) && gives(m, val(width), w) && #[trigger] call_ensures(
            A::times,
            (m, s, w),
            from,
        );
    assert(a == x && s == start && w == width);
    lemma_part_of_width(m, start, width, from);
    let (span, v) = choose|p: Num, v: Num|
        gives(m, val(end) - val(start), p) && gives(m, val(width), v) && #[trigger] call_ensures(
            A::times,
            (m, p, v),
            strip.width,
        );
    let (e, t) = choose|e: Num, t: Num|
        gives(m, val(end), e) && gives(m, val(start), t) && #[trigger] call_ensures(
            A::minus,
            (m, e, t),
            span,
        );
    assert(v == width && e == end && t == start);
    let exact = units(end) - units(start);
    lemma_not_below(exact, 1, span, zero);
    lemma_not_above(exact, 1, span, unit);
    lemma_part_of_width(m, span, width, strip.width);
    assert(is_nearest(units(start) * units(width), one, from));
    assert(is_nearest(exact, 1, span));
}

/// A part of a width is no greater than the width.
proof fn lemma_part_of_width<A: Arith>(m: &A, ratio: Num, width: Num, r: Num)
    requires
        faithful(m),
        call_ensures(A::times, (m, ratio, width), r),
        ratio.is_finite(),
        width.is_finite(),
        0 <= units(ratio) <= one_units(),
        0 <= units(width),
    ensures
        is_nearest(units(ratio) * units(width), one_units(), r),
        0 <= units(r) <= units(width),
{
    let one = one_units();
    lemma_constants();
    lemma_most(width);
    let zero = Num { bits: 0 };
    lemma_units_grow(zero, zero);
    let exact = units(ratio) * units(width);
    assert(0 <= exact <= units(width) * one && units(width) * one <= most_units() * one)
        by (nonlinear_arith)
        requires
            exact == units(ratio) * units(width),
            0 <= units(ratio) <= one,
            0 <= units(width) <= most_units(),
            one > 0,
    ;
    assert(0 * one == 0);
    lemma_not_below(exact, one, r, zero);
    lemma_not_above(exact, one, r, width);
}

/// A clip is drawn at the time where it starts and on its lane, as wide as its duration, at least 8
/// pixels. Its selection and its zones are drawn at their ratios of that width.
pub proof fn a_clip_is_drawn_at_its_time_and_on_its_lane<A: Arith>(
    m: &A,
    state: &TimelineState,
    clip: &AudioClip,
    drawn: &ClipBox,
    pixels: Num,
    x: Num,
    length: Num,
)
    requires
        faithful(m),
        is_clip_box(m, state, clip, drawn),
        clip.lane <= 0x100_0000_0000,
        clip.start_time_secs.is_finite(),
        clip.duration_secs.is_finite(),
        state.pixels_per_second.is_finite(),
        takes(clip.start_time_secs, state.pixels_per_second, pixels),
        x.is_finite(),
        is_right_of_headers(x, pixels),
        units(pixels) >= 0,
        takes(clip.duration_secs, state.pixels_per_second, length),
        units(length) >= 0,
        4 * (units(x) + units(length)) <= most_units(),
    ensures
        units(drawn.x) == units(x),
        units(drawn.y) == (28 + 86 * clip.lane + 12) * one_units(),
        units(drawn.width) == (if units(length) < 8 * one_units() {
            8 * one_units()
        } else {
            units(length)
        }),
        drawn.selected == (state.selected_clip_id == Some(clip.id)),
        match clip.selection {
            None => drawn.selection is None,
            Some((start, end)) => 0 <= start.order() <= end.order() <= ONE ==> drawn.selection
                is Some && is_strip_between(
                drawn.x,
                drawn.width,
                start,
                end,
                drawn.selection->0,
            ),
        },
        drawn.zones@.len() == clip.effect_zones@.len(),
        forall|i: int|
            0 <= i < drawn.zones@.len() && 0 <= clip.effect_zones@[i].start.order()
                <= clip.effect_zones@[i].end.order() <= ONE ==> is_strip_between(
                drawn.x,
                drawn.width,
                clip.effect_zones@[i].start,
                clip.effect_zones@[i].end,
                (#[trigger] drawn.zones@[i]).0,
            ) && drawn.zones@[i].1 == clip.effect_zones@[i].color,
{
    let pps = state.pixels_per_second;
    let one = one_units();
    lemma_constants();
    a_time_is_drawn_where_the_mouse_finds_it(
        m,
        clip.start_time_secs,
        pps,
        pixels,
        x,
        drawn.x,
    );
    let (n, k) = (count(clip.lane as u64), clip.lane as int);
    lemma_whole_sizes(m, clip.lane as u64);
    lemma_whole_times(m, n, lit(TRACK_HEIGHT), k, 86);
    lemma_whole_plus(m, lit(RULER_HEIGHT), n * lit(TRACK_HEIGHT), 28, k * 86);
    lemma_whole_plus(m, lane_y_formula(clip.lane), lit(CLIP_MARGIN_Y), 28 + k * 86, 12);
    vstd::arithmetic::power2::lemma2_to64();
    let least = Num { bits: LEAST_CLIP_WIDTH };
    lemma_above_one(LEAST_CLIP_WIDTH as int, 3, 8);
    let f = val(clip.duration_secs) * val(pps);
    let w = choose|w: Num| gives(m, f, w) && drawn.width == #[trigger] w.max(least);
    lemma_takes(m, val(clip.duration_secs), clip.duration_secs, pps, length, w);
    lemma_units_grow(w, least);
    lemma_units_grow(least, w);
    lemma_header();
    assert(8 * one <= units(x));
    assert(units(drawn.width) <= units(x) + units(length));
    if let Some((start, end)) = clip.selection {
        if 0 <= start.order() <= end.order() <= ONE {
            lemma_strip(m, drawn.x, drawn.width, start, end, drawn.selection->0);
        }
    }
    assert forall|i: int|
        0 <= i < drawn.zones@.len() && 0 <= clip.effect_zones@[i].start.order()
            <= clip.effect_zones@[i].end.order() <= ONE implies is_strip_between(
        drawn.x,
        drawn.width,
        clip.effect_zones@[i].start,
        clip.effect_zones@[i].end,
        (#[trigger] drawn.zones@[i]).0,
    ) && drawn.zones@[i].1 == clip.effect_zones@[i].color by {
        lemma_strip(
            m,
            drawn.x,
            drawn.width,
            clip.effect_zones@[i].start,
            clip.effect_zones@[i].end,
            drawn.zones@[i].0,
        );
    }
}

/// The bars of a waveform are spread evenly over the amplitudes: bar `i` of `n` shows the amplitude
/// `j` in whose share of all it starts. Two bars at the same height that show equal amplitudes
/// reach equally far.
pub proof fn bars_show_the_amplitudes_in_step<A: Arith>(
    m: &A,
    amps: Seq<Sample>,
    x: Num,
    y: Num,
    width: Num,
    n: usize,
    i: int,
    j: int,
    bar: Bar,
    other_amps: Seq<Sample>,
    other_x: Num,
    other_width: Num,
    other_n: usize,
    other_i: int,
    other_j: int,
    other_bar: Bar,
)
    requires
        functional(m),
        is_bar(m, amps, x, y, width, n, i, bar),
        is_bar(m, other_amps, other_x, y, other_width, other_n, other_i, other_bar),
        0 <= i < n,
        0 <= other_i < other_n,
        j * n <= i * amps.len() < (j + 1) * n,
        other_j * other_n <= other_i * other_amps.len() < (other_j + 1) * other_n,
        amps[j] == other_amps[other_j],
    ensures
        bar.top == other_bar.top,
        bar.bottom == other_bar.bottom,
{
    lemma_quotient(i * amps.len(), n as int, j);
    lemma_quotient(other_i * other_amps.len(), other_n as int, other_j);
    let amp = amps[j];
    let g = val(y) + lit(HALF_WAVE_HEIGHT);
    let f = (Formula::Widened(amp) * lit(WAVE_HEIGHT) * lit(BAR_SHARE)).max(Num { bits: ONE });
    let (middle, height) = choose|middle: Num, height: Num|
        {
            &&& #[trigger] gives(m, g, middle)
            &&& #[trigger] gives(m, f, height)
            &&& gives(m, val(middle) - val(height), bar.top)
            &&& gives(m, val(middle) + val(height), bar.bottom)
        };
    let (other_middle, other_height) = choose|middle: Num, height: Num|
        {
            &&& #[trigger] gives(m, g, middle)
            &&& #[trigger] gives(m, f, height)
            &&& gives(m, val(middle) - val(height), other_bar.top)
            &&& gives(m, val(middle) + val(height), other_bar.bottom)
        };
    formula_has_one_value(m, g, middle, other_middle);
    formula_has_one_value(m, f, height, other_height);
    formula_has_one_value(m, val(middle) - val(height), bar.top, other_bar.top);
    formula_has_one_value(m, val(middle) + val(height), bar.bottom, other_bar.bottom);
}

/// The whole part of a quotient by what lies around it.
proof fn lemma_quotient(x: int, n: int, j: int)
    requires
        n > 0,
        j * n <= x < (j + 1) * n,
    ensures
        x / n == j,
{
    vstd::arithmetic::div_mod::lemma_fundamental_div_mod(x, n);
    vstd::arithmetic::div_mod::lemma_mod_bound(x, n);
    let q = x / n;
    assert(q == j) by (nonlinear_arith)
        requires
            x == n * q + x % n,
            0 <= x % n < n,
            j * n <= x < (j + 1) * n,
    ;
}

/// Whether a sample is the greatest magnitude of the samples `from..to`, or the value with the bits
/// `least` where none is greater.
pub open spec fn is_peak(p: Sample, samples: Seq<Sample>, from: int, to: int, least: u32) -> bool {
    &&& p.order() >= least
    &&& forall|j: int| from <= j < to ==> (#[trigger] samples[j]).magnitude() <= p.order()
    &&& p.bits == least || exists|j: int|
        from <= j < to && (#[trigger] samples[j]).magnitude() == p.order()
}

/// The peak of samples.
proof fn lemma_peak(samples: Seq<Sample>)
    requires
        forall|j: int| 0 <= j < samples.len() ==> (#[trigger] samples[j]).is_number(),
    ensures
        is_peak(peak(samples), samples, 0, samples.len() as int, SAMPLE_ZERO),
        peak(samples).is_number(),
    decreases samples.len(),
{
    if samples.len() > 0 {
        let rest = samples.drop_last();
        let n = samples.len() - 1;
        assert forall|j: int| 0 <= j < rest.len() implies (#[trigger] rest[j]).is_number() by {
            assert(rest[j] == samples[j]);
        }
        lemma_peak(rest);
        let (p, l) = (peak(rest), samples[n].abs());
        assert(l.order() == samples[n].magnitude() && l.is_number());
        assert forall|j: int| 0 <= j < samples.len() implies (#[trigger] samples[j]).magnitude()
            <= peak(samples).order() by {
            if j < n {
                assert(rest[j] == samples[j]);
            }
        }
        if peak(samples) == p && p.bits != SAMPLE_ZERO {
            let j = choose|j: int|
                0 <= j < rest.len() && (#[trigger] rest[j]).magnitude() == p.order();
            assert(samples[j].magnitude() == p.order());
        } else if peak(samples) != p {
            assert(samples[n].magnitude() == peak(samples).order());
        }
    }
}

/// The end of a chunk, at most that of all samples.
pub open spec fn part_end(total: int, size: int, i: int) -> int {
    if i * size < total {
        i * size
    } else {
        total
    }
}

/// The peak of a chunk.
proof fn lemma_chunk_peak(samples: Seq<Sample>, size: int, i: int)
    requires
        forall|j: int| 0 <= j < samples.len() ==> (#[trigger] samples[j]).is_number(),
        size > 0,
        i >= 0,
    ensures
        is_peak(
            peak(chunk(samples, size, i)),
            samples,
            part_end(samples.len() as int, size, i),
            part_end(samples.len() as int, size, i + 1),
            SAMPLE_ZERO,
        ),
        peak(chunk(samples, size, i)).is_number(),
        0 <= part_end(samples.len() as int, size, i) <= part_end(
            samples.len() as int,
            size,
            i + 1,
        ) <= samples.len(),
{
    let total = samples.len() as int;
    let (from, to) = (chunk_start(total, size, i), chunk_start(total, size, i + 1));
    assert(0 <= i * size <= (i + 1) * size) by (nonlinear_arith)
        requires
            i >= 0,
            size > 0,
    ;
    let part = chunk(samples, size, i);
    assert forall|j: int| 0 <= j < part.len() implies (#[trigger] part[j]).is_number() by {
        assert(part[j] == samples[from + j]);
    }
    lemma_peak(part);
    let p = peak(part);
    assert forall|j: int| from <= j < to implies (#[trigger] samples[j]).magnitude()
        <= p.order() by {
        assert(part[j - from] == samples[j]);
    }
    if p.bits != SAMPLE_ZERO {
        let j = choose|j: int| 0 <= j < part.len() && (#[trigger] part[j]).magnitude() == p.order();
        assert(samples[from + j].magnitude() == p.order());
    }
}

/// The loudest of the first chunks.
proof fn lemma_loudest(samples: Seq<Sample>, size: int, n: nat)
    requires
        forall|j: int| 0 <= j < samples.len() ==> (#[trigger] samples[j]).is_number(),
        size > 0,
    ensures
        is_peak(
            loudest(samples, size, n),
            samples,
            0,
            part_end(samples.len() as int, size, n as int),
            SAMPLE_THOUSANDTH,
        ),
        loudest(samples, size, n).is_number(),
    decreases n,
{
    let total = samples.len() as int;
    if n == 0 {
        assert(0 * size == 0);
    } else {
        let k = (n - 1) as nat;
        lemma_loudest(samples, size, k);
        lemma_chunk_peak(samples, size, k as int);
        let (l, p) = (loudest(samples, size, k), peak(chunk(samples, size, k as int)));
        let r = loudest(samples, size, n);
        let (middle, to) = (part_end(total, size, k as int), part_end(total, size, n as int));
        assert(r.order() >= l.order() && r.order() >= p.order());
        assert forall|j: int| 0 <= j < to implies (#[trigger] samples[j]).magnitude()
            <= r.order() by {
            if j < middle {
                assert(samples[j].magnitude() <= l.order());
            } else {
                assert(samples[j].magnitude() <= p.order());
            }
        }
        if r.bits != SAMPLE_THOUSANDTH {
            if r == l {
                let j = choose|j: int|
                    0 <= j < middle && (#[trigger] samples[j]).magnitude() == l.order();
                assert(samples[j].magnitude() == r.order());
            } else {
                assert(r == p && p.order() > 0);
                let j = choose|j: int|
                    middle <= j < to && (#[trigger] samples[j]).magnitude() == p.order();
                assert(samples[j].magnitude() == r.order());
            }
        }
    }
}

/// Amplitude `i` of a waveform is the greatest magnitude among the samples of part `i`, divided by
/// the greatest of all parts, at least a thousandth. The parts have equal lengths: as many samples
/// as there are for each amplitude, and one where there are fewer samples than amplitudes.
pub proof fn an_amplitude_is_the_peak_of_its_part<A: Arith>(
    m: &A,
    samples: Seq<Sample>,
    n: nat,
    amps: Seq<Sample>,
    size: int,
    i: int,
)
    requires
        are_amplitudes(m, samples, n, amps),
        samples.len() > 0,
        forall|j: int| 0 <= j < samples.len() ==> (#[trigger] samples[j]).is_number(),
        0 <= i < n,
        size * n <= samples.len() < (size + 1) * n || (samples.len() < n && size == 1),
        size >= 1,
    ensures
        amps.len() == n,
        exists|top: Sample, all: Sample|
            {
                let total = samples.len() as int;
                &&& is_peak(
                    top,
                    samples,
                    part_end(total, size, i),
                    part_end(total, size, i + 1),
                    SAMPLE_ZERO,
                )
                &&& is_peak(all, samples, 0, part_end(total, size, n as int), SAMPLE_THOUSANDTH)
                &&& #[trigger] call_ensures(A::sample_over, (m, top, all), amps[i])
            },
{
    let total = samples.len() as int;
    if total < n {
        assert(total / n as int == 0) by (nonlinear_arith)
            requires
                0 <= total < n,
        ;
        assert(size == 1) by (nonlinear_arith)
            requires
                size >= 1,
                0 <= total < n,
                size * n <= total || size == 1,
        ;
    } else {
        lemma_quotient(total, n as int, size);
    }
    assert(size == chunk_size(total, n as int));
    lemma_chunk_peak(samples, size, i);
    lemma_loudest(samples, size, n);
    let f = sample(peak(chunk(samples, size, i))) / sample(loudest(samples, size, n));
    assert(amps[i] == amps[i]);
    assert(sample_gives(m, f, amps[i]));
    let (a, b) = choose|a: Sample, b: Sample|
        sample_gives(m, sample(peak(chunk(samples, size, i))), a) && sample_gives(
            m,
            sample(loudest(samples, size, n)),
            b,
        ) && #[trigger] call_ensures(A::sample_over, (m, a, b), amps[i]);
    assert(a == peak(chunk(samples, size, i)) && b == loudest(samples, size, n));
}

/// A mark stands at its second: as far right of the headers as that takes pixels. Seconds that are
/// a multiple of five are the major ones.
pub proof fn a_mark_stands_at_its_second<A: Arith>(
    m: &A,
    pixels_per_second: Num,
    second: int,
    pixels: Num,
    x: Num,
    mark: Mark,
)
    requires
        faithful(m),
        is_mark(m, pixels_per_second, second, mark),
        0 <= second < i32::MAX,
        pixels_per_second.is_finite(),
        pixels.is_finite(),
        units(pixels) == second * units(pixels_per_second),
        x.is_finite(),
        is_right_of_headers(x, pixels),
    ensures
        mark.second == second,
        mark.major == (second % 5 == 0),
        units(mark.x) == units(x),
{
    let one = one_units();
    let f = count(second as u64) * val(pixels_per_second);
    let (h, p) = choose|h: Num, p: Num|
        gives(m, lit(HEADER_WIDTH), h) && gives(m, f, p) && #[trigger] call_ensures(
            A::plus,
            (m, h, p),
            mark.x,
        );
    let (c, b) = choose|c: Num, b: Num|
        gives(m, count(second as u64), c) && gives(m, val(pixels_per_second), b)
            && #[trigger] call_ensures(A::times, (m, c, b), p);
    assert(h.bits == HEADER_WIDTH && b == pixels_per_second);
    lemma_constants();
    lemma_header();
    lemma_count(m, second as u64, c);
    lemma_most(pixels);
    let u = units(pixels);
    let exact = units(c) * units(b);
    assert(exact == u * one) by (nonlinear_arith)
        requires
            exact == (second * one) * units(b),
            u == second * units(b),
    ;
    assert(-(most_units() * one) <= u * one <= most_units() * one) by (nonlinear_arith)
        requires
            -most_units() <= u <= most_units(),
            one > 0,
    ;
    lemma_exact(exact, one, p, pixels);
    lemma_most(x);
    lemma_exact(units(x), 1, mark.x, x);
}

/// The marks are those of all seconds from 0 to 10 past the end of the timeline, or of every fifth.
pub proof fn the_marks_reach_10_seconds_past_the_end<A: Arith>(
    m: &A,
    state: &TimelineState,
    coarse: bool,
    marks: Seq<Mark>,
    k: int,
)
    requires
        faithful(m),
        are_marks(m, state, coarse, marks),
        0 <= k < marks.len(),
        forall|duration: Num| #[trigger]
            state.is_duration(m, duration) ==> duration.is_finite() && 0 <= units(duration)
                <= 0x1000_0000 * one_units(),
    ensures
        marks[k].second == (if coarse {
            5 * k
        } else {
            k
        }),
        exists|duration: Num, end: Num, last: int|
            {
                &&& #[trigger] state.is_duration(m, duration)
                &&& #[trigger] is_nearest(units(duration) + 10 * one_units(), 1, end)
                &&& #[trigger] (last * one_units()) <= units(end) < (last + 1) * one_units()
                &&& marks.len() == 1 + (if coarse {
                    last / 5
                } else {
                    last
                })
            },
{
    let one = one_units();
    lemma_constants();
    vstd::arithmetic::power2::lemma2_to64();
    let (duration, last) = choose|duration: Num, last: usize|
        {
            &&& #[trigger] state.is_duration(m, duration)
            &&& #[trigger] gives_count(m, val(duration) + lit(MARKS_PAST_END), last)
            &&& marks.len() == 1 + (if coarse {
                last / 5
            } else {
                last
            })
            &&& forall|k: int|
                0 <= k < marks.len() ==> is_mark(
                    m,
                    state.pixels_per_second,
                    marked_second(coarse, k),
                    #[trigger] marks[k],
                )
        };
    let f = val(duration) + lit(MARKS_PAST_END);
    let end = choose|v: Num| #[trigger] gives(m, f, v) && call_ensures(A::to_count, (m, v), last);
    let (a, b) = choose|a: Num, b: Num|
        gives(m, val(duration), a) && gives(m, lit(MARKS_PAST_END), b)
            && #[trigger] call_ensures(A::plus, (m, a, b), end);
    assert(a == duration && b.bits == MARKS_PAST_END);
    lemma_above_one(MARKS_PAST_END as int, 3, 10);
    let (low, high) = (lemma_whole(0), lemma_whole(0x1000_000a));
    lemma_most(high);
    assert(0 * one == 0);
    let exact = units(duration) + 10 * one;
    assert(is_nearest(exact, 1, end));
    lemma_not_below(exact, 1, end, low);
    lemma_not_above(exact, 1, end, high);
    let u = units(end);
    lemma_whole_part(u, 0, 0x1000_000a);
    vstd::arithmetic::div_mod::lemma_fundamental_div_mod(u, one);
    vstd::arithmetic::div_mod::lemma_mod_bound(u, one);
    let n = last as int;
    assert(n == u / one);
    assert(n * one <= u < (n + 1) * one) by (nonlinear_arith)
        requires
            u == one * n + u % one,
            0 <= u % one < one,
    ;
    assert(is_mark(m, state.pixels_per_second, marked_second(coarse, k), marks[k]));
}

/// A lane is drawn below the ruler and the lanes before it, 86 pixels high.
pub proof fn a_lane_is_drawn_below_the_lanes_before_it<A: Arith>(
    m: &A,
    lane: usize,
    band: LaneBand,
)
    requires
        faithful(m),
        is_lane_band(m, lane, band),
        lane <= 0x100_0000_0000,
    ensures
        units(band.top) == (28 + 86 * lane) * one_units(),
        units(band.bottom) == (28 + 86 * (lane + 1)) * one_units(),
        units(band.label_y) == (28 + 86 * lane + 30) * one_units(),
        band.number == lane + 1,
        band.even == (lane % 2 == 0),
{
    let (n, k) = (count(lane as u64), lane as int);
    lemma_constants();
    lemma_whole_sizes(m, lane as u64);
    lemma_whole_times(m, n, lit(TRACK_HEIGHT), k, 86);
    lemma_whole_plus(m, lit(RULER_HEIGHT), n * lit(TRACK_HEIGHT), 28, k * 86);
    assert(gives(m, lane_y_formula(lane), band.top));
    assert(is_whole(m, val(band.top), 28 + k * 86));
    vstd::arithmetic::power2::lemma2_to64();
    lemma_above_one(LANE_LABEL_Y as int, 4, 30);
    assert(is_whole(m, lit(LANE_LABEL_Y), 30));
    lemma_whole_plus(m, val(band.top), lit(TRACK_HEIGHT), 28 + k * 86, 86);
    lemma_whole_plus(m, val(band.top), lit(LANE_LABEL_Y), 28 + k * 86, 30);
}

/// The name of a clip stands 8 pixels right of the clip's left edge and 17 below its upper one, and
/// the waveform starts 22 pixels below the upper edge.
pub proof fn a_clip_is_labelled_inside_its_box<A: Arith>(
    m: &A,
    state: &TimelineState,
    clip: &AudioClip,
    drawn: &ClipBox,
)
    requires
        faithful(m),
        is_clip_box(m, state, clip, drawn),
        clip.lane <= 0x100_0000_0000,
        drawn.x.is_finite(),
        0 <= units(drawn.x) <= 0x10_0000_0000_0000 * one_units(),
    ensures
        is_nearest(units(drawn.x) + 8 * one_units(), 1, drawn.name_x),
        units(drawn.name_y) == (28 + 86 * clip.lane + 12 + 17) * one_units(),
        units(drawn.wave_y) == (28 + 86 * clip.lane + 12 + 22) * one_units(),
{
    let (n, k) = (count(clip.lane as u64), clip.lane as int);
    lemma_constants();
    lemma_whole_sizes(m, clip.lane as u64);
    lemma_whole_times(m, n, lit(TRACK_HEIGHT), k, 86);
    lemma_whole_plus(m, lit(RULER_HEIGHT), n * lit(TRACK_HEIGHT), 28, k * 86);
    lemma_whole_plus(m, lane_y_formula(clip.lane), lit(CLIP_MARGIN_Y), 28 + k * 86, 12);
    assert(is_whole(m, val(drawn.y), 40 + k * 86));
    vstd::arithmetic::power2::lemma2_to64();
    lemma_above_one(NAME_Y as int, 4, 17);
    assert(is_whole(m, lit(NAME_Y), 17));
    lemma_whole_plus(m, val(drawn.y), lit(NAME_Y), 40 + k * 86, 17);
    lemma_whole_plus(m, val(drawn.y), lit(GRIP_HEIGHT), 40 + k * 86, 22);
    lemma_above_one(NAME_X as int, 3, 8);
    let (a, b) = choose|a: Num, b: Num|
        gives(m, val(drawn.x), a) && gives(m, lit(NAME_X), b) && #[trigger] call_ensures(
            A::plus,
            (m, a, b),
            drawn.name_x,
        );
    assert(a == drawn.x && b.bits == NAME_X);
    let high = lemma_whole(0x10_0000_0000_0008);
    lemma_most(high);
}

/// The bars of a waveform stand side by side in equal steps that share the width but for 10 pixels,
/// from 5 pixels right of the left edge on. `room` is that width, `step` one step, `left` where
/// the first bar stands, `at` how far bar `i` stands behind it and `place` where that is.
pub proof fn bars_stand_side_by_side<A: Arith>(
    m: &A,
    amps: Seq<Sample>,
    x: Num,
    y: Num,
    width: Num,
    n: usize,
    i: int,
    bar: Bar,
    room: Num,
    step: Num,
    left: Num,
    at: Num,
    place: Num,
)
    requires
        faithful(m),
        is_bar(m, amps, x, y, width, n, i, bar),
        0 <= i < n <= 0x10_0000_0000,
        x.is_finite(),
        width.is_finite(),
        room.is_finite(),
        units(room) == units(width) - 10 * one_units(),
        units(room) >= one_units(),
        step.is_finite(),
        units(step) * n == units(room),
        left.is_finite(),
        units(left) == units(x) + 5 * one_units(),
        at.is_finite(),
        units(at) == i * units(step),
        place.is_finite(),
        units(place) == units(left) + units(at),
    ensures
        units(bar.x) == units(x) + 5 * one_units() + i * units(step),
{
    let one = one_units();
    let unit = Num { bits: ONE };
    lemma_constants();
    vstd::arithmetic::power2::lemma2_to64();
    lemma_above_one(BARS_X as int, 2, 5);
    lemma_above_one(BARS_NARROWING as int, 3, 10);
    let narrowed = val(width) - lit(BARS_NARROWING);
    let per_bar = narrowed.max(unit) / count(n as u64);
    let first = val(x) + lit(BARS_X);
    let moved = count(i as u64) * per_bar;
    assert(gives(m, first + moved, bar.x));
    let (a, b) = choose|a: Num, b: Num|
        gives(m, first, a) && gives(m, moved, b) && #[trigger] call_ensures(
            A::plus,
            (m, a, b),
            bar.x,
        );
    let (c, d) = choose|c: Num, d: Num|
        gives(m, val(x), c) && gives(m, lit(BARS_X), d) && #[trigger] call_ensures(
            A::plus,
            (m, c, d),
            a,
        );
    assert(c == x && d.bits == BARS_X);
    lemma_most(left);
    lemma_exact(units(left), 1, a, left);
    let (k, s) = choose|k: Num, s: Num|
        gives(m, count(i as u64), k) && gives(m, per_bar, s) && #[trigger] call_ensures(
            A::times,
            (m, k, s),
            b,
        );
    let (r, t) = choose|r: Num, t: Num|
        gives(m, narrowed.max(unit), r) && gives(m, count(n as u64), t) && #[trigger] call_ensures(
            A::over,
            (m, r, t),
            s,
        );
    let w = choose|w: Num| gives(m, narrowed, w) && r == #[trigger] w.max(unit);
    let (e, f) = choose|e: Num, f: Num|
        gives(m, val(width), e) && gives(m, lit(BARS_NARROWING), f) && #[trigger] call_ensures(
            A::minus,
            (m, e, f),
            w,
        );
    assert(e == width && f.bits == BARS_NARROWING);
    lemma_most(room);
    lemma_exact(units(room), 1, w, room);
    lemma_units_grow(w, unit);
    lemma_units_grow(unit, w);
    assert(units(r) == units(room));
    lemma_count(m, n as u64, t);
    lemma_count(m, i as u64, k);
    let zero = Num { bits: 0 };
    lemma_units_grow(zero, t);
    lemma_units_grow(t, zero);
    assert(units(t) >= one) by (nonlinear_arith)
        requires
            units(t) == n * one,
            n >= 1,
            one > 0,
    ;
    assert(0 <= units(r) * one <= most_units() * units(t)) by (nonlinear_arith)
        requires
            0 <= units(r) <= most_units(),
            units(t) >= one,
            one > 0,
    ;
    assert(units(step) * units(t) == units(r) * one) by (nonlinear_arith)
        requires
            units(t) == n * one,
            units(step) * n == units(r),
    ;
    lemma_exact(units(r) * one, units(t), s, step);
    lemma_most(at);
    let exact = units(k) * units(s);
    assert(exact == units(at) * one) by (nonlinear_arith)
        requires
            exact == (i * one) * units(step),
            units(at) == i * units(step),
    ;
    let u = units(at);
    assert(-(most_units() * one) <= u * one <= most_units() * one) by (nonlinear_arith)
        requires
            -most_units() <= u <= most_units(),
            one > 0,
    ;
    lemma_exact(exact, one, b, at);
    lemma_most(place);
    lemma_exact(units(place), 1, bar.x, place);
}

/// A waveform has as many bars as its clip is pixels wide, and no more than there are amplitudes.
pub proof fn a_waveform_has_a_bar_per_pixel<A: Arith>(
    m: &A,
    clip: &AudioClip,
    x: Num,
    y: Num,
    width: Num,
    wave: Option<Waveform>,
)
    requires
        faithful(m),
        is_waveform(m, clip, x, y, width, wave),
        0 < clip.amplitudes@.len() <= 0x1000_0000,
        width.is_finite(),
        units(width) >= 0,
    ensures
        ({
            let pixels = units(width) / one_units();
            let most = clip.amplitudes@.len() as int;
            let bars = if pixels < most {
                pixels
            } else {
                most
            };
            match wave {
                None => bars == 0,
                Some(w) => bars > 0 && w.bars@.len() == bars,
            }
        }),
{
    let one = one_units();
    let amps = clip.amplitudes@;
    lemma_constants();
    let (most, n) = choose|most: Num, n: usize|
        {
            &&& #[trigger] gives(m, count(amps.len() as u64), most)
            &&& #[trigger] gives_count(m, val(width.min(most)), n)
            &&& if n == 0 {
                wave is None
            } else {
                wave matches Some(w) && are_bars(m, amps, x, y, width, n, w.bars@)
            }
        };
    lemma_count(m, amps.len() as u64, most);
    lemma_units_grow(width, most);
    lemma_units_grow(most, width);
    let v = choose|v: Num| #[trigger]
        gives(m, val(width.min(most)), v) && call_ensures(A::to_count, (m, v), n);
    assert(v == width.min(most));
    let k = amps.len() as int;
    if units(width) < units(most) {
        let u = units(width);
        vstd::arithmetic::div_mod::lemma_fundamental_div_mod(u, one);
        vstd::arithmetic::div_mod::lemma_mod_bound(u, one);
        vstd::arithmetic::div_mod::lemma_div_pos_is_pos(u, one);
        let q = u / one;
        assert(q < k) by (nonlinear_arith)
            requires
                u == one * q + u % one,
                0 <= u % one < one,
                u < k * one,
        ;
    } else {
        lemma_whole_part(units(most), k, k);
        vstd::arithmetic::div_mod::lemma_div_is_ordered(k * one, units(width), one);
        vstd::arithmetic::div_mod::lemma_div_by_multiple(k, one);
    }
}

} // verus!
