//! What the operations mean in seconds, frames, samples and pixels.
//!
//! The laws speak of what values are worth, under an arithmetic that is `faithful`, and of
//! positions among samples. Where a time falls on a frame, the frame is exact. Between two frames
//! rounding may take the next one, and never another.
use vstd::prelude::*;

use crate::arith::{
    count, gives, gives_count, gives_pcm, sample, sample_gives, sample_lit, val, Arith, Formula,
};
use crate::clip::{aligned, duration_formula, position_formula, present, AudioClip};
use crate::exact::{
    distance, faithful, is_nearest, lemma_above_one, lemma_constants, lemma_count, lemma_exact,
    lemma_most, lemma_not_above, lemma_not_below, lemma_step, lemma_units_grow, lemma_unscale,
    lemma_whole, most_units, one_units, spacing, units, worth, BINADE,
};
use crate::laws::lemma_aligned;
use crate::num::{Num, Sample, ONE, SAMPLE_MINUS_ONE, SAMPLE_ONE, SAMPLE_ZERO, ZERO};
use crate::playback::{
    are_exported, are_heard, are_placements, contribution, ignored_clips, is_clip_source,
    is_exported, is_frame_at, is_heard, is_mixdown, is_mixed, is_placement, lesser, rest_formula,
    ClipSource, Mixdown, Placement, SAMPLE_PCM_MAX,
};
use crate::timeline::{are_ends, latest, TimelineState, SHORTEST_TIMELINE};

verus! {

/// The frame that is heard so many seconds from the start, at the given rate.
pub open spec fn frame_under(secs: Num, rate: u32) -> int {
    units(secs) * rate / one_units()
}

/// Whether a frame starts exactly so many seconds from the start.
pub open spec fn is_on_frame(secs: Num, rate: u32) -> bool {
    units(secs) * rate == frame_under(secs, rate) * one_units()
}

/// Whether frames up to `k` and one more can be told apart and counted in samples.
pub open spec fn is_countable(k: int, channels: u16) -> bool {
    (k + 1) * channels <= 0x20_0000_0000_0000 && (k + 1) * channels <= usize::MAX
}

/// Whether a position among samples is that of the frame at a time: the position of a frame start
/// is exact, any other lies between those of the two frames around the time.
pub open spec fn is_near_frame(at: int, secs: Num, rate: u32, channels: u16) -> bool {
    let k = frame_under(secs, rate);
    &&& k * channels <= at <= (k + 1) * channels
    &&& is_on_frame(secs, rate) ==> at == k * channels
}

/// Where a later time stands no earlier frame stands.
pub(crate) proof fn lemma_frame_grows(a: Num, b: Num, rate: u32)
    requires
        units(a) <= units(b),
    ensures
        frame_under(a, rate) <= frame_under(b, rate),
        units(a) >= 0 ==> frame_under(a, rate) >= 0,
{
    lemma_constants();
    let one = one_units();
    assert(units(a) * rate <= units(b) * rate) by (nonlinear_arith)
        requires
            units(a) <= units(b),
            rate >= 0,
    ;
    vstd::arithmetic::div_mod::lemma_div_is_ordered(units(a) * rate, units(b) * rate, one);
    if units(a) >= 0 {
        assert(units(a) * rate >= 0) by (nonlinear_arith)
            requires
                units(a) >= 0,
                rate >= 0,
        ;
        vstd::arithmetic::div_mod::lemma_div_pos_is_pos(units(a) * rate, one);
    }
}

/// The position among samples of a time that a formula gives.
pub(crate) proof fn lemma_position<A: Arith>(
    m: &A,
    f: Formula,
    rate: u32,
    channels: u16,
    at: usize,
) -> (v: Num)
    requires
        faithful(m),
        gives_count(m, position_formula(f, rate, channels), at),
    ensures
        gives(m, f, v),
        v.is_finite() && units(v) >= 0 && channels > 0 && is_countable(
            frame_under(v, rate),
            channels,
        ) ==> is_near_frame(at as int, v, rate, channels),
{
    let one = one_units();
    let r = count(rate as u64);
    let c = count(channels as u64);
    let p = choose|p: Num| #[trigger]
        gives(m, f * r * c, p) && call_ensures(A::to_count, (m, p), at);
    let (q, d) = choose|q: Num, d: Num|
        gives(m, f * r, q) && gives(m, c, d) && #[trigger] call_ensures(A::times, (m, q, d), p);
    let (v, e) = choose|v: Num, e: Num|
        gives(m, f, v) && gives(m, r, e) && #[trigger] call_ensures(A::times, (m, v, e), q);
    if v.is_finite() && units(v) >= 0 && channels > 0 && is_countable(
        frame_under(v, rate),
        channels,
    ) {
        lemma_constants();
        lemma_count(m, rate as u64, e);
        lemma_count(m, channels as u64, d);
        lemma_frame_grows(v, v, rate);
        let k = frame_under(v, rate);
        let x = units(v) * rate;
        vstd::arithmetic::div_mod::lemma_fundamental_div_mod(x, one);
        assert(k * one <= x < (k + 1) * one && (x == k * one || is_on_frame(v, rate) == false))
            by (nonlinear_arith)
            requires
                x == one * k + x % one,
                0 <= x % one < one,
                is_on_frame(v, rate) ==> x == k * one,
        ;
        assert(k + 1 <= (k + 1) * channels) by (nonlinear_arith)
            requires
                k >= 0,
                channels > 0,
        ;
        // Seconds times the rate lie between the two frames.
        lemma_frames_of(m, v, e, q, k, rate as int, x);
        // So many samples per frame later, they still do.
        lemma_samples_of(m, q, d, p, k, channels as int);
        assert(at >= k * channels && at <= (k + 1) * channels && (is_on_frame(v, rate) ==> at == k
            * channels)) by {
            let lo = k * channels;
            let hi = (k + 1) * channels;
            assert(lo * one <= units(p) <= hi * one);
            assert(lo >= 0) by (nonlinear_arith)
                requires
                    lo == k * channels,
                    k >= 0,
                    channels >= 0,
            ;
            lemma_whole_part(units(p), lo, hi);
            assert(at == units(p) / one);
            if is_on_frame(v, rate) {
                lemma_whole_part(units(p), lo, lo);
            }
        }
    }
    v
}

/// The whole part of what lies between two whole numbers lies between them.
pub(crate) proof fn lemma_whole_part(u: int, lo: int, hi: int)
    requires
        lo * one_units() <= u <= hi * one_units(),
        0 <= lo,
    ensures
        u >= 0,
        lo <= u / one_units() <= hi,
{
    lemma_constants();
    let one = one_units();
    assert(lo * one >= 0) by (nonlinear_arith)
        requires
            lo >= 0,
            one > 0,
    ;
    vstd::arithmetic::div_mod::lemma_div_is_ordered(lo * one, u, one);
    vstd::arithmetic::div_mod::lemma_div_is_ordered(u, hi * one, one);
    assert(hi >= lo) by (nonlinear_arith)
        requires
            lo * one <= hi * one,
            one > 0,
    ;
    vstd::arithmetic::div_mod::lemma_div_by_multiple(lo, one);
    vstd::arithmetic::div_mod::lemma_div_by_multiple(hi, one);
}

/// Seconds times a rate, rounded, lie between the frames around them.
proof fn lemma_frames_of<A: Arith>(m: &A, v: Num, e: Num, q: Num, k: int, rate: int, x: int)
    requires
        faithful(m),
        v.is_finite(),
        e.is_finite(),
        units(e) == rate * one_units(),
        x == units(v) * rate,
        0 <= k < 0x20_0000_0000_0000,
        k * one_units() <= x < (k + 1) * one_units(),
        call_ensures(A::times, (m, v, e), q),
    ensures
        q.is_finite(),
        k * one_units() <= units(q) <= (k + 1) * one_units(),
        x == k * one_units() ==> units(q) == k * one_units(),
{
    lemma_constants();
    let one = one_units();
    let lo = lemma_whole(k);
    let hi = lemma_whole(k + 1);
    lemma_most(hi);
    let exact = units(v) * units(e);
    assert(exact == x * one) by (nonlinear_arith)
        requires
            x == units(v) * rate,
            units(e) == rate * one,
            exact == units(v) * units(e),
    ;
    assert(0 <= exact <= most_units() * one && units(lo) * one <= exact <= units(hi) * one)
        by (nonlinear_arith)
        requires
            exact == x * one,
            0 <= k,
            k * one <= x < (k + 1) * one,
            units(lo) == k * one,
            units(hi) == (k + 1) * one,
            units(hi) <= most_units(),
            one > 0,
    ;
    assert(is_nearest(exact, one, q));
    lemma_not_below(exact, one, q, lo);
    lemma_not_above(exact, one, q, hi);
    if x == k * one {
        lemma_not_above(exact, one, q, lo);
    }
}

/// Frames times the channels, rounded, lie between the samples of the frames around them.
proof fn lemma_samples_of<A: Arith>(m: &A, q: Num, d: Num, p: Num, k: int, channels: int)
    requires
        faithful(m),
        q.is_finite(),
        d.is_finite(),
        units(d) == channels * one_units(),
        k >= 0,
        channels > 0,
        (k + 1) * channels <= 0x20_0000_0000_0000,
        k * one_units() <= units(q) <= (k + 1) * one_units(),
        call_ensures(A::times, (m, q, d), p),
    ensures
        p.is_finite(),
        (k * channels) * one_units() <= units(p) <= ((k + 1) * channels) * one_units(),
        units(q) == k * one_units() ==> units(p) == (k * channels) * one_units(),
{
    lemma_constants();
    let one = one_units();
    assert(0 <= k * channels <= (k + 1) * channels) by (nonlinear_arith)
        requires
            k >= 0,
            channels > 0,
    ;
    let lo = lemma_whole(k * channels);
    let hi = lemma_whole((k + 1) * channels);
    lemma_most(hi);
    let u = units(q);
    let exact = u * units(d);
    let t = u * channels;
    assert(exact == t * one) by (nonlinear_arith)
        requires
            exact == u * (channels * one),
            t == u * channels,
    ;
    assert((k * one) * channels <= t <= ((k + 1) * one) * channels) by (nonlinear_arith)
        requires
            t == u * channels,
            k * one <= u <= (k + 1) * one,
            channels > 0,
    ;
    assert((k * one) * channels == units(lo)) by (nonlinear_arith)
        requires
            units(lo) == (k * channels) * one,
    ;
    assert(((k + 1) * one) * channels == units(hi)) by (nonlinear_arith)
        requires
            units(hi) == ((k + 1) * channels) * one,
    ;
    assert(0 <= units(lo)) by (nonlinear_arith)
        requires
            units(lo) == (k * channels) * one,
            k * channels >= 0,
            one > 0,
    ;
    assert(units(lo) * one <= exact <= units(hi) * one && 0 <= exact <= most_units() * one)
        by (nonlinear_arith)
        requires
            exact == t * one,
            0 <= units(lo) <= t <= units(hi) <= most_units(),
            one > 0,
    ;
    assert(is_nearest(exact, one, p));
    lemma_not_below(exact, one, p, lo);
    lemma_not_above(exact, one, p, hi);
    if u == k * one {
        lemma_not_above(exact, one, p, lo);
    }
}

/// The start of the frame of a position that lies between two frame starts is one of them.
pub(crate) proof fn lemma_aligned_between(n: int, k: int, l: int, channels: int)
    requires
        channels > 0,
        0 <= k,
        k * channels <= n <= l * channels,
    ensures
        aligned(n, channels) % channels == 0,
        k * channels <= aligned(n, channels) <= l * channels,
        n == k * channels ==> aligned(n, channels) == k * channels,
        l == k + 1 ==> aligned(n, channels) == k * channels || aligned(n, channels) == l * channels,
{
    assert(k * channels >= 0) by (nonlinear_arith)
        requires
            k >= 0,
            channels > 0,
    ;
    lemma_aligned(n, channels);
    vstd::arithmetic::div_mod::lemma_div_is_ordered(k * channels, n, channels);
    vstd::arithmetic::div_mod::lemma_div_is_ordered(n, l * channels, channels);
    assert(l >= k) by (nonlinear_arith)
        requires
            k * channels <= l * channels,
            channels > 0,
    ;
    vstd::arithmetic::div_mod::lemma_div_by_multiple(k, channels);
    vstd::arithmetic::div_mod::lemma_div_by_multiple(l, channels);
    let j = n / channels;
    assert(k * channels <= j * channels <= l * channels) by (nonlinear_arith)
        requires
            k <= j <= l,
            channels > 0,
    ;
}

/// Whether samples are those of a buffer from a position on.
pub open spec fn is_part_from(part: Seq<Sample>, buffer: Seq<Sample>, start: int) -> bool {
    &&& 0 <= start
    &&& start + part.len() <= buffer.len()
    &&& forall|i: int| 0 <= i < part.len() ==> #[trigger] part[i] == buffer[start + i]
}

/// Whether a position among samples is the start of the frame at a time, at most `total`: exactly
/// where a frame starts then, else of that frame or the next.
pub open spec fn is_frame_start(at: int, secs: Num, rate: u32, channels: u16, total: int) -> bool {
    let k = frame_under(secs, rate);
    ||| at == (if k * channels < total {
        k * channels
    } else {
        total
    })
    ||| !is_on_frame(secs, rate) && at == (if (k + 1) * channels < total {
        (k + 1) * channels
    } else {
        total
    })
}

/// What is worth at least nothing.
pub open spec fn at_least_none(u: int) -> int {
    if u < 0 {
        0
    } else {
        u
    }
}

/// A rounded difference, not below zero, is nearest to the difference, not below zero.
proof fn lemma_nearest_max(exact: int, r: Num, w: Num)
    requires
        is_nearest(exact, 1, r),
        w == r.max(Num { bits: ZERO }),
    ensures
        is_nearest(at_least_none(exact), 1, w),
{
    let zero = Num { bits: ZERO };
    lemma_units_grow(zero, r);
    lemma_units_grow(r, zero);
    if exact < 0 {
        lemma_not_above(exact, 1, r, zero);
    } else {
        lemma_not_below(exact, 1, r, zero);
    }
    assert(units(w) == at_least_none(units(r)));
    assert(units(w) * 1 == units(w) && units(r) * 1 == units(r));
    assert forall|q: Num| q.is_finite() implies distance(units(w) * 1, at_least_none(exact))
        <= #[trigger] distance(units(q) * 1, at_least_none(exact)) by {
        assert(distance(units(r) * 1, exact) <= distance(units(q) * 1, exact));
    }
}

/// The source that plays a clip from some seconds into its audio starts with the frame that is
/// heard there. It goes on for the rest of the clip: the duration less what is skipped, where
/// `skipped` is how far the offset lies behind the offset that the clip itself has.
pub proof fn source_starts_at_the_frame_under_the_offset<A: Arith>(
    m: &A,
    clip: &AudioClip,
    offset: Num,
    delay: Num,
    source: &ClipSource,
    skipped: Num,
)
    requires
        faithful(m),
        is_clip_source(m, clip, offset, delay, source),
        clip.channels > 0,
        clip.offset_in_audio_secs.is_finite(),
        clip.duration_secs.is_finite(),
        offset.is_finite(),
        skipped.is_finite(),
        units(clip.duration_secs) >= 0,
        units(offset) >= 0,
        units(skipped) >= 0,
        units(skipped) == units(offset) - units(clip.offset_in_audio_secs),
        is_countable(frame_under(offset, clip.sample_rate), clip.channels),
        is_countable(frame_under(clip.duration_secs, clip.sample_rate), clip.channels),
    ensures
        source.channels == clip.channels,
        source.sample_rate == clip.sample_rate,
        source.delay_secs == delay,
        exists|start: int, rest: Num|
            {
                let total = clip.buffer@.len() as int;
                &&& #[trigger] is_part_from(source.samples@, clip.buffer@, start)
                &&& is_frame_start(start, offset, clip.sample_rate, clip.channels, total)
                &&& #[trigger] is_nearest(
                    at_least_none(units(clip.duration_secs) - units(skipped)),
                    1,
                    rest,
                )
                &&& is_frame_start(
                    source.samples@.len() as int,
                    rest,
                    clip.sample_rate,
                    clip.channels,
                    total - start,
                )
            },
{
    let rate = clip.sample_rate;
    let channels = clip.channels as int;
    let total = clip.buffer@.len() as int;
    let (at, length) = choose|at: usize, length: usize|
        {
            &&& #[trigger] gives_count(m, position_formula(val(offset), rate, clip.channels), at)
            &&& #[trigger] gives_count(
                m,
                position_formula(rest_formula(clip, offset), rate, clip.channels),
                length,
            )
            &&& {
                let start = lesser(aligned(at as int, channels), total);
                let end = lesser(start + aligned(length as int, channels), total);
                source.samples@ == clip.buffer@.subrange(start, end)
            }
        };
    let v = lemma_position(m, val(offset), rate, clip.channels, at);
    assert(v == offset);
    lemma_frame_grows(offset, offset, rate);
    let k = frame_under(offset, rate);
    lemma_aligned_between(at as int, k, k + 1, channels);
    let w = lemma_position(m, rest_formula(clip, offset), rate, clip.channels, length);
    lemma_rest(m, clip, offset, w, skipped);
    let zero = Num { bits: ZERO };
    lemma_units_grow(zero, zero);
    lemma_not_below(at_least_none(units(clip.duration_secs) - units(skipped)), 1, w, zero);
    lemma_not_above(
        at_least_none(units(clip.duration_secs) - units(skipped)),
        1,
        w,
        clip.duration_secs,
    );
    lemma_frame_grows(w, clip.duration_secs, rate);
    let b = frame_under(w, rate);
    let c = frame_under(clip.duration_secs, rate);
    assert((b + 1) * channels <= (c + 1) * channels && b * channels >= 0 && k * channels >= 0)
        by (nonlinear_arith)
        requires
            0 <= b <= c,
            0 <= k,
            channels > 0,
    ;
    lemma_aligned_between(length as int, b, b + 1, channels);
    let start = lesser(aligned(at as int, channels), total);
    let end = lesser(start + aligned(length as int, channels), total);
    assert(is_part_from(source.samples@, clip.buffer@, start));
}

/// How long a clip still sounds is its duration less what is skipped, not below zero.
proof fn lemma_rest<A: Arith>(m: &A, clip: &AudioClip, offset: Num, w: Num, skipped: Num)
    requires
        faithful(m),
        gives(m, rest_formula(clip, offset), w),
        clip.offset_in_audio_secs.is_finite(),
        clip.duration_secs.is_finite(),
        offset.is_finite(),
        skipped.is_finite(),
        units(clip.duration_secs) >= 0,
        units(skipped) >= 0,
        units(skipped) == units(offset) - units(clip.offset_in_audio_secs),
    ensures
        is_nearest(at_least_none(units(clip.duration_secs) - units(skipped)), 1, w),
{
    let zero = Num { bits: ZERO };
    let behind = val(offset) - val(clip.offset_in_audio_secs);
    let left = val(clip.duration_secs) - behind;
    let r = choose|r: Num| gives(m, left, r) && w == #[trigger] r.max(zero);
    let (a, b) = choose|a: Num, b: Num|
        gives(m, val(clip.duration_secs), a) && gives(m, behind, b) && #[trigger] call_ensures(
            A::minus,
            (m, a, b),
            r,
        );
    let (c, d) = choose|c: Num, d: Num|
        gives(m, val(offset), c) && gives(m, val(clip.offset_in_audio_secs), d)
            && #[trigger] call_ensures(A::minus, (m, c, d), b);
    assert(a == clip.duration_secs && c == offset && d == clip.offset_in_audio_secs);
    lemma_most(skipped);
    lemma_most(clip.duration_secs);
    lemma_exact(units(skipped), 1, b, skipped);
    lemma_nearest_max(units(a) - units(b), r, w);
}

/// What is heard of a clip that sounds after the playhead starts with the frame under the playhead,
/// or with the clip's first frame where the playhead stands before it. It sounds after the time
/// that the playhead takes to reach the clip, for as long as the clip then lasts.
pub proof fn the_frame_under_the_playhead_is_heard_first<A: Arith>(
    m: &A,
    clip: &AudioClip,
    end: Num,
    playhead: Num,
    heard: Option<ClipSource>,
)
    requires
        faithful(m),
        is_heard(m, clip, end, playhead, heard),
        playhead.lt(end),
        clip.channels > 0,
        clip.offset_in_audio_secs.order() == 0,
        clip.duration_secs.is_finite(),
        clip.start_time_secs.is_finite(),
        playhead.is_finite(),
        units(clip.duration_secs) >= 0,
        units(clip.start_time_secs) >= 0,
        units(playhead) >= 0,
        is_countable(frame_under(playhead, clip.sample_rate), clip.channels),
        is_countable(frame_under(clip.duration_secs, clip.sample_rate), clip.channels),
    ensures
        heard matches Some(source) && {
            &&& source.channels == clip.channels
            &&& source.sample_rate == clip.sample_rate
            &&& is_nearest(
                at_least_none(units(clip.start_time_secs) - units(playhead)),
                1,
                source.delay_secs,
            )
            &&& exists|offset: Num, start: int, rest: Num|
                {
                    let total = clip.buffer@.len() as int;
                    &&& #[trigger] is_nearest(
                        at_least_none(units(playhead) - units(clip.start_time_secs)),
                        1,
                        offset,
                    )
                    &&& #[trigger] is_part_from(source.samples@, clip.buffer@, start)
                    &&& is_frame_start(start, offset, clip.sample_rate, clip.channels, total)
                    &&& #[trigger] is_nearest(
                        at_least_none(units(clip.duration_secs) - units(offset)),
                        1,
                        rest,
                    )
                    &&& is_frame_start(
                        source.samples@.len() as int,
                        rest,
                        clip.sample_rate,
                        clip.channels,
                        total - start,
                    )
                }
        },
{
    let zero = Num { bits: ZERO };
    let start = clip.start_time_secs;
    let reached = (val(start) - val(playhead)).max(zero);
    let into = (val(playhead) - val(start)).max(zero);
    let (delay, offset) = choose|delay: Num, offset: Num|
        {
            &&& #[trigger] gives(m, reached, delay)
            &&& #[trigger] gives(m, val(clip.offset_in_audio_secs) + into, offset)
            &&& heard matches Some(s) && is_clip_source(m, clip, offset, delay, &s)
        };
    lemma_most(start);
    lemma_most(playhead);
    lemma_difference(m, start, playhead, delay);
    let (z, i) = choose|z: Num, i: Num|
        gives(m, val(clip.offset_in_audio_secs), z) && gives(m, into, i)
            && #[trigger] call_ensures(A::plus, (m, z, i), offset);
    assert(z == clip.offset_in_audio_secs);
    lemma_difference(m, playhead, start, i);
    lemma_units_grow(zero, z);
    lemma_units_grow(z, zero);
    lemma_most(i);
    lemma_exact(units(i), 1, offset, i);
    let exact = at_least_none(units(playhead) - units(start));
    assert(is_nearest(exact, 1, offset)) by {
        assert(units(offset) == units(i));
        assert forall|q: Num| q.is_finite() implies distance(units(offset) * 1, exact)
            <= #[trigger] distance(units(q) * 1, exact) by {
            assert(distance(units(i) * 1, exact) <= distance(units(q) * 1, exact));
        }
    }
    lemma_not_below(exact, 1, offset, zero);
    lemma_not_above(exact, 1, offset, playhead);
    lemma_frame_grows(offset, playhead, clip.sample_rate);
    let a = frame_under(offset, clip.sample_rate);
    let b = frame_under(playhead, clip.sample_rate);
    assert((a + 1) * clip.channels <= (b + 1) * clip.channels) by (nonlinear_arith)
        requires
            a <= b,
            clip.channels > 0,
    ;
    source_starts_at_the_frame_under_the_offset(m, clip, offset, delay, &heard->0, offset);
}

/// A difference that is not taken below zero.
proof fn lemma_difference<A: Arith>(m: &A, a: Num, b: Num, w: Num)
    requires
        faithful(m),
        a.is_finite(),
        b.is_finite(),
        distance(units(a) - units(b), 0) <= most_units(),
        gives(m, (val(a) - val(b)).max(Num { bits: ZERO }), w),
    ensures
        is_nearest(at_least_none(units(a) - units(b)), 1, w),
{
    let zero = Num { bits: ZERO };
    let r = choose|r: Num| gives(m, val(a) - val(b), r) && w == #[trigger] r.max(zero);
    let (x, y) = choose|x: Num, y: Num|
        gives(m, val(a), x) && gives(m, val(b), y) && #[trigger] call_ensures(
            A::minus,
            (m, x, y),
            r,
        );
    assert(x == a && y == b);
    lemma_nearest_max(units(a) - units(b), r, w);
}

/// Where at least a frame of a clip is left, in its duration and in its buffer, something is heard.
/// `low` is a value that is not more than what is left of the duration.
pub proof fn a_source_from_inside_a_clip_is_not_empty<A: Arith>(
    m: &A,
    clip: &AudioClip,
    offset: Num,
    delay: Num,
    source: &ClipSource,
    low: Num,
)
    requires
        faithful(m),
        is_clip_source(m, clip, offset, delay, source),
        clip.channels > 0,
        clip.offset_in_audio_secs.order() == 0,
        clip.duration_secs.is_finite(),
        offset.is_finite(),
        low.is_finite(),
        units(offset) >= 0,
        units(low) <= units(clip.duration_secs) - units(offset),
        frame_under(low, clip.sample_rate) >= 1,
        (frame_under(offset, clip.sample_rate) + 1) * clip.channels < clip.buffer@.len(),
        is_countable(frame_under(clip.duration_secs, clip.sample_rate), clip.channels),
    ensures
        source.samples@.len() > 0,
{
    let zero = Num { bits: ZERO };
    let rate = clip.sample_rate;
    let total = clip.buffer@.len() as int;
    lemma_units_grow(zero, clip.offset_in_audio_secs);
    lemma_units_grow(clip.offset_in_audio_secs, zero);
    lemma_constants();
    if units(low) < 0 {
        lemma_frame_grows(low, zero, rate);
        assert(units(zero) * rate == 0) by (nonlinear_arith)
            requires
                units(zero) == 0,
        ;
        assert(0int / one_units() == 0) by (nonlinear_arith)
            requires
                one_units() > 0,
        ;
    }
    lemma_frame_grows(offset, clip.duration_secs, rate);
    let f = frame_under(offset, rate);
    let g = frame_under(clip.duration_secs, rate);
    assert((f + 1) * clip.channels <= (g + 1) * clip.channels) by (nonlinear_arith)
        requires
            f <= g,
            clip.channels > 0,
    ;
    source_starts_at_the_frame_under_the_offset(m, clip, offset, delay, source, offset);
    let exact = at_least_none(units(clip.duration_secs) - units(offset));
    let (start, rest) = choose|start: int, rest: Num|
        {
            &&& #[trigger] is_part_from(source.samples@, clip.buffer@, start)
            &&& is_frame_start(start, offset, rate, clip.channels, total)
            &&& #[trigger] is_nearest(exact, 1, rest)
            &&& is_frame_start(
                source.samples@.len() as int,
                rest,
                rate,
                clip.channels,
                total - start,
            )
        };
    lemma_not_below(exact, 1, rest, low);
    lemma_frame_grows(low, rest, rate);
    let b = frame_under(rest, rate);
    assert(f * clip.channels < total && b * clip.channels > 0 && (b + 1) * clip.channels > 0)
        by (nonlinear_arith)
        requires
            b >= 1,
            (f + 1) * clip.channels < total,
            clip.channels > 0,
    ;
}

/// Whether a position among samples is the start of the frame at a time: exactly where a frame
/// starts then, else of that frame or the next.
pub open spec fn is_frame_position(at: int, secs: Num, rate: u32, channels: u16) -> bool {
    let k = frame_under(secs, rate);
    ||| at == k * channels
    ||| !is_on_frame(secs, rate) && at == (k + 1) * channels
}

/// Whether a time has a frame that can be counted.
pub open spec fn has_frame(secs: Num, rate: u32, channels: u16) -> bool {
    &&& secs.is_finite()
    &&& units(secs) >= 0
    &&& is_countable(frame_under(secs, rate), channels)
}

/// Whether `after` is `before` with what a clip adds to a mix at position `d`. The clip sounds from
/// the frame of its start on, for the frames of its duration, with its buffer from the frame of its
/// offset on. A clip of another format adds nothing.
pub open spec fn is_added<A: Arith>(
    m: &A,
    clip: &AudioClip,
    channels: u16,
    rate: u32,
    d: int,
    before: Sample,
    after: Sample,
) -> bool {
    if clip.channels != channels || clip.sample_rate != rate {
        after == before
    } else {
        has_frame(clip.start_time_secs, rate, channels) && has_frame(
            clip.offset_in_audio_secs,
            rate,
            channels,
        ) && has_frame(clip.duration_secs, rate, channels) ==> exists|
            target: int,
            source: int,
            length: int,
        |
            {
                &&& #[trigger] is_frame_position(target, clip.start_time_secs, rate, channels)
                &&& #[trigger] is_frame_position(source, clip.offset_in_audio_secs, rate, channels)
                &&& #[trigger] is_frame_position(length, clip.duration_secs, rate, channels)
                &&& if target <= d < target + length && source + (d - target)
                    < clip.buffer@.len() {
                    call_ensures(
                        A::sample_plus,
                        (m, before, clip.buffer@[source + (d - target)]),
                        after,
                    )
                } else {
                    after == before
                }
            }
    }
}

/// The frame of a time, as the mix places it.
proof fn lemma_frame_at<A: Arith>(m: &A, secs: Num, rate: u32, channels: u16, n: usize)
    requires
        faithful(m),
        channels > 0,
        is_frame_at(m, secs, rate, channels, n),
        has_frame(secs, rate, channels),
    ensures
        is_frame_position(n as int, secs, rate, channels),
{
    let at = choose|at: usize| #[trigger]
        gives_count(m, position_formula(val(secs), rate, channels), at) && n == aligned(
            at as int,
            channels as int,
        );
    let v = lemma_position(m, val(secs), rate, channels, at);
    assert(v == secs);
    lemma_frame_grows(secs, secs, rate);
    let k = frame_under(secs, rate);
    lemma_aligned_between(at as int, k, k + 1, channels as int);
}

/// What one clip adds.
proof fn lemma_added<A: Arith>(
    m: &A,
    clip: &AudioClip,
    channels: u16,
    rate: u32,
    placement: Option<Placement>,
    d: int,
    before: Sample,
    after: Sample,
)
    requires
        faithful(m),
        channels > 0,
        is_placement(m, clip, channels, rate, placement),
        match contribution(clip, placement, d) {
            None => after == before,
            Some(added) => sample_gives(m, sample(before) + sample(added), after),
        },
    ensures
        is_added(m, clip, channels, rate, d, before, after),
{
    if clip.channels == channels && clip.sample_rate == rate && has_frame(
        clip.start_time_secs,
        rate,
        channels,
    ) && has_frame(clip.offset_in_audio_secs, rate, channels) && has_frame(
        clip.duration_secs,
        rate,
        channels,
    ) {
        let p = placement->0;
        lemma_frame_at(m, clip.start_time_secs, rate, channels, p.target);
        lemma_frame_at(m, clip.offset_in_audio_secs, rate, channels, p.source);
        lemma_frame_at(m, clip.duration_secs, rate, channels, p.count);
        if p.target <= d < p.target + p.count && p.source + (d - p.target) < clip.buffer@.len() {
            let added = clip.buffer@[p.source + (d - p.target)];
            assert(contribution(clip, placement, d) == Some(added));
            let (a, b) = choose|a: Sample, b: Sample|
                sample_gives(m, sample(before), a) && sample_gives(m, sample(added), b)
                    && #[trigger] call_ensures(A::sample_plus, (m, a, b), after);
            assert(a == before && b == added);
        } else {
            assert(contribution(clip, placement, d) is None);
        }
        assert(is_frame_position(p.target as int, clip.start_time_secs, rate, channels));
        assert(is_frame_position(p.source as int, clip.offset_in_audio_secs, rate, channels));
        assert(is_frame_position(p.count as int, clip.duration_secs, rate, channels));
    }
}

/// The sums that lead from silence to what is mixed of the first `n` clips.
proof fn lemma_sums<A: Arith>(
    m: &A,
    clips: Seq<AudioClip>,
    channels: u16,
    rate: u32,
    placements: Seq<Option<Placement>>,
    n: nat,
    d: int,
    mixed: Sample,
) -> (sums: Seq<Sample>)
    requires
        faithful(m),
        channels > 0,
        are_placements(m, clips, channels, rate, placements),
        n <= clips.len(),
        is_mixed(m, clips, placements, n, d, mixed),
    ensures
        sums.len() == n + 1,
        sums[0] == (Sample { bits: SAMPLE_ZERO }),
        sums[n as int] == mixed,
        forall|i: int|
            0 <= i < n ==> is_added(
                m,
                &#[trigger] clips[i],
                channels,
                rate,
                d,
                sums[i],
                sums[i + 1],
            ),
    decreases n,
{
    if n == 0 {
        seq![mixed]
    } else {
        let k = (n - 1) as nat;
        let clip = clips[k as int];
        let placement = placements[k as int];
        let before = match contribution(&clip, placement, d) {
            None => mixed,
            Some(added) => choose|before: Sample|
                is_mixed(m, clips, placements, k, d, before) && #[trigger] sample_gives(
                    m,
                    sample(before) + sample(added),
                    mixed,
                ),
        };
        let sums = lemma_sums(m, clips, channels, rate, placements, k, d, before);
        lemma_added(m, &clip, channels, rate, placement, d, before, mixed);
        let r = sums.push(mixed);
        assert forall|i: int| 0 <= i < n implies is_added(
            m,
            &#[trigger] clips[i],
            channels,
            rate,
            d,
            r[i],
            r[i + 1],
        ) by {
            if i == k {
                assert(r[i] == before && r[i + 1] == mixed);
            } else {
                assert(r[i] == sums[i] && r[i + 1] == sums[i + 1]);
            }
        }
        r
    }
}

/// Every sample of an exported mix is silence, to which each clip of the mix's format in turn has
/// added its sample at the frame where it sounds, then moved into -1 to 1, times 32767.
pub proof fn the_mix_adds_every_clip_at_its_frame<A: Arith>(
    m: &A,
    state: &TimelineState,
    mixdown: &Mixdown,
    d: int,
)
    requires
        faithful(m),
        is_mixdown(m, state, mixdown),
        state.clips@.len() > 0,
        mixdown.channels > 0,
        0 <= d < mixdown.samples@.len(),
    ensures
        mixdown.channels == state.clips@[0].channels,
        mixdown.sample_rate == state.clips@[0].sample_rate,
        exists|sums: Seq<Sample>, limited: Sample, scaled: Sample|
            {
                let mixed = sums[state.clips@.len() as int];
                &&& sums.len() == state.clips@.len() + 1
                &&& sums[0] == (Sample { bits: SAMPLE_ZERO })
                &&& forall|i: int|
                    0 <= i < state.clips@.len() ==> is_added(
                        m,
                        &#[trigger] state.clips@[i],
                        mixdown.channels,
                        mixdown.sample_rate,
                        d,
                        sums[i],
                        sums[i + 1],
                    )
                &&& #[trigger] is_limited(sums, limited)
                &&& #[trigger] call_ensures(
                    A::sample_times,
                    (m, limited, Sample { bits: SAMPLE_PCM_MAX }),
                    scaled,
                )
                &&& call_ensures(A::to_pcm, (m, scaled), mixdown.samples@[d])
            },
{
    let clips = state.clips@;
    let (channels, rate) = (mixdown.channels, mixdown.sample_rate);
    let placements = choose|placements: Seq<Option<Placement>>| #[trigger]
        are_placements(m, clips, channels, rate, placements) && are_exported(
            m,
            clips,
            placements,
            mixdown.samples@,
        );
    let (low, high) = (Sample { bits: SAMPLE_MINUS_ONE }, Sample { bits: SAMPLE_ONE });
    let n = mixdown.samples@[d];
    assert(is_exported(m, clips, placements, d, n));
    let mixed = choose|mixed: Sample| #[trigger]
        is_mixed(m, clips, placements, clips.len(), d, mixed) && gives_pcm(
            m,
            sample(mixed.clamp(low, high)) * sample_lit(SAMPLE_PCM_MAX),
            n,
        );
    let f = sample(mixed.clamp(low, high)) * sample_lit(SAMPLE_PCM_MAX);
    let scaled = choose|v: Sample| #[trigger]
        sample_gives(m, f, v) && call_ensures(A::to_pcm, (m, v), n);
    let (a, b) = choose|a: Sample, b: Sample|
        sample_gives(m, sample(mixed.clamp(low, high)), a) && sample_gives(
            m,
            sample_lit(SAMPLE_PCM_MAX),
            b,
        ) && #[trigger] call_ensures(A::sample_times, (m, a, b), scaled);
    assert(a == mixed.clamp(low, high) && b.bits == SAMPLE_PCM_MAX);
    let sums = lemma_sums(m, clips, channels, rate, placements, clips.len(), d, mixed);
    assert(is_limited(sums, a));
}

/// Whether a sample is the last of the sums, -1 where that is less and 1 where it is greater.
pub open spec fn is_limited(sums: Seq<Sample>, limited: Sample) -> bool {
    let mixed = sums.last();
    let (low, high) = (Sample { bits: SAMPLE_MINUS_ONE }, Sample { bits: SAMPLE_ONE });
    if mixed.lt(low) {
        limited == low
    } else if high.lt(mixed) {
        limited == high
    } else {
        limited == mixed
    }
}

/// A clip that starts on a frame and has an offset of zero and a duration of whole frames, which
/// its buffer holds, is added whole: sample `i` of the buffer at the start's frame plus `i`, and
/// nothing elsewhere.
pub proof fn a_clip_on_a_frame_is_added_whole<A: Arith>(
    m: &A,
    clip: &AudioClip,
    frame: int,
    frames: int,
    d: int,
    before: Sample,
    after: Sample,
)
    requires
        is_added(m, clip, clip.channels, clip.sample_rate, d, before, after),
        clip.channels > 0,
        has_frame(clip.start_time_secs, clip.sample_rate, clip.channels),
        has_frame(clip.offset_in_audio_secs, clip.sample_rate, clip.channels),
        has_frame(clip.duration_secs, clip.sample_rate, clip.channels),
        units(clip.start_time_secs) * clip.sample_rate == frame * one_units(),
        clip.offset_in_audio_secs.order() == 0,
        units(clip.duration_secs) * clip.sample_rate == frames * one_units(),
        frames * clip.channels <= clip.buffer@.len(),
    ensures
        frame * clip.channels <= d < (frame + frames) * clip.channels ==> call_ensures(
            A::sample_plus,
            (m, before, clip.buffer@[d - frame * clip.channels]),
            after,
        ),
        !(frame * clip.channels <= d < (frame + frames) * clip.channels) ==> after == before,
{
    let rate = clip.sample_rate;
    let channels = clip.channels;
    let zero = Num { bits: ZERO };
    lemma_constants();
    lemma_units_grow(zero, clip.offset_in_audio_secs);
    lemma_units_grow(clip.offset_in_audio_secs, zero);
    assert(units(clip.offset_in_audio_secs) * rate == 0 * one_units()) by (nonlinear_arith)
        requires
            units(clip.offset_in_audio_secs) == 0,
    ;
    lemma_whole_quotient(clip.start_time_secs, rate, frame);
    lemma_whole_quotient(clip.duration_secs, rate, frames);
    lemma_whole_quotient(clip.offset_in_audio_secs, rate, 0);
    let (target, source, length) = choose|target: int, source: int, length: int|
        {
            &&& #[trigger] is_frame_position(target, clip.start_time_secs, rate, channels)
            &&& #[trigger] is_frame_position(source, clip.offset_in_audio_secs, rate, channels)
            &&& #[trigger] is_frame_position(length, clip.duration_secs, rate, channels)
            &&& if target <= d < target + length && source + (d - target) < clip.buffer@.len() {
                call_ensures(
                    A::sample_plus,
                    (m, before, clip.buffer@[source + (d - target)]),
                    after,
                )
            } else {
                after == before
            }
        };
    assert(0 * channels == 0);
    assert((frame + frames) * channels == frame * channels + frames * channels)
        by (nonlinear_arith);
}

/// A time of whole frames has that frame.
proof fn lemma_whole_quotient(secs: Num, rate: u32, k: int)
    requires
        units(secs) * rate == k * one_units(),
        units(secs) >= 0,
    ensures
        frame_under(secs, rate) == k,
        is_on_frame(secs, rate),
{
    lemma_constants();
    let one = one_units();
    assert(units(secs) * rate >= 0) by (nonlinear_arith)
        requires
            units(secs) >= 0,
            rate >= 0,
    ;
    assert(k >= 0) by (nonlinear_arith)
        requires
            k * one >= 0,
            one > 0,
    ;
    vstd::arithmetic::div_mod::lemma_div_by_multiple(k, one);
}

/// What is nearest on a finer scale is nearest.
pub(crate) proof fn lemma_nearest_unscaled(exact: int, scale: int, finer: int, r: Num)
    requires
        is_nearest(exact * finer, scale * finer, r),
        finer > 0,
    ensures
        is_nearest(exact, scale, r),
{
    assert forall|q: Num| q.is_finite() implies distance(units(r) * scale, exact) <= distance(
        #[trigger] units(q) * scale,
        exact,
    ) by {
        let (a, b) = (units(r), units(q));
        assert(a * (scale * finer) == (a * scale) * finer) by (nonlinear_arith);
        assert(b * (scale * finer) == (b * scale) * finer) by (nonlinear_arith);
        assert(distance(units(r) * (scale * finer), exact * finer) <= distance(
            units(q) * (scale * finer),
            exact * finer,
        ));
        lemma_unscale(a * scale, b * scale, exact, finer);
    }
}

/// The duration of samples is their number divided by the samples that a second has: the nearest
/// value to it.
pub proof fn a_duration_is_samples_per_rate_and_channels<A: Arith>(
    m: &A,
    samples: int,
    rate: u32,
    channels: u16,
    duration: Num,
)
    requires
        faithful(m),
        gives(m, duration_formula(samples, rate, channels), duration),
        0 <= samples <= 0x20_0000_0000_0000,
        rate > 0,
        channels > 0,
    ensures
        is_nearest(samples * one_units(), rate * channels, duration),
        units(duration) >= 0,
{
    let one = one_units();
    lemma_constants();
    let per_second = count(rate as u64) * count(channels as u64);
    let (a, b) = choose|a: Num, b: Num|
        gives(m, count(samples as u64), a) && gives(m, per_second, b) && #[trigger] call_ensures(
            A::over,
            (m, a, b),
            duration,
        );
    let (r, c) = choose|r: Num, c: Num|
        gives(m, count(rate as u64), r) && gives(m, count(channels as u64), c)
            && #[trigger] call_ensures(A::times, (m, r, c), b);
    lemma_count(m, samples as u64, a);
    lemma_count(m, rate as u64, r);
    lemma_count(m, channels as u64, c);
    let p = rate * channels;
    assert(1 <= p <= 0x20_0000_0000_0000) by (nonlinear_arith)
        requires
            p == rate * channels,
            1 <= rate <= 0xffff_ffff,
            1 <= channels <= 0xffff,
    ;
    let v = lemma_whole(p);
    let s = lemma_whole(samples);
    lemma_most(v);
    lemma_most(s);
    let exact = units(r) * units(c);
    assert(exact == units(v) * one && 0 <= exact <= most_units() * one) by (nonlinear_arith)
        requires
            exact == (rate * one) * (channels * one),
            units(v) == (rate * channels) * one,
            0 <= units(v) <= most_units(),
            one > 0,
    ;
    lemma_exact(exact, one, b, v);
    let zero = Num { bits: ZERO };
    assert(units(b) >= one) by (nonlinear_arith)
        requires
            units(b) == p * one,
            p >= 1,
            one > 0,
    ;
    lemma_units_grow(zero, b);
    lemma_units_grow(b, zero);
    assert(0 <= units(a) * one <= most_units() * units(b)) by (nonlinear_arith)
        requires
            0 <= units(a) <= most_units(),
            units(b) >= one,
            one > 0,
    ;
    assert(units(a) * one == (samples * one) * one);
    assert(is_nearest((samples * one) * one, p * one, duration));
    lemma_nearest_unscaled(samples * one, p, one, duration);
    assert(0 <= samples * one) by (nonlinear_arith)
        requires
            samples >= 0,
            one > 0,
    ;
    assert(0 * p == 0);
    lemma_not_below(samples * one, p, duration, zero);
}

/// The values around a quotient: the last that is not above it, and the next.
proof fn lemma_around(exact: int, scale: int, c: int, top: int) -> (r: int)
    requires
        0 <= c < top,
        worth(c) * scale <= exact,
        exact < worth(top) * scale,
    ensures
        c <= r < top,
        worth(r) * scale <= exact < worth(r + 1) * scale,
    decreases top - c,
{
    if exact < worth(c + 1) * scale {
        c
    } else {
        assert(c + 1 != top);
        lemma_around(exact, scale, c + 1, top)
    }
}

/// Values lie close together: the next one is more by 1, or by no more than a small part.
proof fn lemma_spacing_is_small(c: int)
    requires
        c >= 0,
    ensures
        spacing(c) == 1 || spacing(c) * BINADE <= worth(c),
{
    if c >= BINADE {
        let p = spacing(c);
        let k = c % (BINADE as int);
        lemma_step(c);
        assert(p * BINADE <= (BINADE + k) * p) by (nonlinear_arith)
            requires
                k >= 0,
                p >= 1,
        ;
    }
}

/// The duration of a buffer of whole frames falls on the buffer's end, up to rounding: at the given
/// rate it has as many frames as the buffer, or one less, and exactly as many where the quotient is
/// a value or is rounded up.
pub proof fn a_duration_counts_the_frames_of_its_buffer<A: Arith>(
    m: &A,
    frames: int,
    rate: u32,
    channels: u16,
    duration: Num,
)
    requires
        faithful(m),
        gives(m, duration_formula(frames * channels, rate, channels), duration),
        0 <= frames,
        frames * channels <= 0x4_0000_0000_0000,
        rate > 0,
        channels > 0,
    ensures
        frames - 1 <= frame_under(duration, rate) <= frames,
        units(duration) * rate >= frames * one_units() ==> frame_under(duration, rate) == frames,
        forall|q: Num|
            q.is_finite() && #[trigger] units(q) * rate == frames * one_units() ==> units(duration)
                == units(q),
{
    let one = one_units();
    lemma_constants();
    assert(0 <= frames <= frames * channels) by (nonlinear_arith)
        requires
            frames >= 0,
            channels >= 1,
    ;
    a_duration_is_samples_per_rate_and_channels(m, frames * channels, rate, channels, duration);
    let exact = frames * one;
    assert((frames * channels) * one == exact * channels) by (nonlinear_arith)
        requires
            exact == frames * one,
    ;
    lemma_nearest_unscaled(exact, rate as int, channels as int, duration);
    let u = units(duration);
    assert forall|q: Num| q.is_finite() && #[trigger] units(q) * rate == exact implies u == units(
        q,
    ) by {
        lemma_exact(exact, rate as int, duration, q);
    }
    let top = lemma_whole(frames);
    assert(exact >= 0) by (nonlinear_arith)
        requires
            exact == frames * one,
            frames >= 0,
            one > 0,
    ;
    if exact == units(top) * rate {
        assert(u * rate == frames * one);
    } else {
        assert(exact < units(top) * rate) by (nonlinear_arith)
            requires
                exact == units(top),
                exact >= 0,
                rate >= 1,
                exact != units(top) * rate,
        ;
        let zero = Num { bits: ZERO };
        lemma_units_grow(zero, top);
        lemma_units_grow(top, zero);
        assert(units(top) != 0) by (nonlinear_arith)
            requires
                0 <= exact < units(top) * rate,
        ;
        assert(worth(0) * rate == 0);
        let c = lemma_around(exact, rate as int, 0, top.order());
        lemma_step(c);
        lemma_spacing_is_small(c);
        let low = Num { bits: c as u64 };
        let high = Num { bits: (c + 1) as u64 };
        lemma_not_below(exact, rate as int, duration, low);
        lemma_not_above(exact, rate as int, duration, high);
        lemma_big_one();
        let p = spacing(c);
        assert(p * rate < one) by {
            if p == 1 {
            } else {
                assert((p * rate) * BINADE <= exact) by (nonlinear_arith)
                    requires
                        p * BINADE <= worth(c),
                        worth(c) * rate <= exact,
                        rate >= 0,
                ;
                assert(p * rate < one) by (nonlinear_arith)
                    requires
                        (p * rate) * 0x10_0000_0000_0000 <= exact,
                        exact == frames * one,
                        frames <= 0x4_0000_0000_0000,
                        one > 0,
                ;
            }
        }
        assert(exact - p * rate <= u * rate <= exact + p * rate) by (nonlinear_arith)
            requires
                worth(c) <= u <= worth(c) + p,
                worth(c) * rate <= exact < (worth(c) + p) * rate,
                rate >= 1,
        ;
    }
    assert((frames - 1) * one < u * rate < (frames + 1) * one) by (nonlinear_arith)
        requires
            frames * one - one < u * rate < frames * one + one,
    ;
    lemma_quotient_between(u * rate, frames);
}

/// A whole part next to a whole number.
proof fn lemma_quotient_between(x: int, k: int)
    requires
        (k - 1) * one_units() < x < (k + 1) * one_units(),
    ensures
        k - 1 <= x / one_units() <= k,
        x >= k * one_units() ==> x / one_units() == k,
{
    lemma_constants();
    let one = one_units();
    let q = x / one;
    vstd::arithmetic::div_mod::lemma_fundamental_div_mod(x, one);
    vstd::arithmetic::div_mod::lemma_mod_bound(x, one);
    assert(k - 1 <= q <= k && (x >= k * one ==> q == k)) by (nonlinear_arith)
        requires
            x == one * q + x % one,
            0 <= x % one < one,
            (k - 1) * one < x < (k + 1) * one,
    ;
}

/// There are more units in 1 than any rate.
proof fn lemma_big_one()
    ensures
        one_units() > 0xffff_ffff,
{
    let f = BINADE as int;
    assert(ONE as int / f == 1023 && ONE as int % f == 0);
    vstd::arithmetic::power2::lemma_pow2_pos(1022);
    let p = vstd::arithmetic::power2::pow2(1022) as int;
    assert(one_units() == f * p);
    assert(f * p >= f) by (nonlinear_arith)
        requires
            p >= 1,
            f >= 0,
    ;
}

/// A clip of whole frames that starts on a frame, with an offset of zero and the duration of its
/// buffer, adds the samples of its buffer from the start's frame on and nothing elsewhere. It adds
/// all of them where the duration is not rounded down, and else all but those of the last frame at
/// least.
pub proof fn a_clip_of_its_buffers_duration_is_added_whole<A: Arith>(
    m: &A,
    clip: &AudioClip,
    frame: int,
    frames: int,
    d: int,
    before: Sample,
    after: Sample,
)
    requires
        faithful(m),
        is_added(m, clip, clip.channels, clip.sample_rate, d, before, after),
        clip.channels > 0,
        clip.sample_rate > 0,
        has_frame(clip.start_time_secs, clip.sample_rate, clip.channels),
        units(clip.start_time_secs) * clip.sample_rate == frame * one_units(),
        clip.offset_in_audio_secs.order() == 0,
        frames >= 0,
        clip.buffer@.len() == frames * clip.channels,
        clip.buffer@.len() <= 0x4_0000_0000_0000,
        (frames + 1) * clip.channels <= usize::MAX,
        gives(
            m,
            duration_formula(clip.buffer@.len() as int, clip.sample_rate, clip.channels),
            clip.duration_secs,
        ),
    ensures
        ({
            let target = frame * clip.channels;
            let total = frames * clip.channels;
            let is_whole = units(clip.duration_secs) * clip.sample_rate >= frames * one_units();
            &&& target <= d < target + total && (is_whole || d < target + total - clip.channels)
                ==> call_ensures(A::sample_plus, (m, before, clip.buffer@[d - target]), after)
            &&& !(target <= d < target + total) ==> after == before
        }),
{
    let rate = clip.sample_rate;
    let channels = clip.channels;
    let zero = Num { bits: ZERO };
    let one = one_units();
    lemma_constants();
    lemma_units_grow(zero, clip.offset_in_audio_secs);
    lemma_units_grow(clip.offset_in_audio_secs, zero);
    assert(units(clip.offset_in_audio_secs) * rate == 0 * one) by (nonlinear_arith)
        requires
            units(clip.offset_in_audio_secs) == 0,
    ;
    lemma_whole_quotient(clip.start_time_secs, rate, frame);
    lemma_whole_quotient(clip.offset_in_audio_secs, rate, 0);
    a_duration_is_samples_per_rate_and_channels(
        m,
        frames * channels,
        rate,
        channels,
        clip.duration_secs,
    );
    a_duration_counts_the_frames_of_its_buffer(m, frames, rate, channels, clip.duration_secs);
    let n = frame_under(clip.duration_secs, rate);
    let total = frames * channels;
    assert((frames - 1) * channels == total - channels && (frames + 1) * channels == total
        + channels) by (nonlinear_arith)
        requires
            total == frames * channels,
    ;
    assert(n == frames || n == frames - 1);
    assert(has_frame(clip.duration_secs, rate, channels));
    assert(0 * channels == 0 && 1 * channels == channels);
    assert(has_frame(clip.offset_in_audio_secs, rate, channels));
    let (target, source, length) = choose|target: int, source: int, length: int|
        {
            &&& #[trigger] is_frame_position(target, clip.start_time_secs, rate, channels)
            &&& #[trigger] is_frame_position(source, clip.offset_in_audio_secs, rate, channels)
            &&& #[trigger] is_frame_position(length, clip.duration_secs, rate, channels)
            &&& if target <= d < target + length && source + (d - target) < clip.buffer@.len() {
                call_ensures(
                    A::sample_plus,
                    (m, before, clip.buffer@[source + (d - target)]),
                    after,
                )
            } else {
                after == before
            }
        };
    assert(length == n * channels || length == (n + 1) * channels);
    assert((n + 1) * channels == n * channels + channels) by (nonlinear_arith);
}

/// A clip ends its duration after its start: at the nearest value to that.
pub proof fn a_clip_ends_its_duration_after_its_start<A: Arith>(m: &A, clip: &AudioClip, end: Num)
    requires
        faithful(m),
        clip.ends_at(m, end),
        clip.start_time_secs.is_finite(),
        clip.duration_secs.is_finite(),
        distance(units(clip.start_time_secs) + units(clip.duration_secs), 0) <= most_units(),
    ensures
        is_nearest(units(clip.start_time_secs) + units(clip.duration_secs), 1, end),
{
    let (a, b) = choose|a: Num, b: Num|
        gives(m, val(clip.start_time_secs), a) && gives(m, val(clip.duration_secs), b)
            && #[trigger] call_ensures(A::plus, (m, a, b), end);
    assert(a == clip.start_time_secs && b == clip.duration_secs);
}

/// A mix is as long as the timeline: its samples end at the frame at which the last clip ends, and
/// after half a minute at the earliest.
pub proof fn a_mix_lasts_until_the_last_clip_ends<A: Arith>(
    m: &A,
    state: &TimelineState,
    mixdown: &Mixdown,
    longest: Num,
)
    requires
        faithful(m),
        is_mixdown(m, state, mixdown),
        mixdown.channels > 0,
        has_frame(longest, mixdown.sample_rate, mixdown.channels),
        forall|i: int, end: Num|
            0 <= i < state.clips@.len() && #[trigger] state.clips@[i].ends_at(m, end)
                ==> end.is_number() && end.order() <= longest.order(),
        longest.order() >= SHORTEST_TIMELINE,
    ensures
        units(Num { bits: SHORTEST_TIMELINE }) == 30 * one_units(),
        exists|duration: Num|
            {
                &&& #[trigger] is_near_frame(
                    mixdown.samples@.len() as int,
                    duration,
                    mixdown.sample_rate,
                    mixdown.channels,
                )
                &&& duration.is_finite()
                &&& duration.order() >= SHORTEST_TIMELINE
                &&& duration.bits == SHORTEST_TIMELINE || exists|i: int|
                    0 <= i < state.clips@.len() && #[trigger] state.clips@[i].ends_at(m, duration)
                &&& exists|ends: Seq<Num>|
                    {
                        &&& #[trigger] are_ends(m, state.clips@, ends)
                        &&& forall|i: int|
                            0 <= i < ends.len() ==> (#[trigger] ends[i]).order() <= duration.order()
                    }
            },
{
    vstd::arithmetic::power2::lemma2_to64();
    lemma_above_one(SHORTEST_TIMELINE as int, 4, 30);
    let duration = choose|duration: Num| #[trigger]
        state.is_duration(m, duration) && gives_count(
            m,
            position_formula(val(duration), mixdown.sample_rate, mixdown.channels),
            mixdown.samples.len(),
        );
    let ends = choose|ends: Seq<Num>| #[trigger]
        are_ends(m, state.clips@, ends) && duration == latest(ends);
    assert forall|i: int| 0 <= i < ends.len() implies (#[trigger] ends[i]).is_number()
        && ends[i].order() <= longest.order() by {
        assert(state.clips@[i].ends_at(m, ends[i]));
    }
    lemma_latest(ends, longest);
    let zero = Num { bits: ZERO };
    lemma_units_grow(duration, longest);
    lemma_units_grow(zero, duration);
    lemma_frame_grows(duration, longest, mixdown.sample_rate);
    let channels = mixdown.channels as int;
    let a = frame_under(duration, mixdown.sample_rate);
    let b = frame_under(longest, mixdown.sample_rate);
    assert((a + 1) * channels <= (b + 1) * channels) by (nonlinear_arith)
        requires
            a <= b,
            channels > 0,
    ;
    let v = lemma_position(
        m,
        val(duration),
        mixdown.sample_rate,
        mixdown.channels,
        mixdown.samples.len(),
    );
    assert(v == duration);
    assert(is_near_frame(
        mixdown.samples@.len() as int,
        duration,
        mixdown.sample_rate,
        mixdown.channels,
    ));
    if duration.bits != SHORTEST_TIMELINE {
        let i = choose|i: int| 0 <= i < ends.len() && #[trigger] ends[i] == duration;
        assert(state.clips@[i].ends_at(m, duration));
    }
}

/// The latest end is one of the ends, and no end is later.
proof fn lemma_latest(ends: Seq<Num>, longest: Num)
    requires
        longest.is_finite(),
        longest.order() >= SHORTEST_TIMELINE,
        forall|i: int|
            0 <= i < ends.len() ==> (#[trigger] ends[i]).is_number() && ends[i].order()
                <= longest.order(),
    ensures
        SHORTEST_TIMELINE <= latest(ends).order() <= longest.order(),
        latest(ends).is_finite(),
        latest(ends).bits == SHORTEST_TIMELINE || exists|i: int|
            0 <= i < ends.len() && #[trigger] ends[i] == latest(ends),
        forall|i: int| 0 <= i < ends.len() ==> (#[trigger] ends[i]).order() <= latest(ends).order(),
    decreases ends.len(),
{
    if ends.len() > 0 {
        let rest = ends.drop_last();
        assert forall|i: int| 0 <= i < rest.len() implies (#[trigger] rest[i]).is_number()
            && rest[i].order() <= longest.order() by {
            assert(rest[i] == ends[i]);
        }
        lemma_latest(rest, longest);
        assert(ends[ends.len() - 1] == ends.last());
        assert forall|i: int| 0 <= i < ends.len() implies (#[trigger] ends[i]).order() <= latest(
            ends,
        ).order() by {
            if i < rest.len() {
                assert(rest[i] == ends[i]);
            }
        }
        if latest(ends) == latest(rest) && latest(ends).bits != SHORTEST_TIMELINE {
            let i = choose|i: int| 0 <= i < rest.len() && #[trigger] rest[i] == latest(rest);
            assert(ends[i] == latest(ends));
        }
    }
}

/// How many of the first `n` values there are.
pub open spec fn number_present<T>(values: Seq<Option<T>>, n: nat) -> nat
    decreases n,
{
    if n == 0 {
        0
    } else {
        number_present(values, (n - 1) as nat) + (if values[n - 1] is Some {
            1nat
        } else {
            0nat
        })
    }
}

/// Leaving out what is not there keeps everything else, in order and once.
pub proof fn what_is_present_stays_in_order<T>(values: Seq<Option<T>>, i: int)
    requires
        0 <= i < values.len(),
    ensures
        present(values).len() == number_present(values, values.len()),
        values[i] matches Some(v) ==> number_present(values, i as nat) < present(values).len()
            && present(values)[number_present(values, i as nat) as int] == v,
    decreases values.len(),
{
    let n = values.len() - 1;
    let rest = values.drop_last();
    lemma_number_present(values, rest, n as nat);
    if n > 0 {
        let k = if i < n {
            i
        } else {
            0
        };
        what_is_present_stays_in_order(rest, k);
    } else {
        assert(present(rest).len() == 0);
        assert(number_present(values, 0) == 0);
    }
    assert(values.last() == values[n]);
    assert(number_present(values, values.len()) == number_present(values, n as nat) + (if values[n]
        is Some {
        1nat
    } else {
        0nat
    }));
    if i < n {
        lemma_number_present(values, rest, i as nat);
        assert(rest[i] == values[i]);
    }
}

/// What is present among the first values does not depend on the others.
proof fn lemma_number_present<T>(values: Seq<Option<T>>, others: Seq<Option<T>>, n: nat)
    requires
        n <= values.len(),
        n <= others.len(),
        forall|i: int| 0 <= i < n ==> values[i] == #[trigger] others[i],
    ensures
        number_present(values, n) == number_present(others, n),
    decreases n,
{
    if n > 0 {
        lemma_number_present(values, others, (n - 1) as nat);
        assert(values[n - 1] == others[n - 1]);
    }
}

/// Playing gives one source for each clip that ends after the playhead and none for the others, in
/// the order of the clips.
pub proof fn every_clip_that_ends_after_the_playhead_is_heard<A: Arith>(
    m: &A,
    state: &TimelineState,
    sources: Seq<ClipSource>,
)
    requires
        are_heard(m, state, sources),
    ensures
        exists|ends: Seq<Num>, heard: Seq<Option<ClipSource>>|
            {
                &&& #[trigger] are_ends(m, state.clips@, ends)
                &&& heard.len() == state.clips@.len()
                &&& sources.len() == #[trigger] number_present(heard, heard.len())
                &&& forall|i: int|
                    0 <= i < heard.len() ==> (#[trigger] heard[i] is None <==> ends[i].is_number()
                        && state.playhead_secs.is_number() && ends[i].order()
                        <= state.playhead_secs.order())
                &&& forall|i: int|
                    0 <= i < heard.len() && #[trigger] heard[i] is Some ==> {
                        let k = number_present(heard, i as nat) as int;
                        &&& 0 <= k < sources.len()
                        &&& sources[k] == heard[i]->0
                        &&& is_heard(
                            m,
                            &state.clips@[i],
                            ends[i],
                            state.playhead_secs,
                            Some(sources[k]),
                        )
                    }
            },
{
    let (ends, heard) = choose|ends: Seq<Num>, heard: Seq<Option<ClipSource>>|
        {
            &&& #[trigger] are_ends(m, state.clips@, ends)
            &&& heard.len() == state.clips@.len()
            &&& forall|i: int|
                0 <= i < heard.len() ==> is_heard(
                    m,
                    &state.clips@[i],
                    ends[i],
                    state.playhead_secs,
                    #[trigger] heard[i],
                )
            &&& sources == #[trigger] present(heard)
        };
    assert forall|i: int| 0 <= i < heard.len() implies (#[trigger] heard[i] is None
        <==> ends[i].is_number() && state.playhead_secs.is_number() && ends[i].order()
        <= state.playhead_secs.order()) by {
        assert(is_heard(m, &state.clips@[i], ends[i], state.playhead_secs, heard[i]));
    }
    if heard.len() > 0 {
        what_is_present_stays_in_order(heard, 0);
    }
    assert forall|i: int| 0 <= i < heard.len() && #[trigger] heard[i] is Some implies {
        let k = number_present(heard, i as nat) as int;
        &&& 0 <= k < sources.len()
        &&& sources[k] == heard[i]->0
        &&& is_heard(m, &state.clips@[i], ends[i], state.playhead_secs, Some(sources[k]))
    } by {
        what_is_present_stays_in_order(heard, i);
        assert(is_heard(m, &state.clips@[i], ends[i], state.playhead_secs, heard[i]));
    }
    assert(sources.len() == number_present(heard, heard.len()));
}

/// An export names exactly the clips whose format is not that of the first clip, in order.
pub proof fn an_export_names_the_clips_of_other_formats<A: Arith>(
    m: &A,
    state: &TimelineState,
    mixdown: &Mixdown,
    i: int,
)
    requires
        is_mixdown(m, state, mixdown),
        0 <= i < state.clips@.len() <= usize::MAX,
    ensures
        mixdown.ignored@.contains(i as usize) <==> (state.clips@[i].channels
            != state.clips@[0].channels || state.clips@[i].sample_rate
            != state.clips@[0].sample_rate),
        forall|j: int, k: int|
            0 <= j < k < mixdown.ignored@.len() ==> #[trigger] mixdown.ignored@[j]
                < #[trigger] mixdown.ignored@[k],
        forall|j: int|
            0 <= j < mixdown.ignored@.len() ==> #[trigger] mixdown.ignored@[j]
                < state.clips@.len(),
{
    let clips = state.clips@;
    lemma_ignored(clips, clips[0].channels, clips[0].sample_rate, clips.len());
    let ignored = mixdown.ignored@;
    if is_ignored(clips, clips[0].channels, clips[0].sample_rate, i) {
        assert(ignored.contains(i as usize));
    }
}

/// Whether a clip has another format.
spec fn is_ignored(clips: Seq<AudioClip>, channels: u16, rate: u32, i: int) -> bool {
    clips[i].channels != channels || clips[i].sample_rate != rate
}

/// The clips of other formats among the first ones.
proof fn lemma_ignored(clips: Seq<AudioClip>, channels: u16, rate: u32, n: nat)
    requires
        n <= clips.len() <= usize::MAX,
    ensures
        ({
            let r = ignored_clips(clips, channels, rate, n);
            &&& forall|j: int, k: int| 0 <= j < k < r.len() ==> #[trigger] r[j] < #[trigger] r[k]
            &&& forall|j: int|
                0 <= j < r.len() ==> (#[trigger] r[j]) < n && is_ignored(
                    clips,
                    channels,
                    rate,
                    r[j] as int,
                )
            &&& forall|i: int|
                0 <= i < n && #[trigger] is_ignored(clips, channels, rate, i) ==> r.contains(
                    i as usize,
                )
        }),
    decreases n,
{
    if n > 0 {
        let k = (n - 1) as nat;
        lemma_ignored(clips, channels, rate, k);
        let before = ignored_clips(clips, channels, rate, k);
        let r = ignored_clips(clips, channels, rate, n);
        assert forall|i: int|
            0 <= i < n && #[trigger] is_ignored(clips, channels, rate, i) implies r.contains(
            i as usize,
        ) by {
            if i < k {
                assert(before.contains(i as usize));
                let j = choose|j: int| 0 <= j < before.len() && before[j] == i as usize;
                assert(r[j] == i as usize);
            } else {
                assert(r[r.len() - 1] == i as usize);
            }
        }
    }
}

} // verus!
