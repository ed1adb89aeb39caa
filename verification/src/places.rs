//! What a place on the timeline means: which lanes are free, and what lies under the mouse.
use vstd::prelude::*;

use crate::arith::{functional, gives, lit, val, Arith};
use crate::clip::AudioClip;
use crate::exact::{
    distance, faithful, is_nearest, lemma_above_one, lemma_constants, lemma_exact, lemma_most,
    lemma_not_above, lemma_not_below, lemma_units_grow, most_units, one_units, units, BINADE,
};
use crate::num::{Num, ONE, SIGN, ZERO};
use crate::timeline::{
    are_ends, is_first_free_lane, is_new_clip, is_occupied, overlaps, ratio_formula, time_formula,
    DecodedAudio, TimelineState, HEADER_WIDTH,
};

verus! {

/// Whether a time lies from one time on and before another.
pub open spec fn is_within(t: Num, from: Num, to: Num) -> bool {
    from.le(t) && t.lt(to)
}

/// Stated on times alone: at no time do a new clip and a clip that was there sound together on the
/// same lane, and on every lane before it some clip sounds at a time at which the new clip does.
pub proof fn no_time_is_shared_on_the_lane_of_a_new_clip<A: Arith>(
    m: &A,
    state: &TimelineState,
    file_name: Option<Seq<char>>,
    path: Vec<u8>,
    audio: &DecodedAudio,
    clip: &AudioClip,
)
    requires
        state.wf(),
        is_new_clip(m, state, file_name, path, audio, clip),
    ensures
        exists|end: Num, ends: Seq<Num>|
            {
                let there = state.clips@;
                &&& #[trigger] clip.ends_at(m, end)
                &&& #[trigger] are_ends(m, state.clips@, ends)
                &&& forall|i: int, t: Num|
                    0 <= i < there.len() && there[i].lane == clip.lane && is_within(
                        t,
                        clip.start_time_secs,
                        end,
                    ) ==> !#[trigger] is_within(t, there[i].start_time_secs, ends[i])
                &&& forall|i: int|
                    0 <= i < there.len() && there[i].lane == clip.lane
                        && clip.start_time_secs.is_number() && end.is_number()
                        && there[i].start_time_secs.is_number() && (#[trigger] ends[i]).is_number()
                        ==> end.le(there[i].start_time_secs) || ends[i].le(clip.start_time_secs)
                &&& clip.start_time_secs.lt(end) && (forall|i: int|
                    0 <= i < there.len() ==> there[i].start_time_secs.lt(#[trigger] ends[i]))
                    ==> forall|lane: usize|
                    lane < clip.lane ==> #[trigger] is_taken(
                        there,
                        ends,
                        lane,
                        clip.start_time_secs,
                        end,
                    )
            },
{
    let there = state.clips@;
    let start = clip.start_time_secs;
    let (end, ends) = choose|end: Num, ends: Seq<Num>|
        {
            &&& #[trigger] gives(m, val(state.playhead_secs) + val(clip.duration_secs), end)
            &&& #[trigger] are_ends(m, state.clips@, ends)
            &&& is_first_free_lane(
                there,
                ends,
                state.lanes as int,
                state.playhead_secs,
                end,
                clip.lane as int,
            )
        };
    assert(clip.ends_at(m, end));
    assert forall|i: int| 0 <= i < there.len() && there[i].lane == clip.lane implies !(start.lt(
        ends[i],
    ) && there[i].start_time_secs.lt(end)) by {
        if start.lt(ends[i]) && there[i].start_time_secs.lt(end) {
            assert(overlaps(&there[i], ends[i], clip.lane as int, start, end));
            assert(is_occupied(there, ends, clip.lane as int, start, end));
        }
    }
    assert forall|i: int, t: Num|
        0 <= i < there.len() && there[i].lane == clip.lane && is_within(t, start, end) implies
        !#[trigger] is_within(t, there[i].start_time_secs, ends[i]) by {
        if is_within(t, there[i].start_time_secs, ends[i]) {
            assert(start.lt(ends[i]) && there[i].start_time_secs.lt(end));
        }
    }
    if start.lt(end) && forall|i: int|
        0 <= i < there.len() ==> there[i].start_time_secs.lt(#[trigger] ends[i]) {
        assert forall|lane: usize| lane < clip.lane implies #[trigger] is_taken(
            there,
            ends,
            lane,
            start,
            end,
        ) by {
            assert(is_occupied(there, ends, lane as int, start, end));
            let i = choose|i: int|
                0 <= i < there.len() && #[trigger] overlaps(
                    &there[i],
                    ends[i],
                    lane as int,
                    start,
                    end,
                );
            let a = there[i].start_time_secs;
            let t = if start.lt(a) {
                a
            } else {
                start
            };
            assert(ends[i] == ends[i]);
            assert(is_within(t, start, end));
            assert(is_within(t, a, ends[i]));
        }
    }
}

/// Whether some clip of a lane sounds at a time between `start` and `end`.
pub open spec fn is_taken(
    clips: Seq<AudioClip>,
    ends: Seq<Num>,
    lane: usize,
    start: Num,
    end: Num,
) -> bool {
    exists|i: int, t: Num|
        {
            &&& 0 <= i < clips.len()
            &&& clips[i].lane == lane
            &&& is_within(t, start, end)
            &&& #[trigger] is_within(t, clips[i].start_time_secs, ends[i])
        }
}

/// How wide the headers are.
pub(crate) proof fn lemma_header()
    ensures
        (Num { bits: HEADER_WIDTH }).is_finite(),
        units(Num { bits: HEADER_WIDTH }) == 170 * one_units(),
{
    vstd::arithmetic::power2::lemma2_to64();
    let c = HEADER_WIDTH as int;
    assert(c / (BINADE as int) == 1023 + 7 && c % (BINADE as int) == 0x5_4000_0000_0000);
    lemma_above_one(c, 7, 170);
}

/// Whether `pixels` is how far a horizontal position lies to the right of the headers, which are
/// 170 pixels wide.
pub open spec fn is_right_of_headers(x: Num, pixels: Num) -> bool {
    pixels.is_finite() && units(pixels) == units(x) - 170 * one_units()
}

/// The time under a position is its distance from the headers in pixels, divided by the pixels that
/// a second takes.
pub proof fn the_time_under_the_mouse_is_its_distance_from_the_headers<A: Arith>(
    m: &A,
    x: Num,
    pixels_per_second: Num,
    pixels: Num,
    time: Num,
)
    requires
        faithful(m),
        gives(m, time_formula(x, pixels_per_second), time),
        x.is_finite(),
        is_right_of_headers(x, pixels),
        pixels_per_second.is_finite(),
        units(pixels_per_second) > 0,
        distance(units(pixels) * one_units(), 0) <= most_units() * units(pixels_per_second),
    ensures
        is_nearest(units(pixels) * one_units(), units(pixels_per_second), time),
{
    let f = val(x) - lit(HEADER_WIDTH);
    let (d, p) = choose|d: Num, p: Num|
        gives(m, f, d) && gives(m, val(pixels_per_second), p) && #[trigger] call_ensures(
            A::over,
            (m, d, p),
            time,
        );
    let (a, h) = choose|a: Num, h: Num|
        gives(m, val(x), a) && gives(m, lit(HEADER_WIDTH), h) && #[trigger] call_ensures(
            A::minus,
            (m, a, h),
            d,
        );
    assert(p == pixels_per_second && a == x && h.bits == HEADER_WIDTH);
    lemma_header();
    lemma_most(pixels);
    lemma_exact(units(pixels), 1, d, pixels);
    lemma_units_grow(Num { bits: ZERO }, p);
    lemma_units_grow(p, Num { bits: ZERO });
}

/// What is worked out for the ratio: the time, how far it lies behind the start, and that in
/// durations.
proof fn lemma_ratio<A: Arith>(
    m: &A,
    x: Num,
    pixels_per_second: Num,
    clip: &AudioClip,
    pixels: Num,
    high: Num,
    r: Num,
) -> (s: (Num, Num, Num))
    requires
        faithful(m),
        gives(m, ratio_formula(x, pixels_per_second, clip), r),
        can_be_compared(x, pixels_per_second, clip, pixels, high),
    ensures
        is_nearest(units(pixels) * one_units(), units(pixels_per_second), s.0),
        is_nearest(units(s.0) - units(clip.start_time_secs), 1, s.1),
        is_nearest(units(s.1) * one_units(), units(clip.duration_secs), s.2),
        call_ensures(A::over, (m, s.1, clip.duration_secs), s.2),
        r == s.2.clamp(Num { bits: ZERO }, Num { bits: ONE }),
{
    let (zero, one) = (Num { bits: ZERO }, Num { bits: ONE });
    let start = clip.start_time_secs;
    let duration = clip.duration_secs;
    let u = one_units();
    let pps = units(pixels_per_second);
    lemma_constants();
    let behind = time_formula(x, pixels_per_second) - val(start);
    let q = choose|q: Num|
        gives(m, behind / val(duration), q) && r == #[trigger] q.clamp(zero, one);
    let (e, b) = choose|e: Num, b: Num|
        gives(m, behind, e) && gives(m, val(duration), b) && #[trigger] call_ensures(
            A::over,
            (m, e, b),
            q,
        );
    let (t, c) = choose|t: Num, c: Num|
        gives(m, time_formula(x, pixels_per_second), t) && gives(m, val(start), c)
            && #[trigger] call_ensures(A::minus, (m, t, c), e);
    assert(b == duration && c == start);
    lemma_most(high);
    lemma_most(start);
    lemma_units_grow(zero, duration);
    lemma_units_grow(duration, zero);
    assert(0 <= units(pixels) * u <= most_units() * pps) by (nonlinear_arith)
        requires
            0 <= units(pixels),
            units(pixels) * u <= units(high) * pps,
            units(high) <= most_units(),
            pps > 0,
            u > 0,
    ;
    the_time_under_the_mouse_is_its_distance_from_the_headers(
        m,
        x,
        pixels_per_second,
        pixels,
        t,
    );
    assert(0 * pps == 0);
    lemma_not_below(units(pixels) * u, pps, t, zero);
    lemma_not_above(units(pixels) * u, pps, t, high);
    let exact = units(t) - units(start);
    lemma_not_above(exact, 1, e, high);
    let minus = Num { bits: (SIGN + start.magnitude()) as u64 };
    assert(minus.order() == -start.order()) by {
        lemma_units_grow(zero, start);
        lemma_units_grow(start, zero);
    }
    assert(units(minus) == -units(start));
    lemma_not_below(exact, 1, e, minus);
    assert(distance(units(e) * u, 0) <= most_units() * units(duration)) by (nonlinear_arith)
        requires
            -units(start) <= units(e) <= units(high),
            units(start) <= units(high),
            units(high) * u <= most_units() * units(duration),
            u > 0,
    ;
    (t, e, q)
}

/// Whether a position and a clip can be compared: the position lies right of the headers, and the
/// time there and the clip's start are no later than some time `high`, whose ratio to the clip's
/// duration is no greater than the greatest finite value.
pub open spec fn can_be_compared(
    x: Num,
    pixels_per_second: Num,
    clip: &AudioClip,
    pixels: Num,
    high: Num,
) -> bool {
    &&& x.is_finite()
    &&& is_right_of_headers(x, pixels)
    &&& units(pixels) >= 0
    &&& pixels_per_second.is_finite()
    &&& units(pixels_per_second) > 0
    &&& clip.start_time_secs.is_finite()
    &&& clip.start_time_secs.is_from_zero_on()
    &&& units(clip.start_time_secs) >= 0
    &&& clip.duration_secs.is_finite()
    &&& units(clip.duration_secs) > 0
    &&& high.is_finite()
    &&& units(clip.start_time_secs) <= units(high)
    &&& units(pixels) * one_units() <= units(high) * units(pixels_per_second)
    &&& units(high) * one_units() <= most_units() * units(clip.duration_secs)
}

/// The ratio is 0 where a clip's start is drawn and left of it, and 1 where its end is drawn and
/// right of it, wherever the clip starts. `end` is where the clip ends, in seconds.
pub proof fn the_ratio_is_0_at_the_start_and_1_at_the_end<A: Arith>(
    m: &A,
    x: Num,
    pixels_per_second: Num,
    clip: &AudioClip,
    pixels: Num,
    high: Num,
    end: Num,
    r: Num,
)
    requires
        faithful(m),
        gives(m, ratio_formula(x, pixels_per_second, clip), r),
        can_be_compared(x, pixels_per_second, clip, pixels, high),
        end.is_finite(),
        units(end) == units(clip.start_time_secs) + units(clip.duration_secs),
    ensures
        units(pixels) * one_units() <= units(clip.start_time_secs) * units(pixels_per_second)
            ==> r.order() == 0,
        units(pixels) * one_units() >= units(end) * units(pixels_per_second) ==> r.bits == ONE,
{
    let (zero, one) = (Num { bits: ZERO }, Num { bits: ONE });
    let start = clip.start_time_secs;
    let duration = clip.duration_secs;
    let u = one_units();
    let pps = units(pixels_per_second);
    let exact = units(pixels) * u;
    lemma_constants();
    let (t, e, q) = lemma_ratio(m, x, pixels_per_second, clip, pixels, high, r);
    lemma_units_grow(zero, q);
    lemma_units_grow(q, zero);
    lemma_units_grow(one, q);
    lemma_units_grow(q, one);
    if exact <= units(start) * pps {
        lemma_not_above(exact, pps, t, start);
        lemma_not_above(units(t) - units(start), 1, e, zero);
        assert(units(e) * u <= 0 * units(duration)) by (nonlinear_arith)
            requires
                units(e) <= 0,
                u > 0,
        ;
        lemma_not_above(units(e) * u, units(duration), q, zero);
    }
    if exact >= units(end) * pps {
        lemma_not_below(exact, pps, t, end);
        lemma_not_below(units(t) - units(start), 1, e, duration);
        assert(u * units(duration) <= units(e) * u) by (nonlinear_arith)
            requires
                units(e) >= units(duration),
                u > 0,
        ;
        lemma_not_below(units(e) * u, units(duration), q, one);
    }
}

/// Between start and end the ratio is how far the time lies behind the start, in durations.
/// `time` is the time under the position, and `into` how far it lies behind the start.
pub proof fn the_ratio_is_the_share_of_the_duration<A: Arith>(
    m: &A,
    x: Num,
    pixels_per_second: Num,
    clip: &AudioClip,
    pixels: Num,
    high: Num,
    time: Num,
    into: Num,
    r: Num,
)
    requires
        faithful(m),
        gives(m, ratio_formula(x, pixels_per_second, clip), r),
        can_be_compared(x, pixels_per_second, clip, pixels, high),
        time.is_finite(),
        units(time) * units(pixels_per_second) == units(pixels) * one_units(),
        into.is_finite(),
        units(into) == units(time) - units(clip.start_time_secs),
        0 <= units(into) <= units(clip.duration_secs),
    ensures
        is_nearest(units(into) * one_units(), units(clip.duration_secs), r),
{
    let (zero, one) = (Num { bits: ZERO }, Num { bits: ONE });
    let start = clip.start_time_secs;
    let duration = clip.duration_secs;
    let u = one_units();
    lemma_constants();
    let (t, e, q) = lemma_ratio(m, x, pixels_per_second, clip, pixels, high, r);
    lemma_exact(units(pixels) * u, units(pixels_per_second), t, time);
    lemma_exact(units(t) - units(start), 1, e, into);
    let exact = units(into) * u;
    assert(0 * units(duration) <= exact <= u * units(duration)) by (nonlinear_arith)
        requires
            exact == units(into) * u,
            0 <= units(into) <= units(duration),
            u > 0,
    ;
    lemma_not_below(exact, units(duration), q, zero);
    lemma_not_above(exact, units(duration), q, one);
    lemma_units_grow(zero, q);
    lemma_units_grow(q, zero);
    lemma_units_grow(one, q);
    lemma_units_grow(q, one);
    assert(units(r) == units(q));
    assert forall|v: Num| v.is_finite() implies distance(units(r) * units(duration), exact)
        <= distance(#[trigger] units(v) * units(duration), exact) by {
        assert(distance(units(q) * units(duration), exact) <= distance(
            units(v) * units(duration),
            exact,
        ));
    }
}

/// To move a clip and the mouse by the same time leaves the ratio as it was. The times under the
/// two positions are `time` and `moved_time`, and both lie `into` seconds behind the start.
pub proof fn the_ratio_moves_with_the_clip<A: Arith>(
    m: &A,
    pixels_per_second: Num,
    high: Num,
    into: Num,
    clip: &AudioClip,
    x: Num,
    pixels: Num,
    time: Num,
    r: Num,
    moved: &AudioClip,
    moved_x: Num,
    moved_pixels: Num,
    moved_time: Num,
    moved_r: Num,
)
    requires
        faithful(m),
        functional(m),
        gives(m, ratio_formula(x, pixels_per_second, clip), r),
        gives(m, ratio_formula(moved_x, pixels_per_second, moved), moved_r),
        can_be_compared(x, pixels_per_second, clip, pixels, high),
        can_be_compared(moved_x, pixels_per_second, moved, moved_pixels, high),
        time.is_finite(),
        moved_time.is_finite(),
        units(time) * units(pixels_per_second) == units(pixels) * one_units(),
        units(moved_time) * units(pixels_per_second) == units(moved_pixels) * one_units(),
        into.is_finite(),
        units(into) == units(time) - units(clip.start_time_secs),
        units(into) == units(moved_time) - units(moved.start_time_secs),
        moved.duration_secs == clip.duration_secs,
    ensures
        moved_r.order() == r.order(),
{
    let (zero, one) = (Num { bits: ZERO }, Num { bits: ONE });
    let u = one_units();
    let pps = units(pixels_per_second);
    let d = units(clip.duration_secs);
    lemma_constants();
    let (t, e, q) = lemma_ratio(m, x, pixels_per_second, clip, pixels, high, r);
    let (s, f, p) = lemma_ratio(
        m,
        moved_x,
        pixels_per_second,
        moved,
        moved_pixels,
        high,
        moved_r,
    );
    lemma_exact(units(pixels) * u, pps, t, time);
    lemma_exact(units(moved_pixels) * u, pps, s, moved_time);
    lemma_exact(units(into), 1, e, into);
    lemma_exact(units(into), 1, f, into);
    lemma_units_grow(e, f);
    if e.order() != 0 {
        assert(e == f);
        assert(p == q);
    } else {
        lemma_units_grow(zero, e);
        lemma_units_grow(e, zero);
        assert(units(e) * u == 0 && units(f) * u == 0 && 0 * d == 0) by (nonlinear_arith)
            requires
                units(e) == 0,
                units(f) == 0,
        ;
        lemma_exact(0, d, q, zero);
        lemma_exact(0, d, p, zero);
        lemma_units_grow(p, q);
        lemma_units_grow(q, zero);
    }
}

} // verus!
