//! What the mouse and the clock do to the timeline, in lanes, seconds and pixels.
use vstd::prelude::*;

use crate::arith::{count, gives, gives_count, gives_pixels, lit, val, Arith, Formula};
use crate::clip::AudioClip;
use crate::exact::{
    distance, faithful, is_nearest, is_snappable, lemma_above_one, lemma_constants, lemma_count,
    lemma_exact, lemma_most, lemma_not_above, lemma_not_below, lemma_units_grow, lemma_whole,
    most_units, nearest_whole, one_units, units, BINADE,
};
use crate::laws::snapping_lands_on_the_grid;
use crate::meaning::{at_least_none, lemma_nearest_unscaled, lemma_whole_part};
use crate::mouse::{
    closer_formula, drag_formula, grip_formula, is_canvas_size, is_clip_put, is_drag_lane,
    is_dragged, is_grabbed, is_pressed, is_selection_drawn, is_ticked, seconds_formula,
    wider_formula, BILLION, BOTTOM_MARGIN, CLIP_MARGIN_Y, CLOSEST_ZOOM, GRIP_HEIGHT, RIGHT_MARGIN,
    WIDEST_ZOOM, ZOOM_STEP,
};
use crate::num::{Num, ONE, ZERO};
use crate::places::{
    is_right_of_headers, lemma_header, the_time_under_the_mouse_is_its_distance_from_the_headers,
};
use crate::timeline::{
    are_ends, index_of, is_under, lane_formula, lemma_index_of, ratio_formula, snap_formula,
    time_formula, topmost, TimelineState, GRID, HEADER_WIDTH, LAST_DRAG_LANE, RULER_HEIGHT,
    TRACK_HEIGHT,
};

verus! {

/// What the sizes on the screen are worth.
proof fn lemma_sizes()
    ensures
        units(Num { bits: RULER_HEIGHT }) == 28 * one_units(),
        units(Num { bits: TRACK_HEIGHT }) == 86 * one_units(),
        units(Num { bits: CLIP_MARGIN_Y }) == 12 * one_units(),
        units(Num { bits: GRIP_HEIGHT }) == 22 * one_units(),
        units(Num { bits: RIGHT_MARGIN }) == 300 * one_units(),
        units(Num { bits: BOTTOM_MARGIN }) == 80 * one_units(),
        units(Num { bits: BILLION }) == 1_000_000_000 * one_units(),
{
    vstd::arithmetic::power2::lemma2_to64();
    lemma_above_one(RULER_HEIGHT as int, 4, 28);
    lemma_above_one(TRACK_HEIGHT as int, 6, 86);
    lemma_above_one(CLIP_MARGIN_Y as int, 3, 12);
    lemma_above_one(GRIP_HEIGHT as int, 4, 22);
    lemma_above_one(RIGHT_MARGIN as int, 8, 300);
    lemma_above_one(BOTTOM_MARGIN as int, 6, 80);
    lemma_above_one(BILLION as int, 29, 1_000_000_000);
}

/// Values that are worth the same are as near.
proof fn lemma_as_near(exact: int, scale: int, q: Num, r: Num)
    requires
        is_nearest(exact, scale, q),
        r.is_finite(),
        units(r) == units(q),
    ensures
        is_nearest(exact, scale, r),
{
    assert forall|v: Num| v.is_finite() implies distance(units(r) * scale, exact) <= distance(
        #[trigger] units(v) * scale,
        exact,
    ) by {
        assert(distance(units(q) * scale, exact) <= distance(units(v) * scale, exact));
    }
}

/// Whether `pixels` is how far a vertical position lies below the ruler, which is 28 pixels high.
pub open spec fn is_below_ruler(y: Num, pixels: Num) -> bool {
    pixels.is_finite() && units(pixels) == units(y) - 28 * one_units()
}

/// Whether a lane is the one at so many pixels below the ruler, where each lane is 86 pixels high:
/// exactly on the lane's upper edge and wherever a value tells the position from the next lane,
/// else that lane or the next.
pub open spec fn is_lane_at(lane: int, pixels: Num) -> bool {
    let k = units(pixels) / (86 * one_units());
    &&& k <= lane <= k + 1
    &&& units(pixels) == k * (86 * one_units()) ==> lane == k
    &&& forall|near: Num|
        near.is_finite() && #[trigger] units(near) < (k + 1) * one_units() && units(pixels) <= 86
            * units(near) ==> lane < k + 1
}

/// The lane under a position is its distance from the ruler, divided by the height of a lane.
pub proof fn the_lane_under_the_mouse_is_its_distance_from_the_ruler<A: Arith>(
    m: &A,
    y: Num,
    pixels: Num,
    lane: usize,
)
    requires
        faithful(m),
        gives_count(m, lane_formula(y), lane),
        y.is_finite(),
        is_below_ruler(y, pixels),
        units(pixels) >= 0,
        units(pixels) / (86 * one_units()) < 0x20_0000_0000_0000,
        units(pixels) / (86 * one_units()) < usize::MAX,
    ensures
        is_lane_at(lane as int, pixels),
{
    let one = one_units();
    lemma_constants();
    lemma_sizes();
    let q = choose|q: Num| #[trigger]
        gives(m, lane_formula(y), q) && call_ensures(A::to_count, (m, q), lane);
    let f = val(y) - lit(RULER_HEIGHT);
    let (d, t) = choose|d: Num, t: Num|
        gives(m, f, d) && gives(m, lit(TRACK_HEIGHT), t) && #[trigger] call_ensures(
            A::over,
            (m, d, t),
            q,
        );
    let (a, b) = choose|a: Num, b: Num|
        gives(m, val(y), a) && gives(m, lit(RULER_HEIGHT), b) && #[trigger] call_ensures(
            A::minus,
            (m, a, b),
            d,
        );
    assert(a == y && b.bits == RULER_HEIGHT && t.bits == TRACK_HEIGHT);
    lemma_most(pixels);
    lemma_exact(units(pixels), 1, d, pixels);
    let x = units(pixels);
    let h = 86 * one;
    let k = x / h;
    vstd::arithmetic::div_mod::lemma_fundamental_div_mod(x, h);
    vstd::arithmetic::div_mod::lemma_mod_bound(x, h);
    vstd::arithmetic::div_mod::lemma_div_pos_is_pos(x, h);
    assert(k * h <= x < (k + 1) * h) by (nonlinear_arith)
        requires
            x == h * k + x % h,
            0 <= x % h < h,
    ;
    let lo = lemma_whole(k);
    let hi = lemma_whole(k + 1);
    lemma_most(hi);
    let exact = x * one;
    assert(units(lo) * h == (k * h) * one && units(hi) * h == ((k + 1) * h) * one)
        by (nonlinear_arith)
        requires
            units(lo) == k * one,
            units(hi) == (k + 1) * one,
    ;
    assert((k * h) * one <= exact <= ((k + 1) * h) * one && exact >= 0) by (nonlinear_arith)
        requires
            exact == x * one,
            0 <= x,
            k * h <= x < (k + 1) * h,
            one > 0,
    ;
    assert(units(hi) * h <= most_units() * h) by (nonlinear_arith)
        requires
            units(hi) <= most_units(),
            h > 0,
    ;
    assert(is_nearest(exact, h, q));
    lemma_not_below(exact, h, q, lo);
    lemma_not_above(exact, h, q, hi);
    lemma_whole_part(units(q), k, k + 1);
    if x == k * h {
        lemma_not_above(exact, h, q, lo);
        lemma_whole_part(units(q), k, k);
    }
    assert forall|near: Num|
        near.is_finite() && #[trigger] units(near) < (k + 1) * one && x <= 86 * units(
            near,
        ) implies lane < k + 1 by {
        let n = units(near);
        assert(exact <= n * h) by (nonlinear_arith)
            requires
                exact == x * one,
                x <= 86 * n,
                h == 86 * one,
                one > 0,
        ;
        lemma_not_above(exact, h, q, near);
        let u = units(q);
        vstd::arithmetic::div_mod::lemma_fundamental_div_mod(u, one);
        vstd::arithmetic::div_mod::lemma_mod_bound(u, one);
        assert(u / one < k + 1) by (nonlinear_arith)
            requires
                u == one * (u / one) + u % one,
                0 <= u % one < one,
                u < (k + 1) * one,
        ;
    }
}

/// Whether a clip that ends at `end` lies on a lane and at a time, both of its edges included.
pub open spec fn is_there(clip: &AudioClip, end: Num, lane: usize, time: Num) -> bool {
    &&& clip.lane == lane
    &&& clip.start_time_secs.order() <= time.order()
    &&& time.order() <= end.order()
    &&& clip.start_time_secs.is_number()
    &&& time.is_number()
    &&& end.is_number()
}

/// The topmost clip is the last that is there.
proof fn lemma_topmost(clips: Seq<AudioClip>, ends: Seq<Num>, lane: usize, time: Num)
    requires
        clips.len() <= ends.len(),
    ensures
        match topmost(clips, ends, lane as int, time) {
            Some(id) => exists|i: int|
                {
                    &&& 0 <= i < clips.len()
                    &&& #[trigger] clips[i].id == id
                    &&& is_there(&clips[i], ends[i], lane, time)
                    &&& forall|j: int|
                        i < j < clips.len() ==> !is_there(&#[trigger] clips[j], ends[j], lane, time)
                },
            None => forall|j: int|
                0 <= j < clips.len() ==> !is_there(&#[trigger] clips[j], ends[j], lane, time),
        },
    decreases clips.len(),
{
    if clips.len() > 0 {
        let n = clips.len() - 1;
        assert(is_under(&clips[n], ends[n], lane as int, time) == is_there(
            &clips[n],
            ends[n],
            lane,
            time,
        ));
        assert(clips.last() == clips[n]);
        let rest = clips.drop_last();
        if is_under(&clips.last(), ends[n], lane as int, time) {
            assert(clips[n].id == clips.last().id);
        } else {
            lemma_topmost(rest, ends, lane, time);
            match topmost(rest, ends, lane as int, time) {
                Some(id) => {
                    let i = choose|i: int|
                        {
                            &&& 0 <= i < rest.len()
                            &&& #[trigger] rest[i].id == id
                            &&& is_there(&rest[i], ends[i], lane, time)
                            &&& forall|j: int|
                                i < j < rest.len() ==> !is_there(
                                    &#[trigger] rest[j],
                                    ends[j],
                                    lane,
                                    time,
                                )
                        };
                    assert(clips[i] == rest[i]);
                    assert forall|j: int| i < j < clips.len() implies !is_there(
                        &#[trigger] clips[j],
                        ends[j],
                        lane,
                        time,
                    ) by {
                        if j < n {
                            assert(rest[j] == clips[j]);
                        }
                    }
                },
                None => {
                    assert forall|j: int| 0 <= j < clips.len() implies !is_there(
                        &#[trigger] clips[j],
                        ends[j],
                        lane,
                        time,
                    ) by {
                        if j < n {
                            assert(rest[j] == clips[j]);
                        }
                    }
                },
            }
        }
    }
}

/// What is hit at a position of the window is the last of the clips that lie there: on the lane at
/// that height, at the time at that place. Over the headers and the ruler nothing is hit.
pub proof fn a_hit_clip_lies_under_the_mouse<A: Arith>(
    m: &A,
    state: &TimelineState,
    x: Num,
    y: Num,
    right: Num,
    below: Num,
    hit: Option<u32>,
)
    requires
        faithful(m),
        state.is_hit(m, x, y, hit),
        x.is_finite(),
        y.is_finite(),
        is_right_of_headers(x, right),
        is_below_ruler(y, below),
        state.pixels_per_second.is_finite(),
        units(state.pixels_per_second) > 0,
        distance(units(right) * one_units(), 0) <= most_units() * units(state.pixels_per_second),
        units(below) / (86 * one_units()) < 0x20_0000_0000_0000,
        units(below) / (86 * one_units()) < usize::MAX,
    ensures
        units(right) < 0 || units(below) < 0 ==> hit is None,
        units(right) >= 0 && units(below) >= 0 ==> exists|time: Num, lane: usize, ends: Seq<Num>|
            {
                let clips = state.clips@;
                &&& #[trigger] is_nearest(
                    units(right) * one_units(),
                    units(state.pixels_per_second),
                    time,
                )
                &&& #[trigger] is_lane_at(lane as int, below)
                &&& #[trigger] are_ends(m, state.clips@, ends)
                &&& match hit {
                    Some(id) => exists|i: int|
                        {
                            &&& 0 <= i < clips.len()
                            &&& #[trigger] clips[i].id == id
                            &&& is_there(&clips[i], ends[i], lane, time)
                            &&& forall|j: int|
                                i < j < clips.len() ==> !is_there(
                                    &#[trigger] clips[j],
                                    ends[j],
                                    lane,
                                    time,
                                )
                        },
                    None => forall|j: int|
                        0 <= j < clips.len() ==> !is_there(
                            &#[trigger] clips[j],
                            ends[j],
                            lane,
                            time,
                        ),
                }
            },
{
    let (header, ruler) = (Num { bits: HEADER_WIDTH }, Num { bits: RULER_HEIGHT });
    lemma_header();
    lemma_sizes();
    lemma_units_grow(x, header);
    lemma_units_grow(header, x);
    lemma_units_grow(y, ruler);
    lemma_units_grow(ruler, y);
    if units(right) >= 0 && units(below) >= 0 {
        let (time, lane, ends) = choose|time: Num, lane: usize, ends: Seq<Num>|
            {
                &&& #[trigger] gives(m, time_formula(x, state.pixels_per_second), time)
                &&& #[trigger] gives_count(m, lane_formula(y), lane)
                &&& #[trigger] are_ends(m, state.clips@, ends)
                &&& hit == topmost(state.clips@, ends, lane as int, time)
            };
        the_time_under_the_mouse_is_its_distance_from_the_headers(
            m,
            x,
            state.pixels_per_second,
            right,
            time,
        );
        the_lane_under_the_mouse_is_its_distance_from_the_ruler(m, y, below, lane);
        lemma_topmost(state.clips@, ends, lane, time);
    }
}

/// Whether every value of a formula is a whole number.
pub(crate) open spec fn is_whole<A: Arith>(m: &A, f: Formula, k: int) -> bool {
    forall|v: Num| #[trigger] gives(m, f, v) ==> v.is_finite() && units(v) == k * one_units()
}

/// A sum of whole numbers.
pub(crate) proof fn lemma_whole_plus<A: Arith>(m: &A, f: Formula, g: Formula, j: int, k: int)
    requires
        faithful(m),
        is_whole(m, f, j),
        is_whole(m, g, k),
        0 <= j,
        0 <= k,
        j + k <= 0x20_0000_0000_0000,
    ensures
        is_whole(m, f + g, j + k),
{
    lemma_constants();
    let sum = lemma_whole(j + k);
    lemma_most(sum);
    assert forall|v: Num| #[trigger] gives(m, f + g, v) implies v.is_finite() && units(v) == (j + k)
        * one_units() by {
        let (a, b) = choose|a: Num, b: Num|
            gives(m, f, a) && gives(m, g, b) && #[trigger] call_ensures(A::plus, (m, a, b), v);
        assert(units(a) + units(b) == (j + k) * one_units()) by (nonlinear_arith)
            requires
                units(a) == j * one_units(),
                units(b) == k * one_units(),
        ;
        lemma_exact(units(a) + units(b), 1, v, sum);
    }
}

/// A product of whole numbers.
pub(crate) proof fn lemma_whole_times<A: Arith>(m: &A, f: Formula, g: Formula, j: int, k: int)
    requires
        faithful(m),
        is_whole(m, f, j),
        is_whole(m, g, k),
        0 <= j,
        0 <= k,
        j * k <= 0x20_0000_0000_0000,
    ensures
        is_whole(m, f * g, j * k),
{
    lemma_constants();
    let one = one_units();
    assert(j * k >= 0) by (nonlinear_arith)
        requires
            j >= 0,
            k >= 0,
    ;
    let product = lemma_whole(j * k);
    lemma_most(product);
    assert forall|v: Num| #[trigger] gives(m, f * g, v) implies v.is_finite() && units(v) == (j * k)
        * one by {
        let (a, b) = choose|a: Num, b: Num|
            gives(m, f, a) && gives(m, g, b) && #[trigger] call_ensures(A::times, (m, a, b), v);
        let exact = units(a) * units(b);
        assert(exact == units(product) * one) by (nonlinear_arith)
            requires
                exact == (j * one) * (k * one),
                units(product) == (j * k) * one,
        ;
        assert(0 <= units(product) * one <= most_units() * one) by (nonlinear_arith)
            requires
                0 <= units(product) <= most_units(),
                one > 0,
        ;
        lemma_exact(exact, one, v, product);
    }
}

/// Counts and the sizes on the screen are whole numbers.
pub(crate) proof fn lemma_whole_sizes<A: Arith>(m: &A, n: u64)
    requires
        faithful(m),
        n <= 0x20_0000_0000_0000,
    ensures
        is_whole(m, count(n), n as int),
        is_whole(m, lit(HEADER_WIDTH), 170),
        is_whole(m, lit(RULER_HEIGHT), 28),
        is_whole(m, lit(TRACK_HEIGHT), 86),
        is_whole(m, lit(CLIP_MARGIN_Y), 12),
        is_whole(m, lit(GRIP_HEIGHT), 22),
        is_whole(m, lit(RIGHT_MARGIN), 300),
        is_whole(m, lit(BOTTOM_MARGIN), 80),
{
    lemma_sizes();
    lemma_header();
    assert forall|v: Num| #[trigger] gives(m, count(n), v) implies v.is_finite() && units(v) == n
        * one_units() by {
        lemma_count(m, n, v);
    }
}

/// A clip is taken hold of to be moved by the strip that ends 34 pixels below the upper edge of its
/// lane, and to select in it below that strip. Lanes are 86 pixels high, the ruler 28.
pub proof fn a_clip_is_moved_by_its_strip<A: Arith>(
    m: &A,
    before: &TimelineState,
    i: int,
    x: Num,
    y: Num,
    after: &TimelineState,
)
    requires
        faithful(m),
        is_grabbed(m, before, i, x, y, after),
        before.clips@[i].lane <= 0x100_0000_0000,
        y.is_finite(),
    ensures
        ({
            let edge = (28 + 86 * before.clips@[i].lane + 34) * one_units();
            &&& units(y) < edge ==> after.mouse_mode is MoveClip
            &&& units(y) >= edge ==> after.mouse_mode is SelectInClip
            &&& after.selected_clip_id == Some(before.clips@[i].id)
            &&& after.drag_clip_id == Some(before.clips@[i].id)
            &&& after.playhead_secs == before.playhead_secs
        }),
{
    let lane = before.clips@[i].lane;
    lemma_whole_sizes(m, lane as u64);
    let (n, k) = (count(lane as u64), lane as int);
    lemma_whole_times(m, n, lit(TRACK_HEIGHT), k, 86);
    lemma_whole_plus(m, lit(RULER_HEIGHT), n * lit(TRACK_HEIGHT), 28, k * 86);
    let top = lit(RULER_HEIGHT) + n * lit(TRACK_HEIGHT);
    lemma_whole_plus(m, top, lit(CLIP_MARGIN_Y), 28 + k * 86, 12);
    lemma_whole_plus(m, top + lit(CLIP_MARGIN_Y), lit(GRIP_HEIGHT), 40 + k * 86, 22);
    let grip = choose|grip: Num| #[trigger]
        gives(m, grip_formula(lane), grip) && (if y.lt(grip) {
            after.mouse_mode is MoveClip
        } else {
            after.mouse_mode is SelectInClip
        });
    lemma_units_grow(y, grip);
    lemma_units_grow(grip, y);
}

/// The lane to which a clip is dragged is the one under the mouse, at most the 64th, and the first
/// where the mouse is not below the ruler.
pub proof fn a_clip_is_dragged_to_the_lane_under_the_mouse<A: Arith>(
    m: &A,
    y: Num,
    below: Num,
    lane: usize,
)
    requires
        faithful(m),
        is_drag_lane(m, y, lane),
        y.is_finite(),
        is_below_ruler(y, below),
        units(below) / (86 * one_units()) < 0x20_0000_0000_0000,
        units(below) / (86 * one_units()) < usize::MAX,
    ensures
        units(below) <= 0 ==> lane == 0,
        units(below) > 0 ==> lane <= 63 && (lane < 63 ==> is_lane_at(lane as int, below)) && (lane
            == 63 ==> exists|under: int| under >= 63 && #[trigger] is_lane_at(under, below)),
{
    lemma_sizes();
    let ruler = Num { bits: RULER_HEIGHT };
    lemma_units_grow(y, ruler);
    lemma_units_grow(ruler, y);
    if units(below) > 0 {
        let under = choose|under: usize| #[trigger]
            gives_count(m, lane_formula(y), under) && lane == (if under < LAST_DRAG_LANE {
                under
            } else {
                LAST_DRAG_LANE
            });
        the_lane_under_the_mouse_is_its_distance_from_the_ruler(m, y, below, under);
        assert(is_lane_at(under as int, below));
    }
}

/// A clip that is taken hold of and dragged follows the mouse: it starts on the quarter of a second
/// nearest to where it started plus the time by which the mouse was moved, at zero at the earliest.
/// Nothing but its start and its lane changes, and no other clip.
/// `time` is the time under the mouse when it was put down and `offset` how far that lies behind
/// the clip's start. `new_time` is the time under the mouse now and `target` how far the offset
/// lies before that.
pub proof fn a_dragged_clip_follows_the_mouse<A: Arith>(
    m: &A,
    before: &TimelineState,
    i: int,
    x: Num,
    y: Num,
    right: Num,
    time: Num,
    offset: Num,
    held: &TimelineState,
    new_x: Num,
    new_y: Num,
    new_right: Num,
    new_time: Num,
    target: Num,
    after: &TimelineState,
)
    requires
        faithful(m),
        before.wf(),
        0 <= i < before.clips@.len(),
        is_grabbed(m, before, i, x, y, held),
        held.mouse_mode is MoveClip,
        is_dragged(m, held, before.clips@[i].id, new_x, new_y, after),
        before.pixels_per_second.is_finite(),
        units(before.pixels_per_second) > 0,
        before.clips@[i].start_time_secs.is_finite(),
        x.is_finite(),
        is_right_of_headers(x, right),
        distance(units(right) * one_units(), 0) <= most_units() * units(before.pixels_per_second),
        time.is_finite(),
        units(time) * units(before.pixels_per_second) == units(right) * one_units(),
        offset.is_finite(),
        units(offset) == units(time) - units(before.clips@[i].start_time_secs),
        new_x.is_finite(),
        is_right_of_headers(new_x, new_right),
        distance(units(new_right) * one_units(), 0) <= most_units() * units(
            before.pixels_per_second,
        ),
        new_time.is_finite(),
        units(new_time) * units(before.pixels_per_second) == units(new_right) * one_units(),
        target.is_finite(),
        units(target) == units(new_time) - units(offset),
        is_snappable(target),
    ensures
        after.clips@.len() == before.clips@.len(),
        forall|j: int|
            0 <= j < before.clips@.len() && j != i ==> #[trigger] after.clips@[j]
                == before.clips@[j],
        ({
            let moved = after.clips@[i];
            let clip = before.clips@[i];
            let by = units(new_time) - units(time);
            let quarter = units(Num { bits: GRID });
            &&& 4 * quarter == one_units()
            &&& units(moved.start_time_secs) == nearest_whole(
                at_least_none(units(clip.start_time_secs) + by),
                quarter,
            ) * quarter
            &&& moved == (AudioClip {
                start_time_secs: moved.start_time_secs,
                lane: moved.lane,
                ..clip
            })
            &&& is_drag_lane(m, new_y, moved.lane)
        }),
{
    let clip = before.clips@[i];
    let pps = before.pixels_per_second;
    let zero = Num { bits: ZERO };
    // What is remembered of the place where the clip is held.
    let held_at = held.drag_offset_secs;
    let behind = time_formula(x, pps) - val(clip.start_time_secs);
    assert(gives(m, behind, held_at));
    let (t, c) = choose|t: Num, c: Num|
        gives(m, time_formula(x, pps), t) && gives(m, val(clip.start_time_secs), c)
            && #[trigger] call_ensures(A::minus, (m, t, c), held_at);
    assert(c == clip.start_time_secs);
    the_time_under_the_mouse_is_its_distance_from_the_headers(m, x, pps, right, t);
    lemma_exact(units(right) * one_units(), units(pps), t, time);
    lemma_most(offset);
    lemma_exact(units(offset), 1, held_at, offset);
    // Where the clip is put.
    let put = time_formula(new_x, pps) - val(held_at);
    let (at, start, lane) = choose|at: Num, start: Num, lane: usize|
        {
            &&& #[trigger] gives(
                m,
                drag_formula(new_x, held.pixels_per_second, held.drag_offset_secs),
                at,
            )
            &&& #[trigger] gives(m, snap_formula(at, Num { bits: GRID }), start)
            &&& #[trigger] is_drag_lane(m, new_y, lane)
            &&& is_clip_put(held, clip.id, start, lane, after)
        };
    let r = choose|r: Num| gives(m, put, r) && at == #[trigger] r.max(zero);
    let (s, o) = choose|s: Num, o: Num|
        gives(m, time_formula(new_x, pps), s) && gives(m, val(held_at), o)
            && #[trigger] call_ensures(A::minus, (m, s, o), r);
    assert(o == held_at);
    the_time_under_the_mouse_is_its_distance_from_the_headers(m, new_x, pps, new_right, s);
    lemma_exact(units(new_right) * one_units(), units(pps), s, new_time);
    lemma_most(target);
    lemma_exact(units(target), 1, r, target);
    lemma_units_grow(r, target);
    lemma_units_grow(r, zero);
    lemma_units_grow(zero, r);
    assert(units(at) == at_least_none(units(target)));
    snapping_lands_on_the_grid(m, at, start);
    lemma_index_of(held.clips@, clip.id);
    let k = index_of(held.clips@, clip.id);
    assert(held.clips@ == before.clips@);
    assert(held.clips@[i].id == clip.id);
    assert(k == Some(i));
}

/// The height of the drawing is that of the ruler, of all lanes and of the room below them. Its
/// width is that of the headers, of the timeline's duration and of the room to the right of it, up
/// to one pixel.
pub proof fn the_drawing_holds_all_lanes_and_the_whole_duration<A: Arith>(
    m: &A,
    state: &TimelineState,
    size: (i32, i32),
)
    requires
        faithful(m),
        is_canvas_size(m, state, size),
        state.lanes <= 0x10_0000,
        state.pixels_per_second.is_finite(),
        units(state.pixels_per_second) > 0,
        forall|duration: Num| #[trigger]
            state.is_duration(m, duration) ==> duration.is_finite() && 0 <= units(duration)
                * units(state.pixels_per_second) <= 0x1000_0000 * (one_units() * one_units()),
    ensures
        size.1 == 28 + 86 * state.lanes + 80,
        exists|duration: Num|
            {
                let pixels = size.0 - 470;
                let exact = units(duration) * units(state.pixels_per_second);
                let unit = one_units() * one_units();
                &&& #[trigger] state.is_duration(m, duration)
                &&& (pixels - 1) * unit <= exact < (pixels + 1) * unit
            },
{
    let one = one_units();
    lemma_constants();
    let n = count(state.lanes as u64);
    let k = state.lanes as int;
    lemma_whole_sizes(m, state.lanes as u64);
    lemma_whole_times(m, n, lit(TRACK_HEIGHT), k, 86);
    lemma_whole_plus(m, lit(RULER_HEIGHT), n * lit(TRACK_HEIGHT), 28, k * 86);
    let lanes = lit(RULER_HEIGHT) + n * lit(TRACK_HEIGHT);
    lemma_whole_plus(m, lanes, lit(BOTTOM_MARGIN), 28 + k * 86, 80);
    let h = choose|v: Num| #[trigger]
        gives(m, lanes + lit(BOTTOM_MARGIN), v) && call_ensures(A::to_pixels, (m, v), size.1);
    let height = 108 + k * 86;
    lemma_whole_part(units(h), height, height);
    assert(units(h) <= i32::MAX * one) by (nonlinear_arith)
        requires
            units(h) == height * one,
            height <= i32::MAX,
            one > 0,
    ;
    assert(size.1 == height);
    let pps = state.pixels_per_second;
    let duration = choose|duration: Num| #[trigger]
        state.is_duration(m, duration) && gives_pixels(
            m,
            lit(HEADER_WIDTH) + val(duration) * val(pps) + lit(RIGHT_MARGIN),
            size.0,
        );
    let f = val(duration) * val(pps);
    let w = choose|v: Num| #[trigger]
        gives(m, lit(HEADER_WIDTH) + f + lit(RIGHT_MARGIN), v) && call_ensures(
            A::to_pixels,
            (m, v),
            size.0,
        );
    let (a, b) = choose|a: Num, b: Num|
        gives(m, lit(HEADER_WIDTH) + f, a) && gives(m, lit(RIGHT_MARGIN), b)
            && #[trigger] call_ensures(A::plus, (m, a, b), w);
    let (c, d) = choose|c: Num, d: Num|
        gives(m, lit(HEADER_WIDTH), c) && gives(m, f, d) && #[trigger] call_ensures(
            A::plus,
            (m, c, d),
            a,
        );
    let (x, y) = choose|x: Num, y: Num|
        gives(m, val(duration), x) && gives(m, val(pps), y) && #[trigger] call_ensures(
            A::times,
            (m, x, y),
            d,
        );
    assert(x == duration && y == pps);
    let exact = units(duration) * units(pps);
    let unit = one * one;
    assert(unit > 0) by (nonlinear_arith)
        requires
            unit == one * one,
            one > 0,
    ;
    let p = exact / unit;
    vstd::arithmetic::div_mod::lemma_fundamental_div_mod(exact, unit);
    vstd::arithmetic::div_mod::lemma_mod_bound(exact, unit);
    vstd::arithmetic::div_mod::lemma_div_pos_is_pos(exact, unit);
    vstd::arithmetic::div_mod::lemma_div_is_ordered(exact, 0x1000_0000 * unit, unit);
    vstd::arithmetic::div_mod::lemma_div_by_multiple(0x1000_0000, unit);
    assert(p * unit <= exact < (p + 1) * unit) by (nonlinear_arith)
        requires
            exact == unit * p + exact % unit,
            0 <= exact % unit < unit,
    ;
    let (lo, hi) = (lemma_whole(p), lemma_whole(p + 1));
    let (lo1, hi1) = (lemma_whole(p + 170), lemma_whole(p + 171));
    let (lo2, hi2) = (lemma_whole(p + 470), lemma_whole(p + 471));
    lemma_most(hi2);
    assert(p * unit == units(lo) * one && (p + 1) * unit == units(hi) * one) by (nonlinear_arith)
        requires
            units(lo) == p * one,
            units(hi) == (p + 1) * one,
            unit == one * one,
    ;
    assert(units(hi1) == units(hi) + 170 * one && units(hi2) == units(hi) + 470 * one && units(lo1)
        == units(lo) + 170 * one && units(lo2) == units(lo) + 470 * one && 0 <= units(lo)
        <= units(hi)) by (nonlinear_arith)
        requires
            units(lo) == p * one,
            units(hi) == (p + 1) * one,
            units(lo1) == (p + 170) * one,
            units(hi1) == (p + 171) * one,
            units(lo2) == (p + 470) * one,
            units(hi2) == (p + 471) * one,
            p >= 0,
            one > 0,
    ;
    assert(exact <= most_units() * one) by (nonlinear_arith)
        requires
            exact <= units(hi) * one,
            units(hi) <= most_units(),
            one > 0,
    ;
    lemma_not_below(exact, one, d, lo);
    lemma_not_above(exact, one, d, hi);
    lemma_not_below(units(c) + units(d), 1, a, lo1);
    lemma_not_above(units(c) + units(d), 1, a, hi1);
    lemma_not_below(units(a) + units(b), 1, w, lo2);
    lemma_not_above(units(a) + units(b), 1, w, hi2);
    lemma_whole_part(units(w), p + 470, p + 471);
    assert(units(w) <= i32::MAX * one) by (nonlinear_arith)
        requires
            units(w) <= (p + 471) * one,
            p <= 0x1000_0000,
            one > 0,
    ;
    let pixels = size.0 - 470;
    assert((pixels - 1) * unit <= p * unit && (p + 1) * unit <= (pixels + 1) * unit)
        by (nonlinear_arith)
        requires
            p <= pixels <= p + 1,
            unit > 0,
    ;
}

/// A press where there is no clip, right of the headers and below the ruler, moves the playhead to
/// the time there and selects nothing. No clip changes.
pub proof fn a_press_beside_the_clips_moves_the_playhead_there<A: Arith>(
    m: &A,
    before: &TimelineState,
    button: u32,
    x: Num,
    y: Num,
    right: Num,
    below: Num,
    after: &TimelineState,
)
    requires
        faithful(m),
        is_pressed(m, before, button, x, y, after),
        button != 3,
        forall|hit: Option<u32>| #[trigger] before.is_hit(m, x, y, hit) ==> hit is None,
        x.is_finite(),
        y.is_finite(),
        is_right_of_headers(x, right),
        is_below_ruler(y, below),
        before.pixels_per_second.is_finite(),
        units(before.pixels_per_second) > 0,
        distance(units(right) * one_units(), 0) <= most_units() * units(before.pixels_per_second),
    ensures
        units(right) < 0 || units(below) < 0 ==> *after == *before,
        units(right) >= 0 && units(below) >= 0 ==> {
            &&& is_nearest(
                units(right) * one_units(),
                units(before.pixels_per_second),
                after.playhead_secs,
            )
            &&& after.selected_clip_id is None
            &&& after.drag_clip_id is None
            &&& after.clips == before.clips
            &&& after.lanes == before.lanes
            &&& after.pixels_per_second == before.pixels_per_second
            &&& after.is_playing == before.is_playing
        },
{
    let (header, ruler) = (Num { bits: HEADER_WIDTH }, Num { bits: RULER_HEIGHT });
    let zero = Num { bits: ZERO };
    let pps = before.pixels_per_second;
    lemma_constants();
    lemma_header();
    lemma_sizes();
    lemma_units_grow(x, header);
    lemma_units_grow(header, x);
    lemma_units_grow(y, ruler);
    lemma_units_grow(ruler, y);
    if units(right) >= 0 && units(below) >= 0 {
        let f = time_formula(x, pps);
        assert(gives(m, f.max(zero), after.playhead_secs));
        let t = choose|t: Num| gives(m, f, t) && after.playhead_secs == #[trigger] t.max(zero);
        the_time_under_the_mouse_is_its_distance_from_the_headers(m, x, pps, right, t);
        let exact = units(right) * one_units();
        assert(0 * units(pps) <= exact) by (nonlinear_arith)
            requires
                exact == units(right) * one_units(),
                units(right) >= 0,
                one_units() > 0,
        ;
        lemma_not_below(exact, units(pps), t, zero);
        lemma_units_grow(t, zero);
        lemma_units_grow(zero, t);
        lemma_as_near(exact, units(pps), t, after.playhead_secs);
    }
}

/// While playing, the playhead moves on by the time that has passed since the clock was last read:
/// whole seconds and nanoseconds, each step rounded to the nearest value. Playing goes on for as
/// long as the playhead is before the end of the timeline.
pub proof fn the_playhead_moves_on_by_the_time_that_has_passed<A: Arith>(
    m: &A,
    before: &TimelineState,
    last: u64,
    now: u64,
    after: &TimelineState,
)
    requires
        faithful(m),
        is_ticked(m, before, now, after),
        before.is_playing,
        before.last_tick == Some(last),
        before.playhead_secs.is_finite(),
        0 <= units(before.playhead_secs) <= 0x1_0000_0000_0000 * one_units(),
        last <= now,
    ensures
        exists|part: Num, passed: Num|
            {
                &&& #[trigger] is_nearest(
                    (now - last) % 1_000_000_000 * one_units(),
                    1_000_000_000,
                    part,
                )
                &&& #[trigger] is_nearest(
                    (now - last) / 1_000_000_000 * one_units() + units(part),
                    1,
                    passed,
                )
                &&& is_nearest(
                    units(before.playhead_secs) + units(passed),
                    1,
                    after.playhead_secs,
                )
            },
        exists|duration: Num| #[trigger]
            before.is_duration(m, duration) && after.is_playing == !duration.le(
                after.playhead_secs,
            ) && (after.is_playing ==> after.last_tick == Some(now)),
        after.clips == before.clips,
        after.pixels_per_second == before.pixels_per_second,
        after.selected_clip_id == before.selected_clip_id,
{
    let one = one_units();
    lemma_constants();
    lemma_sizes();
    let n = (now - last) as u64;
    let whole = (n / 1_000_000_000) as u64;
    let rest = (n % 1_000_000_000) as u64;
    let f = seconds_formula(n);
    let (a, passed) = choose|a: Num, b: Num|
        gives(m, val(before.playhead_secs), a) && gives(m, f, b) && #[trigger] call_ensures(
            A::plus,
            (m, a, b),
            after.playhead_secs,
        );
    assert(a == before.playhead_secs);
    let (w, part) = choose|w: Num, p: Num|
        gives(m, count(whole), w) && gives(m, count(rest) / lit(BILLION), p)
            && #[trigger] call_ensures(A::plus, (m, w, p), passed);
    let (r, b) = choose|r: Num, b: Num|
        gives(m, count(rest), r) && gives(m, lit(BILLION), b) && #[trigger] call_ensures(
            A::over,
            (m, r, b),
            part,
        );
    assert(b.bits == BILLION);
    lemma_count(m, whole, w);
    lemma_count(m, rest, r);
    let most = lemma_whole(0x2_0000_0000_0000);
    let sum = lemma_whole(whole + 1);
    let zero = Num { bits: ZERO };
    let unit = Num { bits: ONE };
    lemma_units_grow(zero, zero);
    lemma_most(most);
    let exact = units(r) * one;
    assert(0 <= units(r) <= units(b)) by (nonlinear_arith)
        requires
            units(r) == rest * one,
            units(b) == 1_000_000_000 * one,
            rest <= 1_000_000_000,
            rest >= 0,
            one > 0,
    ;
    assert(0 <= exact <= one * units(b) && one * units(b) <= most_units() * units(b))
        by (nonlinear_arith)
        requires
            exact == units(r) * one,
            0 <= units(r) <= units(b),
            one <= most_units(),
            one > 0,
    ;
    assert(is_nearest(exact, units(b), part));
    assert(0 * units(b) == 0);
    lemma_not_below(exact, units(b), part, zero);
    lemma_not_above(exact, units(b), part, unit);
    assert(is_nearest((rest * one) * one, 1_000_000_000 * one, part));
    lemma_nearest_unscaled(rest * one, 1_000_000_000, one, part);
    assert(0 <= units(w) && units(w) + one == units(sum) && units(sum) <= 0x1_0000_0000_0000 * one)
        by (nonlinear_arith)
        requires
            units(w) == whole * one,
            units(sum) == (whole + 1) * one,
            0 <= whole <= 0x5_0000_0000,
            one > 0,
    ;
    assert(units(most) == 0x2_0000_0000_0000 * one);
    assert(is_nearest(units(w) + units(part), 1, passed));
    lemma_not_below(units(w) + units(part), 1, passed, zero);
    lemma_not_above(units(w) + units(part), 1, passed, sum);
    assert(is_nearest(units(a) + units(passed), 1, after.playhead_secs));
    assert(is_nearest((now - last) % 1_000_000_000 * one, 1_000_000_000, part));
    assert(is_nearest((now - last) / 1_000_000_000 * one + units(part), 1, passed));
}

/// A selection that is drawn reaches from the ratio where the mouse was put down to the one where
/// it is now, in order, whichever way it was moved. Nothing but that clip's selection changes.
pub proof fn a_drawn_selection_lies_between_its_ends<A: Arith>(
    m: &A,
    before: &TimelineState,
    i: int,
    x: Num,
    after: &TimelineState,
)
    requires
        before.wf(),
        0 <= i < before.clips@.len(),
        is_selection_drawn(m, before, before.clips@[i].id, x, after),
        before.selection_start_ratio.is_number(),
    ensures
        after.clips@.len() == before.clips@.len(),
        forall|j: int|
            0 <= j < before.clips@.len() && j != i ==> #[trigger] after.clips@[j]
                == before.clips@[j],
        exists|ratio: Num|
            {
                let first = before.selection_start_ratio;
                let drawn = after.clips@[i].selection;
                &&& #[trigger] gives(
                    m,
                    ratio_formula(x, before.pixels_per_second, &before.clips@[i]),
                    ratio,
                )
                &&& ratio.is_number() && first.order() < ratio.order() ==> drawn == Some(
                    (first, ratio),
                )
                &&& ratio.is_number() && ratio.order() < first.order() ==> drawn == Some(
                    (ratio, first),
                )
                &&& ratio == first ==> drawn == Some((first, first))
                &&& after.clips@[i] == (AudioClip { selection: drawn, ..before.clips@[i] })
            },
{
    let clip = before.clips@[i];
    lemma_index_of(before.clips@, clip.id);
    assert(index_of(before.clips@, clip.id) == Some(i));
}

/// One zoom step is a factor of five quarters.
proof fn lemma_zoom_step()
    ensures
        4 * units(Num { bits: ZOOM_STEP }) == 5 * one_units(),
        units(Num { bits: CLOSEST_ZOOM }) == 500 * one_units(),
        units(Num { bits: WIDEST_ZOOM }) == 20 * one_units(),
{
    let f = BINADE as int;
    let p = vstd::arithmetic::power2::pow2(1022) as int;
    let (c, d) = (ZOOM_STEP as int, ONE as int);
    assert(c / f == 1023 && 4 * (c % f) == f && d / f == 1023 && d % f == 0);
    assert(units(Num { bits: ZOOM_STEP }) == (f + c % f) * p);
    assert(one_units() == f * p);
    assert(4 * ((f + c % f) * p) == 5 * (f * p)) by (nonlinear_arith)
        requires
            4 * (c % f) == f,
    ;
    vstd::arithmetic::power2::lemma2_to64();
    lemma_above_one(CLOSEST_ZOOM as int, 8, 500);
    lemma_above_one(WIDEST_ZOOM as int, 4, 20);
}

/// One zoom step closer makes a second five quarters as wide, at most 500 pixels. One step further
/// away makes it four fifths as wide, at least 20 pixels.
pub proof fn a_zoom_step_is_a_quarter<A: Arith>(
    m: &A,
    pixels_per_second: Num,
    closer: Num,
    wider: Num,
)
    requires
        faithful(m),
        gives(m, closer_formula(pixels_per_second), closer),
        gives(m, wider_formula(pixels_per_second), wider),
        pixels_per_second.is_finite(),
        0 < units(pixels_per_second) <= 1000 * one_units(),
    ensures
        exists|q: Num| #[trigger]
            is_nearest(5 * units(pixels_per_second), 4, q) && units(closer) == (if units(q) < 500
                * one_units() {
                units(q)
            } else {
                500 * one_units()
            }),
        exists|q: Num| #[trigger]
            is_nearest(4 * units(pixels_per_second), 5, q) && units(wider) == (if units(q) > 20
                * one_units() {
                units(q)
            } else {
                20 * one_units()
            }),
{
    let one = one_units();
    let u = units(pixels_per_second);
    let step = Num { bits: ZOOM_STEP };
    let z = units(step);
    lemma_constants();
    lemma_zoom_step();
    let most = lemma_whole(2000);
    lemma_most(most);
    assert(z > 0);
    let (low, high) = (Num { bits: WIDEST_ZOOM }, Num { bits: CLOSEST_ZOOM });
    let f = val(pixels_per_second) * lit(ZOOM_STEP);
    let q = choose|q: Num| gives(m, f, q) && closer == #[trigger] q.min(high);
    let (a, b) = choose|a: Num, b: Num|
        gives(m, val(pixels_per_second), a) && gives(m, lit(ZOOM_STEP), b)
            && #[trigger] call_ensures(A::times, (m, a, b), q);
    assert(a == pixels_per_second && b == step);
    assert(4 * (u * z) == (5 * u) * one && 0 <= u * z <= units(most) * one) by (nonlinear_arith)
        requires
            4 * z == 5 * one,
            0 < u <= 1000 * one,
            units(most) == 2000 * one,
            one > 0,
    ;
    assert(units(most) * one <= most_units() * one) by (nonlinear_arith)
        requires
            units(most) <= most_units(),
            one > 0,
    ;
    assert(is_nearest(u * z, one, q));
    lemma_nearest_scaled(u * z, one, 4, q);
    assert(is_nearest((5 * u) * one, 4 * one, q));
    lemma_nearest_unscaled(5 * u, 4, one, q);
    lemma_units_grow(q, high);
    lemma_units_grow(high, q);
    let g = val(pixels_per_second) / lit(ZOOM_STEP);
    let r = choose|r: Num| gives(m, g, r) && wider == #[trigger] r.max(low);
    let (c, d) = choose|c: Num, d: Num|
        gives(m, val(pixels_per_second), c) && gives(m, lit(ZOOM_STEP), d)
            && #[trigger] call_ensures(A::over, (m, c, d), r);
    assert(c == pixels_per_second && d == step);
    assert(0 <= u * one <= most_units() * z) by (nonlinear_arith)
        requires
            4 * z == 5 * one,
            0 < u <= 1000 * one,
            2000 * one <= most_units(),
            one > 0,
    ;
    assert(is_nearest(u * one, z, r));
    lemma_nearest_scaled(u * one, z, 4, r);
    assert((u * one) * 4 == (4 * u) * one && z * 4 == 5 * one) by (nonlinear_arith)
        requires
            4 * z == 5 * one,
    ;
    lemma_nearest_unscaled(4 * u, 5, one, r);
    lemma_units_grow(r, low);
    lemma_units_grow(low, r);
}

/// What is nearest is nearest on a finer scale.
proof fn lemma_nearest_scaled(exact: int, scale: int, finer: int, r: Num)
    requires
        is_nearest(exact, scale, r),
        finer > 0,
    ensures
        is_nearest(exact * finer, scale * finer, r),
{
    assert forall|q: Num| q.is_finite() implies distance(units(r) * (scale * finer), exact * finer)
        <= distance(#[trigger] units(q) * (scale * finer), exact * finer) by {
        let (a, b) = (units(r) * scale, units(q) * scale);
        assert(units(r) * (scale * finer) == a * finer) by (nonlinear_arith)
            requires
                a == units(r) * scale,
        ;
        assert(units(q) * (scale * finer) == b * finer) by (nonlinear_arith)
            requires
                b == units(q) * scale,
        ;
        assert(distance(a, exact) <= distance(b, exact));
        assert(distance(a * finer, exact * finer) <= distance(b * finer, exact * finer))
            by (nonlinear_arith)
            requires
                distance(a, exact) <= distance(b, exact),
                distance(a, exact) == (if a < exact {
                    exact - a
                } else {
                    a - exact
                }),
                distance(b, exact) == (if b < exact {
                    exact - b
                } else {
                    b - exact
                }),
                distance(a * finer, exact * finer) == (if a * finer < exact * finer {
                    exact * finer - a * finer
                } else {
                    a * finer - exact * finer
                }),
                distance(b * finer, exact * finer) == (if b * finer < exact * finer {
                    exact * finer - b * finer
                } else {
                    b * finer - exact * finer
                }),
                finer > 0,
        ;
    }
}

/// The third button takes the selection of the selected clip away and ends every drag. Nothing else
/// changes.
pub proof fn the_third_button_cancels_the_selection<A: Arith>(
    m: &A,
    before: &TimelineState,
    x: Num,
    y: Num,
    after: &TimelineState,
    i: int,
)
    requires
        before.wf(),
        is_pressed(m, before, 3, x, y, after),
        0 <= i < before.clips@.len(),
    ensures
        after.clips@.len() == before.clips@.len(),
        before.selected_clip_id == Some(before.clips@[i].id) ==> after.clips@[i] == (AudioClip {
            selection: None,
            ..before.clips@[i]
        }),
        before.selected_clip_id != Some(before.clips@[i].id) ==> after.clips@[i]
            == before.clips@[i],
        after.mouse_mode is Idle,
        after.drag_clip_id is None,
        after.selected_clip_id == before.selected_clip_id,
        after.playhead_secs == before.playhead_secs,
{
    lemma_index_of(before.clips@, before.clips@[i].id);
    if let Some(id) = before.selected_clip_id {
        lemma_index_of(before.clips@, id);
        let j = before.selected_index()->0;
        assert(before.clips@[j].id == id);
    }
}

/// A press on a clip below its strip starts a selection there, which is still empty. Nothing else
/// changes of the clips.
pub proof fn a_press_below_the_strip_starts_a_selection<A: Arith>(
    m: &A,
    before: &TimelineState,
    i: int,
    x: Num,
    y: Num,
    after: &TimelineState,
)
    requires
        0 <= i < before.clips@.len(),
        is_grabbed(m, before, i, x, y, after),
        after.mouse_mode is SelectInClip,
    ensures
        ({
            let ratio = after.selection_start_ratio;
            &&& gives(
                m,
                ratio_formula(x, before.pixels_per_second, &before.clips@[i]),
                ratio,
            )
            &&& after.clips@[i] == (AudioClip {
                selection: Some((ratio, ratio)),
                ..before.clips@[i]
            })
            &&& after.clips@.len() == before.clips@.len()
            &&& forall|j: int|
                0 <= j < before.clips@.len() && j != i ==> #[trigger] after.clips@[j]
                    == before.clips@[j]
        }),
{
}

/// A press on a clip takes hold of that clip and selects it: the one that is hit.
pub proof fn a_press_takes_hold_of_what_is_hit<A: Arith>(
    m: &A,
    before: &TimelineState,
    button: u32,
    x: Num,
    y: Num,
    id: u32,
    after: &TimelineState,
)
    requires
        is_pressed(m, before, button, x, y, after),
        button != 3,
        forall|hit: Option<u32>| #[trigger] before.is_hit(m, x, y, hit) ==> hit == Some(id),
    ensures
        after.selected_clip_id == Some(id),
        after.drag_clip_id == Some(id),
        !(after.mouse_mode is Idle),
        after.playhead_secs == before.playhead_secs,
        exists|i: int|
            {
                &&& 0 <= i < before.clips@.len()
                &&& before.clips@[i].id == id
                &&& #[trigger] is_grabbed(m, before, i, x, y, after)
            },
{
    let hit = choose|hit: Option<u32>| #[trigger]
        before.is_hit(m, x, y, hit) && match hit {
            Some(id) => is_grabbed(m, before, index_of(before.clips@, id)->0, x, y, after),
            None => true,
        };
    assert(hit == Some(id));
    let (time, lane, ends) = choose|time: Num, lane: usize, ends: Seq<Num>|
        {
            &&& #[trigger] gives(m, time_formula(x, before.pixels_per_second), time)
            &&& #[trigger] gives_count(m, lane_formula(y), lane)
            &&& #[trigger] are_ends(m, before.clips@, ends)
            &&& hit == topmost(before.clips@, ends, lane as int, time)
        };
    lemma_topmost(before.clips@, ends, lane, time);
    lemma_index_of(before.clips@, id);
    let i = index_of(before.clips@, id)->0;
    assert(index_of(before.clips@, id) is Some);
    assert(is_grabbed(m, before, i, x, y, after));
}

} // verus!
