//! What holds of the library as a whole.
use vstd::prelude::*;

use crate::arith::{
    count, differences_are_opposite, doubles_cancel, functional, gives, gives_count, gives_pcm,
    lit, one_is_neutral, orderly, parts_are_less, pcm_is_bounded, sample, sample_gives, sample_lit,
    tanh_is_bounded, val, Arith, Formula, SampleFormula,
};
use crate::clip::{
    aligned, are_amplitudes, chunk, chunk_size, chunk_start, is_effect_range, is_selection_range,
    is_span_range, loudest, peak, present, AudioClip, Zone, AMPLITUDE_COUNT, SAMPLE_THOUSANDTH,
};
use crate::edit::{
    are_cut_zones, are_trimmed_zones, is_cut, is_cut_zone, is_selection_cut, is_trimmed,
    is_trimmed_after, is_trimmed_zone, same_settings,
};
use crate::effects::{
    are_frames_at_speed, frames_samples, is_distorted, is_effect_on, is_effect_outcome, marked,
    same_fixture, same_outside, same_timing, spliced, Effect, SAMPLE_FIVE, SAMPLE_SEVEN_TENTHS,
};
use crate::exact::{
    correctly_rounded, distance, is_snappable, lemma_constants, lemma_nearest_product,
    lemma_nearest_whole, lemma_snap_is_exact, lemma_snapped_is_snappable, lemma_step_and_back,
    lemma_units_grow, nearest_whole, one_units, units,
};
use crate::mouse::{
    closer_formula, drag_formula, is_clip_put, is_drag_lane, is_dragged, is_mouse_moved,
    is_pressed, is_ticked, is_with_clip, seconds_formula, wider_formula, BILLION, CANCEL_BUTTON,
    CLOSEST_ZOOM, WIDEST_ZOOM, ZOOM_STEP,
};
use crate::num::{
    in_range, in_unit, Num, Sample, ONE, SAMPLE_INFINITY, SAMPLE_MINUS_ONE, SAMPLE_ONE,
    SAMPLE_TOP_BINADE, SAMPLE_ZERO, ZERO,
};
use crate::outcomes::{
    amplitudes_are_determined, effect_range_is_determined, lemma_span_range,
    selection_range_is_determined,
};
use crate::playback::{
    are_exported, contribution, is_exported, is_mixed, is_placement, Placement, SAMPLE_PCM_MAX,
};
use crate::timeline::{
    are_ends, index_of, is_first_free_lane, is_new_clip, is_occupied, is_under, lane_formula,
    latest, lemma_index_of, overlaps, snap_formula, time_formula, topmost, DecodedAudio, MouseMode,
    TimelineState, GRID, LAST_DRAG_LANE, SHORTEST_TIMELINE,
};

verus! {

/// A value moved into 0 to 1 lies there, unless it is NaN.
pub proof fn clamped_value_lies_in_unit(n: Num)
    ensures
        in_unit(n.clamp(Num { bits: ZERO }, Num { bits: ONE })),
{
}

/// A sample moved into -1 to 1 lies there, unless it is NaN.
pub proof fn clamped_sample_lies_in_range(s: Sample)
    ensures
        in_range(s.clamp(Sample { bits: SAMPLE_MINUS_ONE }, Sample { bits: SAMPLE_ONE })),
{
}

/// Whatever a formula that ends in a clamp to -1 to 1 gives lies there, unless it is NaN.
pub proof fn clamped_formula_lies_in_range<A: Arith>(m: &A, f: SampleFormula, s: Sample)
    requires
        sample_gives(
            m,
            f.clamped(Sample { bits: SAMPLE_MINUS_ONE }, Sample { bits: SAMPLE_ONE }),
            s,
        ),
    ensures
        in_range(s),
{
}

/// No effect but the change of speed touches a sample outside the range that it works on, or
/// changes how many samples there are.
pub proof fn effect_keeps_what_is_outside<A: Arith>(
    m: &A,
    before: &AudioClip,
    effect: Option<Effect>,
    start: int,
    end: int,
    after: &AudioClip,
)
    requires
        effect != Some(Effect::Speed),
        is_effect_on(m, before, effect, start, end, after),
    ensures
        same_outside(before.buffer@, after.buffer@, start, end),
{
}

/// After reverb, bass or volume every sample of the range lies in -1 to 1, unless it is NaN.
pub proof fn effect_stays_in_range<A: Arith>(
    m: &A,
    before: &AudioClip,
    effect: Effect,
    start: int,
    end: int,
    after: &AudioClip,
    i: int,
)
    requires
        effect == Effect::Reverb || effect == Effect::Bass || effect == Effect::Volume,
        is_effect_on(m, before, Some(effect), start, end, after),
        start <= i < end,
    ensures
        in_range(after.buffer@[i]),
{
}

/// An effect never moves a clip, nor changes its name, its format or its color.
pub proof fn effect_leaves_clip_in_place<A: Arith>(
    m: &A,
    before: &AudioClip,
    effect: Option<Effect>,
    after: &AudioClip,
)
    requires
        is_effect_outcome(m, before, effect, after),
    ensures
        same_fixture(before, after),
{
}

/// Cutting never moves a clip, nor changes its name, its format, its settings or its color.
pub proof fn cut_leaves_clip_in_place<A: Arith>(m: &A, before: &AudioClip, after: &AudioClip)
    requires
        is_selection_cut(m, before, after),
    ensures
        same_settings(before, after),
{
}

/// Cutting off behind the playhead never moves a clip, nor changes its name, its format, its
/// settings or its color.
pub proof fn trim_leaves_clip_in_place<A: Arith>(
    m: &A,
    before: &AudioClip,
    playhead: Num,
    after: &AudioClip,
)
    requires
        is_trimmed_after(m, before, playhead, after),
    ensures
        same_settings(before, after),
{
}

/// A range of samples that a selection covers, or that an effect works on, lies in the buffer and
/// starts at a frame; where the buffer holds whole frames, it ends at one too.
pub proof fn ranges_are_whole_frames<A: Arith>(m: &A, clip: &AudioClip, start: usize, end: usize)
    requires
        clip.channels != 0,
        is_effect_range(m, clip, Some((start, end))),
    ensures
        start < end <= clip.buffer@.len(),
        start as int % clip.channels as int == 0,
        clip.buffer@.len() as int % clip.channels as int == 0 ==> end as int % clip.channels as int
            == 0,
{
    let channels = clip.channels as int;
    let total = clip.buffer@.len() as int;
    assert forall|n: int| n >= 0 implies #[trigger] aligned(n, channels) % channels == 0 && 0
        <= aligned(n, channels) <= n by {
        lemma_aligned(n, channels);
    }
    lemma_vec_len(&clip.buffer);
    assert(0int % channels == 0) by (nonlinear_arith)
        requires
            channels > 0,
    ;
}

proof fn lemma_vec_len(v: &Vec<Sample>)
    ensures
        v@.len() <= usize::MAX,
{
    assert(v.len() == v@.len());
}

pub(crate) proof fn lemma_aligned(n: int, channels: int)
    requires
        n >= 0,
        channels > 0,
    ensures
        aligned(n, channels) % channels == 0,
        0 <= aligned(n, channels) <= n < aligned(n, channels) + channels,
{
    vstd::arithmetic::div_mod::lemma_fundamental_div_mod(n, channels);
    vstd::arithmetic::mul::lemma_mul_is_commutative(n / channels, channels);
    vstd::arithmetic::div_mod::lemma_mod_multiples_basic(n / channels, channels);
    vstd::arithmetic::div_mod::lemma_div_pos_is_pos(n, channels);
    vstd::arithmetic::mul::lemma_mul_nonnegative(n / channels, channels);
}

/// A cut takes out exactly the range: what was before it keeps its place, what was behind it
/// follows at once.
pub proof fn cut_removes_exactly_the_range<A: Arith>(
    m: &A,
    before: &AudioClip,
    start: int,
    end: int,
    after: &AudioClip,
    i: int,
)
    requires
        0 <= start <= end <= before.buffer@.len(),
        is_cut(m, before, start, end, after),
        0 <= i < after.buffer@.len(),
    ensures
        after.buffer@.len() == before.buffer@.len() - (end - start),
        after.buffer@[i] == (if i < start {
            before.buffer@[i]
        } else {
            before.buffer@[i + (end - start)]
        }),
{
}

/// Cutting the selection out a second time changes nothing, where the arithmetic is a function:
/// after a cut nothing is selected, and a selection without samples has none the second time.
pub proof fn cutting_again_changes_nothing<A: Arith>(
    m: &A,
    before: &AudioClip,
    once: &AudioClip,
    twice: &AudioClip,
)
    requires
        functional(m),
        is_selection_cut(m, before, once),
        is_selection_cut(m, once, twice),
    ensures
        *twice == *once,
{
    let p = choose|range: Option<(usize, usize)>| #[trigger]
        is_selection_range(m, before, range) && match range {
            None => *once == *before,
            Some((start, end)) => is_cut(m, before, start as int, end as int, once),
        };
    let q = choose|range: Option<(usize, usize)>| #[trigger]
        is_selection_range(m, once, range) && match range {
            None => *twice == *once,
            Some((start, end)) => is_cut(m, once, start as int, end as int, twice),
        };
    if p is None {
        selection_range_is_determined(m, before, p, q);
    }
}

/// A clip of whole frames is one of whole frames after any effect.
pub proof fn effect_keeps_whole_frames<A: Arith>(
    m: &A,
    before: &AudioClip,
    effect: Option<Effect>,
    after: &AudioClip,
)
    requires
        before.channels != 0,
        before.buffer@.len() as int % before.channels as int == 0,
        is_effect_outcome(m, before, effect, after),
    ensures
        after.buffer@.len() as int % after.channels as int == 0,
{
    let range = choose|range: Option<(usize, usize)>| #[trigger]
        is_effect_range(m, before, range) && match range {
            None => *after == *before,
            Some((start, end)) => is_effect_on(
                m,
                before,
                effect,
                start as int,
                end as int,
                after,
            ),
        };
    if let Some((start, end)) = range {
        ranges_are_whole_frames(m, before, start, end);
        let channels = before.channels as int;
        let total = before.buffer@.len() as int;
        if after.buffer@.len() != total {
            let frames = choose|frames: Seq<usize>| #[trigger]
                are_frames_at_speed(
                    m,
                    (end - start) / channels,
                    before.speed,
                    frames,
                ) && after.buffer@ == spliced(
                    before.buffer@,
                    start as int,
                    end as int,
                    frames_samples(before.buffer@, start as int, end as int, channels, frames),
                );
            lemma_frames_len(before.buffer@, start as int, end as int, channels, frames);
            let played = frames.len() * channels;
            assert(after.buffer@.len() == start + played + (total - end));
            lemma_sum_of_multiples(start as int, frames.len() as int, total, end as int, channels);
        }
    }
}

proof fn lemma_frames_len(
    before: Seq<Sample>,
    start: int,
    end: int,
    channels: int,
    frames: Seq<usize>,
)
    requires
        channels >= 0,
    ensures
        frames_samples(before, start, end, channels, frames).len() == frames.len() * channels,
    decreases frames.len(),
{
    if frames.len() > 0 {
        lemma_frames_len(before, start, end, channels, frames.drop_last());
        assert(frames.len() * channels == (frames.len() - 1) * channels + channels)
            by (nonlinear_arith);
    } else {
        assert(0 * channels == 0);
    }
}

proof fn lemma_sum_of_multiples(start: int, n: int, total: int, end: int, channels: int)
    requires
        channels > 0,
        start % channels == 0,
        total % channels == 0,
        end % channels == 0,
    ensures
        (start + n * channels + (total - end)) % channels == 0,
{
    vstd::arithmetic::div_mod::lemma_fundamental_div_mod(start, channels);
    vstd::arithmetic::div_mod::lemma_fundamental_div_mod(total, channels);
    vstd::arithmetic::div_mod::lemma_fundamental_div_mod(end, channels);
    let q = start / channels + n + total / channels - end / channels;
    assert(start + n * channels + (total - end) == q * channels) by (nonlinear_arith)
        requires
            start == channels * (start / channels),
            total == channels * (total / channels),
            end == channels * (end / channels),
            q == start / channels + n + total / channels - end / channels,
    ;
    vstd::arithmetic::div_mod::lemma_mod_multiples_basic(q, channels);
}

/// A clip of whole frames is one of whole frames after its selection is cut out.
pub proof fn cut_keeps_whole_frames<A: Arith>(m: &A, before: &AudioClip, after: &AudioClip)
    requires
        before.channels != 0,
        before.buffer@.len() as int % before.channels as int == 0,
        is_selection_cut(m, before, after),
    ensures
        after.buffer@.len() as int % after.channels as int == 0,
{
    let range = choose|range: Option<(usize, usize)>| #[trigger]
        is_selection_range(m, before, range) && match range {
            None => *after == *before,
            Some((start, end)) => is_cut(m, before, start as int, end as int, after),
        };
    if let Some((start, end)) = range {
        assert(is_effect_range(m, before, range));
        ranges_are_whole_frames(m, before, start, end);
        lemma_sum_of_multiples(
            start as int,
            0,
            before.buffer@.len() as int,
            end as int,
            before.channels as int,
        );
    }
}

/// What is cut off behind a position leaves a beginning of the samples, in whole frames where the
/// clip holds whole frames: the longest that ends at the position or before it.
pub proof fn trim_keeps_a_beginning<A: Arith>(
    m: &A,
    before: &AudioClip,
    at: int,
    after: &AudioClip,
)
    requires
        before.channels != 0,
        at >= 0,
        is_trimmed(m, before, at, after),
    ensures
        after.buffer@.len() <= before.buffer@.len(),
        after.buffer@.len() <= at || after.buffer@.len() == before.buffer@.len(),
        after.buffer@.len() == before.buffer@.len() || at < after.buffer@.len() + before.channels,
        forall|i: int|
            0 <= i < after.buffer@.len() ==> #[trigger] after.buffer@[i] == before.buffer@[i],
        before.buffer@.len() as int % before.channels as int == 0 ==> after.buffer@.len() as int
            % after.channels as int == 0,
{
    lemma_aligned(at, before.channels as int);
}

/// Cutting makes no zone: there are no more zones than before, and each has the color of one.
pub proof fn cutting_makes_no_zone<A: Arith>(
    m: &A,
    start: int,
    end: int,
    total: int,
    from: Num,
    to: Num,
    rest: Num,
    before: Seq<Zone>,
    after: Seq<Zone>,
)
    requires
        are_cut_zones(m, start, end, total, from, to, rest, before, after),
    ensures
        after.len() <= before.len(),
        forall|i: int|
            0 <= i < after.len() ==> exists|k: int|
                0 <= k < before.len() && (#[trigger] before[k]).color == (
                #[trigger] after[i]).color,
{
    let moved = choose|moved: Seq<Option<Zone>>|
        #![trigger present(moved)]
        {
            &&& moved.len() == before.len()
            &&& forall|i: int|
                0 <= i < before.len() ==> is_cut_zone(
                    m,
                    start,
                    end,
                    total,
                    from,
                    to,
                    rest,
                    before[i],
                    #[trigger] moved[i],
                )
            &&& after == present(moved)
        };
    lemma_present_len(moved);
    assert forall|i: int| 0 <= i < after.len() implies exists|k: int|
        0 <= k < before.len() && (#[trigger] before[k]).color == (#[trigger] after[i]).color by {
        let k = lemma_present_source(moved, i);
        assert(is_cut_zone(m, start, end, total, from, to, rest, before[k], moved[k]));
        assert(before[k].color == after[i].color);
    }
}

/// Every zone that cutting off leaves lies in the clip, from 0 to 1, and is not empty; there are
/// no more zones than before, and each has the color of one.
pub proof fn trimmed_zones_lie_in_the_clip<A: Arith>(
    m: &A,
    ratio: Num,
    before: Seq<Zone>,
    after: Seq<Zone>,
)
    requires
        are_trimmed_zones(m, ratio, before, after),
    ensures
        after.len() <= before.len(),
        forall|i: int|
            0 <= i < after.len() ==> {
                &&& (Num { bits: ZERO }).le((#[trigger] after[i]).start)
                &&& after[i].start.lt(after[i].end)
                &&& after[i].end.le(Num { bits: ONE })
            },
        forall|i: int|
            0 <= i < after.len() ==> exists|k: int|
                0 <= k < before.len() && (#[trigger] before[k]).color == (
                #[trigger] after[i]).color,
{
    let moved = choose|moved: Seq<Option<Zone>>|
        #![trigger present(moved)]
        {
            &&& moved.len() == before.len()
            &&& forall|i: int|
                0 <= i < before.len() ==> is_trimmed_zone(m, ratio, before[i], #[trigger] moved[i])
            &&& after == present(moved)
        };
    lemma_present_len(moved);
    assert forall|i: int| 0 <= i < after.len() implies {
        &&& (Num { bits: ZERO }).le((#[trigger] after[i]).start)
        &&& after[i].start.lt(after[i].end)
        &&& after[i].end.le(Num { bits: ONE })
        &&& exists|k: int|
            0 <= k < before.len() && (#[trigger] before[k]).color == after[i].color
    } by {
        let k = lemma_present_source(moved, i);
        assert(is_trimmed_zone(m, ratio, before[k], moved[k]));
        assert(before[k].color == after[i].color);
    }
}

/// A value that is left was there before.
proof fn lemma_present_source<T>(values: Seq<Option<T>>, i: int) -> (k: int)
    requires
        0 <= i < present(values).len(),
    ensures
        0 <= k < values.len(),
        values[k] == Some(present(values)[i]),
    decreases values.len(),
{
    let shorter = values.drop_last();
    lemma_present_len(shorter);
    if i < present(shorter).len() {
        lemma_present_source(shorter, i)
    } else {
        values.len() - 1
    }
}

proof fn lemma_present_len<T>(values: Seq<Option<T>>)
    ensures
        present(values).len() <= values.len(),
    decreases values.len(),
{
    if values.len() > 0 {
        lemma_present_len(values.drop_last());
    }
}

/// The lane that a new clip is put on is free: no clip that lies there overlaps the new one.
pub proof fn new_clip_overlaps_nothing<A: Arith>(
    m: &A,
    state: &TimelineState,
    file_name: Option<Seq<char>>,
    path: Vec<u8>,
    audio: &DecodedAudio,
    clip: &AudioClip,
)
    requires
        state.wf(),
        is_new_clip(m, state, file_name, path, audio, clip),
    ensures
        exists|end: Num, ends: Seq<Num>|
            {
                &&& #[trigger] clip.ends_at(m, end)
                &&& #[trigger] are_ends(m, state.clips@, ends)
                &&& !is_occupied(
                    state.clips@,
                    ends,
                    clip.lane as int,
                    clip.start_time_secs,
                    end,
                )
            },
{
    let (end, ends) = choose|end: Num, ends: Seq<Num>|
        {
            &&& #[trigger] gives(m, val(state.playhead_secs) + val(clip.duration_secs), end)
            &&& #[trigger] are_ends(m, state.clips@, ends)
            &&& is_first_free_lane(
                state.clips@,
                ends,
                state.lanes as int,
                state.playhead_secs,
                end,
                clip.lane as int,
            )
        };
    assert(clip.ends_at(m, end));
    if clip.lane == state.lanes {
        assert forall|i: int| 0 <= i < state.clips@.len() implies !#[trigger] overlaps(
            &state.clips@[i],
            ends[i],
            clip.lane as int,
            clip.start_time_secs,
            end,
        ) by {
            assert(state.clips@[i].lane < state.lanes);
        }
    }
}

/// The clip that is hit lies under the position, and no clip that is drawn over it does; where
/// none is hit, none lies there.
pub proof fn hit_clip_is_on_top(
    clips: Seq<AudioClip>,
    ends: Seq<Num>,
    lane: int,
    time: Num,
)
    requires
        ends.len() == clips.len(),
    ensures
        match topmost(clips, ends, lane, time) {
            Some(id) => exists|i: int|
                {
                    &&& 0 <= i < clips.len()
                    &&& (#[trigger] clips[i]).id == id
                    &&& is_under(&clips[i], ends[i], lane, time)
                    &&& forall|j: int|
                        i < j < clips.len() ==> !is_under(
                            &#[trigger] clips[j],
                            ends[j],
                            lane,
                            time,
                        )
                },
            None => forall|j: int|
                0 <= j < clips.len() ==> !is_under(&#[trigger] clips[j], ends[j], lane, time),
        },
{
    lemma_topmost(clips, ends, lane, time);
}

proof fn lemma_topmost(clips: Seq<AudioClip>, ends: Seq<Num>, lane: int, time: Num)
    requires
        clips.len() <= ends.len(),
    ensures
        match topmost(clips, ends, lane, time) {
            Some(id) => exists|i: int|
                {
                    &&& 0 <= i < clips.len()
                    &&& (#[trigger] clips[i]).id == id
                    &&& is_under(&clips[i], ends[i], lane, time)
                    &&& forall|j: int|
                        i < j < clips.len() ==> !is_under(
                            &#[trigger] clips[j],
                            ends[j],
                            lane,
                            time,
                        )
                },
            None => forall|j: int|
                0 <= j < clips.len() ==> !is_under(&#[trigger] clips[j], ends[j], lane, time),
        },
    decreases clips.len(),
{
    if clips.len() > 0 {
        let last = clips.len() - 1;
        let shorter = clips.drop_last();
        if is_under(&clips.last(), ends[last], lane, time) {
            assert(clips[last].id == clips.last().id);
        } else {
            lemma_topmost(shorter, ends, lane, time);
            assert forall|j: int| 0 <= j < last implies clips[j] == #[trigger] shorter[j] by {}
            match topmost(shorter, ends, lane, time) {
                Some(id) => {
                    let i = choose|i: int|
                        {
                            &&& 0 <= i < shorter.len()
                            &&& (#[trigger] shorter[i]).id == id
                            &&& is_under(&shorter[i], ends[i], lane, time)
                            &&& forall|j: int|
                                i < j < shorter.len() ==> !is_under(
                                    &#[trigger] shorter[j],
                                    ends[j],
                                    lane,
                                    time,
                                )
                        };
                    assert(clips[i].id == id);
                    assert forall|j: int| i < j < clips.len() implies !is_under(
                        &#[trigger] clips[j],
                        ends[j],
                        lane,
                        time,
                    ) by {
                        if j < last {
                            assert(!is_under(&shorter[j], ends[j], lane, time));
                        }
                    }
                },
                None => {
                    assert forall|j: int| 0 <= j < clips.len() implies !is_under(
                        &#[trigger] clips[j],
                        ends[j],
                        lane,
                        time,
                    ) by {
                        if j < last {
                            assert(!is_under(&shorter[j], ends[j], lane, time));
                        }
                    }
                },
            }
        }
    }
}

/// The timeline is at least 30 seconds long, and as long as every clip needs whose end is a
/// number; it is no longer than one of these asks for.
pub proof fn timeline_holds_every_clip(ends: Seq<Num>, i: int)
    requires
        0 <= i < ends.len(),
    ensures
        (Num { bits: SHORTEST_TIMELINE }).le(latest(ends)),
        ends[i].is_number() ==> ends[i].le(latest(ends)),
        latest(ends) == (Num { bits: SHORTEST_TIMELINE }) || ends.contains(
            latest(ends),
        ),
{
    lemma_latest(ends);
}

proof fn lemma_latest(ends: Seq<Num>)
    ensures
        (Num { bits: SHORTEST_TIMELINE }).le(latest(ends)),
        forall|i: int|
            0 <= i < ends.len() && ends[i].is_number() ==> (#[trigger] ends[i]).le(latest(ends)),
        latest(ends) == (Num { bits: SHORTEST_TIMELINE }) || ends.contains(
            latest(ends),
        ),
    decreases ends.len(),
{
    if ends.len() > 0 {
        let shorter = ends.drop_last();
        lemma_latest(shorter);
        assert forall|i: int| 0 <= i < ends.len() && ends[i].is_number() implies (
        #[trigger] ends[i]).le(latest(ends)) by {
            if i < ends.len() - 1 {
                assert(shorter[i].le(latest(shorter)));
            }
        }
        if latest(ends) == ends.last() {
            assert(ends[ends.len() - 1] == latest(ends));
        } else if shorter.contains(latest(shorter)) {
            let k = choose|k: int| 0 <= k < shorter.len() && shorter[k] == latest(shorter);
            assert(ends[k] == latest(ends));
        }
    }
}

/// No chunk is louder than the amplitude that all are divided by, which is at least 0.001.
pub proof fn no_chunk_exceeds_the_loudest(samples: Seq<Sample>, size: int, n: nat, i: int)
    requires
        0 <= i < n,
    ensures
        (Sample { bits: SAMPLE_THOUSANDTH }).le(loudest(samples, size, n)),
        peak(chunk(samples, size, i)).le(loudest(samples, size, n)),
        (Sample { bits: SAMPLE_ZERO }).le(peak(chunk(samples, size, i))),
    decreases n,
{
    lemma_peak(chunk(samples, size, i));
    lemma_peak(chunk(samples, size, n - 1));
    lemma_loudest(samples, size, (n - 1) as nat);
    if i < n - 1 {
        no_chunk_exceeds_the_loudest(samples, size, (n - 1) as nat, i);
    }
}

proof fn lemma_loudest(samples: Seq<Sample>, size: int, n: nat)
    ensures
        (Sample { bits: SAMPLE_THOUSANDTH }).le(loudest(samples, size, n)),
    decreases n,
{
    if n > 0 {
        lemma_loudest(samples, size, (n - 1) as nat);
    }
}

proof fn lemma_peak(samples: Seq<Sample>)
    ensures
        (Sample { bits: SAMPLE_ZERO }).le(peak(samples)),
        peak(samples).bits <= SAMPLE_INFINITY,
    decreases samples.len(),
{
    if samples.len() > 0 {
        lemma_peak(samples.drop_last());
    }
}

/// Once the mouse button is let go, moving the mouse changes nothing.
pub proof fn nothing_is_dragged_after_release<A: Arith>(
    m: &A,
    before: &TimelineState,
    released: &TimelineState,
    x: Num,
    y: Num,
    after: &TimelineState,
    size: Option<(i32, i32)>,
)
    requires
        *released == (TimelineState {
            mouse_mode: MouseMode::Idle,
            drag_clip_id: None,
            ..*before
        }),
        is_mouse_moved(m, released, x, y, after, size),
    ensures
        *after == *released,
        size is None,
{
}

/// While nothing plays the playhead stays where it is.
pub proof fn playhead_rests_while_stopped<A: Arith>(
    m: &A,
    before: &TimelineState,
    now: u64,
    after: &TimelineState,
)
    requires
        !before.is_playing,
        is_ticked(m, before, now, after),
    ensures
        after.playhead_secs == before.playhead_secs,
        !after.is_playing,
{
}

/// Playing that goes on has not reached the end of the timeline.
pub proof fn playing_stops_at_the_end<A: Arith>(
    m: &A,
    before: &TimelineState,
    now: u64,
    after: &TimelineState,
)
    requires
        before.is_playing,
        is_ticked(m, before, now, after),
    ensures
        exists|duration: Num| #[trigger]
            after.is_duration(m, duration) && after.is_playing == !duration.le(
                after.playhead_secs,
            ),
        after.is_playing ==> after.last_tick == Some(now),
        !after.is_playing ==> after.last_tick is None,
{
    let duration = choose|duration: Num| #[trigger]
        before.is_duration(m, duration) && *after == (TimelineState {
            playhead_secs: after.playhead_secs,
            is_playing: !duration.le(after.playhead_secs),
            last_tick: if duration.le(after.playhead_secs) {
                None
            } else {
                Some(now)
            },
            ..*before
        });
    assert(before.is_duration(m, duration));
    let ends = choose|ends: Seq<Num>| #[trigger]
        are_ends(m, before.clips@, ends) && duration == latest(ends);
    assert(are_ends(m, after.clips@, ends));
    assert(after.is_duration(m, duration));
}

/// A dragged clip keeps everything but its start and its lane, which is one of the first 64; the
/// other clips keep everything, and no lane is lost.
pub proof fn drag_moves_one_clip<A: Arith>(
    m: &A,
    before: &TimelineState,
    clip_id: u32,
    x: Num,
    y: Num,
    after: &TimelineState,
    i: int,
)
    requires
        before.wf(),
        is_dragged(m, before, clip_id, x, y, after),
        0 <= i < before.clips@.len(),
    ensures
        before.lanes <= after.lanes,
        after.clips@.len() == before.clips@.len(),
        before.clips@[i].id != clip_id ==> after.clips@[i] == before.clips@[i],
        before.clips@[i].id == clip_id ==> {
            let moved = after.clips@[i];
            &&& moved.lane <= LAST_DRAG_LANE
            &&& moved == (AudioClip {
                start_time_secs: moved.start_time_secs,
                lane: moved.lane,
                ..before.clips@[i]
            })
        },
{
    lemma_index_of(before.clips@, clip_id);
}

/// A clip whose format is not that of the mix is not heard in it.
pub proof fn other_formats_are_not_heard<A: Arith>(
    m: &A,
    clip: &AudioClip,
    channels: u16,
    sample_rate: u32,
    placement: Option<Placement>,
    d: int,
)
    requires
        clip.channels != channels || clip.sample_rate != sample_rate,
        is_placement(m, clip, channels, sample_rate, placement),
    ensures
        contribution(clip, placement, d) is None,
{
}

/// Where no clip sounds, the mix is silent.
pub proof fn mix_is_silent_where_nothing_sounds<A: Arith>(
    m: &A,
    clips: Seq<AudioClip>,
    placements: Seq<Option<Placement>>,
    n: nat,
    d: int,
    mixed: Sample,
)
    requires
        forall|k: int| 0 <= k < n ==> contribution(&#[trigger] clips[k], placements[k], d) is None,
        is_mixed(m, clips, placements, n, d, mixed),
    ensures
        mixed == (Sample { bits: SAMPLE_ZERO }),
    decreases n,
{
    if n > 0 {
        assert(contribution(&clips[n - 1], placements[n - 1], d) is None);
        mix_is_silent_where_nothing_sounds(m, clips, placements, (n - 1) as nat, d, mixed);
    }
}

/// Putting a mouse button down moves no clip and changes no sample: of a clip nothing changes but
/// what is selected in it, and the lanes stay.
pub proof fn press_moves_no_clip<A: Arith>(
    m: &A,
    before: &TimelineState,
    button: u32,
    x: Num,
    y: Num,
    after: &TimelineState,
    i: int,
)
    requires
        is_pressed(m, before, button, x, y, after),
        0 <= i < before.clips@.len(),
    ensures
        after.lanes == before.lanes,
        after.clips@.len() == before.clips@.len(),
        after.clips@[i] == (AudioClip {
            selection: after.clips@[i].selection,
            ..before.clips@[i]
        }),
{
    if button == CANCEL_BUTTON {
        if let Some(id) = before.selected_clip_id {
            lemma_index_of(before.clips@, id);
        }
    } else {
        assert forall|id: u32| #[trigger] before.is_hit(m, x, y, Some(id)) implies 0 <= index_of(
            before.clips@,
            id,
        )->0 < before.clips@.len() by {
            lemma_hit_index(m, before, x, y, id);
        }
    }
}

/// The id that is hit is that of a clip.
proof fn lemma_hit_index<A: Arith>(m: &A, state: &TimelineState, x: Num, y: Num, id: u32)
    requires
        state.is_hit(m, x, y, Some(id)),
    ensures
        0 <= index_of(state.clips@, id)->0 < state.clips@.len(),
{
    let (time, lane, ends) = choose|time: Num, lane: usize, ends: Seq<Num>|
        {
            &&& #[trigger] gives(m, time_formula(x, state.pixels_per_second), time)
            &&& #[trigger] gives_count(m, lane_formula(y), lane)
            &&& #[trigger] are_ends(m, state.clips@, ends)
            &&& Some(id) == topmost(state.clips@, ends, lane as int, time)
        };
    hit_clip_is_on_top(state.clips@, ends, lane as int, time);
    lemma_index_of(state.clips@, id);
}

/// Whether nothing in the state lies before the start of the timeline: neither the playhead nor
/// the start of a clip.
pub open spec fn starts_at_zero_or_later(state: &TimelineState) -> bool {
    &&& state.playhead_secs.is_from_zero_on()
    &&& forall|i: int|
        0 <= i < state.clips@.len() ==> (
        #[trigger] state.clips@[i]).start_time_secs.is_from_zero_on()
}

/// A new clip starts at zero or later, as the playhead does.
pub proof fn new_clip_starts_at_zero_or_later<A: Arith>(
    m: &A,
    before: &TimelineState,
    file_name: Option<Seq<char>>,
    path: Vec<u8>,
    audio: &DecodedAudio,
    after: &TimelineState,
)
    requires
        starts_at_zero_or_later(before),
        after.playhead_secs == before.playhead_secs,
        after.clips@ == before.clips@.push(after.clips@.last()),
        is_new_clip(m, before, file_name, path, audio, &after.clips@.last()),
    ensures
        starts_at_zero_or_later(after),
{
    assert forall|i: int| 0 <= i < after.clips@.len() implies (
    #[trigger] after.clips@[i]).start_time_secs.is_from_zero_on() by {
        if i < before.clips@.len() {
            assert(after.clips@[i] == before.clips@[i]);
        }
    }
}

/// A value that is raised to 0 where it is less lies from 0 on.
proof fn lemma_raised<A: Arith>(m: &A, f: Formula, r: Num)
    requires
        gives(m, f.max(Num { bits: ZERO }), r),
    ensures
        r.is_from_zero_on(),
{
    let zero = Num { bits: ZERO };
    let a = choose|a: Num| gives(m, f, a) && r == #[trigger] a.max(zero);
}

/// Putting a mouse button down leaves everything at zero or later.
pub proof fn press_stays_at_zero_or_later<A: Arith>(
    m: &A,
    before: &TimelineState,
    button: u32,
    x: Num,
    y: Num,
    after: &TimelineState,
)
    requires
        starts_at_zero_or_later(before),
        is_pressed(m, before, button, x, y, after),
    ensures
        starts_at_zero_or_later(after),
{
    assert forall|i: int| 0 <= i < before.clips@.len() implies (
    #[trigger] after.clips@[i]).start_time_secs.is_from_zero_on() by {
        press_moves_no_clip(m, before, button, x, y, after, i);
    }
    if before.clips@.len() > 0 {
        press_moves_no_clip(m, before, button, x, y, after, 0);
    }
    if after.playhead_secs != before.playhead_secs {
        lemma_raised(m, time_formula(x, before.pixels_per_second), after.playhead_secs);
    }
}

/// A clip is dragged to zero or later, under an orderly arithmetic.
pub proof fn drag_stays_at_zero_or_later<A: Arith>(
    m: &A,
    before: &TimelineState,
    clip_id: u32,
    x: Num,
    y: Num,
    after: &TimelineState,
)
    requires
        orderly(m),
        starts_at_zero_or_later(before),
        is_dragged(m, before, clip_id, x, y, after),
    ensures
        starts_at_zero_or_later(after),
{
    let to = drag_formula(x, before.pixels_per_second, before.drag_offset_secs);
    let (at, start, lane) = choose|at: Num, start: Num, lane: usize|
        {
            &&& #[trigger] gives(m, to, at)
            &&& #[trigger] gives(m, snap_formula(at, Num { bits: GRID }), start)
            &&& #[trigger] is_drag_lane(m, y, lane)
            &&& is_clip_put(before, clip_id, start, lane, after)
        };
    lemma_raised(
        m,
        time_formula(x, before.pixels_per_second) - val(before.drag_offset_secs),
        at,
    );
    lemma_snap(m, at, start);
    lemma_index_of(before.clips@, clip_id);
    assert forall|i: int| 0 <= i < after.clips@.len() implies (
    #[trigger] after.clips@[i]).start_time_secs.is_from_zero_on() by {
        assert(before.clips@[i].start_time_secs.is_from_zero_on());
    }
}

proof fn lemma_snap<A: Arith>(m: &A, at: Num, start: Num)
    requires
        orderly(m),
        at.is_from_zero_on(),
        gives(m, snap_formula(at, Num { bits: GRID }), start),
    ensures
        start.is_from_zero_on(),
{
    let grid = Num { bits: GRID };
    let steps = (val(at) / val(grid)).rounded();
    let (a, b) = choose|a: Num, b: Num|
        gives(m, steps, a) && gives(m, val(grid), b) && #[trigger] call_ensures(
            A::times,
            (m, a, b),
            start,
        );
    let c = choose|c: Num|
        gives(m, val(at) / val(grid), c) && #[trigger] call_ensures(A::round, (m, c), a);
    let (d, e) = choose|d: Num, e: Num|
        gives(m, val(at), d) && gives(m, val(grid), e) && #[trigger] call_ensures(
            A::over,
            (m, d, e),
            c,
        );
    assert(d == at && e == grid && b == grid);
}

/// Moving the mouse leaves everything at zero or later, under an orderly arithmetic.
pub proof fn mouse_move_stays_at_zero_or_later<A: Arith>(
    m: &A,
    before: &TimelineState,
    x: Num,
    y: Num,
    after: &TimelineState,
    size: Option<(i32, i32)>,
)
    requires
        orderly(m),
        starts_at_zero_or_later(before),
        is_mouse_moved(m, before, x, y, after, size),
    ensures
        starts_at_zero_or_later(after),
{
    if let Some(id) = before.drag_clip_id {
        match before.mouse_mode {
            MouseMode::MoveClip => {
                drag_stays_at_zero_or_later(m, before, id, x, y, after);
            },
            MouseMode::SelectInClip => {
                lemma_index_of(before.clips@, id);
                assert forall|i: int| 0 <= i < after.clips@.len() implies (
    #[trigger] after.clips@[i]).start_time_secs.is_from_zero_on() by {
                    assert(before.clips@[i].start_time_secs.is_from_zero_on());
                }
            },
            MouseMode::Idle => {},
        }
    }
}

/// Changing a clip without moving it leaves everything at zero or later.
pub proof fn change_stays_at_zero_or_later(
    before: &TimelineState,
    i: int,
    clip: AudioClip,
    after: &TimelineState,
)
    requires
        starts_at_zero_or_later(before),
        0 <= i < before.clips@.len(),
        clip.start_time_secs == before.clips@[i].start_time_secs,
        is_with_clip(before, i, clip, after),
    ensures
        starts_at_zero_or_later(after),
{
    assert forall|k: int| 0 <= k < after.clips@.len() implies (
    #[trigger] after.clips@[k]).start_time_secs.is_from_zero_on() by {
        assert(before.clips@[k].start_time_secs.is_from_zero_on());
    }
}

/// The playhead only moves forward while the clock goes on, under an orderly arithmetic; the clips
/// stay where they are.
pub proof fn playhead_only_moves_forward<A: Arith>(
    m: &A,
    before: &TimelineState,
    now: u64,
    after: &TimelineState,
)
    requires
        orderly(m),
        starts_at_zero_or_later(before),
        is_ticked(m, before, now, after),
    ensures
        before.playhead_secs.le(after.playhead_secs),
        after.clips == before.clips,
        starts_at_zero_or_later(after),
{
    if before.is_playing {
        if let Some(last) = before.last_tick {
            let nanos = if last < now {
                (now - last) as u64
            } else {
                0
            };
            let (a, b) = choose|a: Num, b: Num|
                gives(m, val(before.playhead_secs), a) && gives(m, seconds_formula(nanos), b)
                    && #[trigger] call_ensures(A::plus, (m, a, b), after.playhead_secs);
            lemma_seconds(m, nanos, b);
        }
    }
}

proof fn lemma_seconds<A: Arith>(m: &A, nanos: u64, secs: Num)
    requires
        orderly(m),
        gives(m, seconds_formula(nanos), secs),
    ensures
        secs.is_from_zero_on(),
{
    let whole = count((nanos / 1_000_000_000) as u64);
    let rest = count((nanos % 1_000_000_000) as u64);
    let (a, b) = choose|a: Num, b: Num|
        gives(m, whole, a) && gives(m, rest / lit(BILLION), b) && #[trigger] call_ensures(
            A::plus,
            (m, a, b),
            secs,
        );
    let (c, d) = choose|c: Num, d: Num|
        gives(m, rest, c) && gives(m, lit(BILLION), d) && #[trigger] call_ensures(
            A::over,
            (m, c, d),
            b,
        );
    assert(d == (Num { bits: BILLION }));
}

/// Zooming stays between 20 and 500 pixels per second, under an orderly arithmetic: a step closer
/// takes no fewer of them, a step further away no more.
pub proof fn zoom_stays_between_its_limits<A: Arith>(m: &A, now: Num, closer: Num, wider: Num)
    requires
        orderly(m),
        (Num { bits: WIDEST_ZOOM }).le(now),
        now.le(Num { bits: CLOSEST_ZOOM }),
        gives(m, closer_formula(now), closer),
        gives(m, wider_formula(now), wider),
    ensures
        now.le(closer),
        closer.le(Num { bits: CLOSEST_ZOOM }),
        (Num { bits: WIDEST_ZOOM }).le(wider),
        wider.le(now),
{
    let step = Num { bits: ZOOM_STEP };
    let p = choose|p: Num|
        gives(m, val(now) * lit(ZOOM_STEP), p) && closer == #[trigger] p.min(
            Num { bits: CLOSEST_ZOOM },
        );
    let (a, b) = choose|a: Num, b: Num|
        gives(m, val(now), a) && gives(m, lit(ZOOM_STEP), b) && #[trigger] call_ensures(
            A::times,
            (m, a, b),
            p,
        );
    assert(a == now && b == step);
    let q = choose|q: Num|
        gives(m, val(now) / lit(ZOOM_STEP), q) && wider == #[trigger] q.max(
            Num { bits: WIDEST_ZOOM },
        );
    let (c, d) = choose|c: Num, d: Num|
        gives(m, val(now), c) && gives(m, lit(ZOOM_STEP), d) && #[trigger] call_ensures(
            A::over,
            (m, c, d),
            q,
        );
    assert(c == now && d == step);
}

/// Every amplitude of a waveform lies in 0 to 1, unless it is NaN, under an orderly arithmetic.
pub proof fn amplitudes_lie_in_unit<A: Arith>(
    m: &A,
    samples: Seq<Sample>,
    n: nat,
    amps: Seq<Sample>,
    i: int,
)
    requires
        orderly(m),
        are_amplitudes(m, samples, n, amps),
        0 <= i < n,
    ensures
        amps[i].is_number() ==> 0 <= amps[i].order() <= SAMPLE_ONE,
{
    if samples.len() > 0 {
        let size = chunk_size(samples.len() as int, n as int);
        no_chunk_exceeds_the_loudest(samples, size, n, i);
        let top = peak(chunk(samples, size, i));
        let all = loudest(samples, size, n);
        assert(sample_gives(m, sample(top) / sample(all), amps[i]));
        let (a, b) = choose|a: Sample, b: Sample|
            sample_gives(m, sample(top), a) && sample_gives(m, sample(all), b)
                && #[trigger] call_ensures(A::sample_over, (m, a, b), amps[i]);
        assert(a == top && b == all);
    }
}

/// Snapping lands on the grid, under an arithmetic that rounds to the nearest value: it gives the
/// multiple of 0.25 that is nearest, halves away from zero, so it moves a time by 0.125 at most.
pub proof fn snapping_lands_on_the_grid<A: Arith>(m: &A, v: Num, s: Num)
    requires
        correctly_rounded(m),
        is_snappable(v),
        gives(m, snap_formula(v, Num { bits: GRID }), s),
    ensures
        s.is_finite(),
        4 * units(Num { bits: GRID }) == one_units(),
        units(s) == nearest_whole(units(v), units(Num { bits: GRID })) * units(
            Num { bits: GRID },
        ),
        2 * distance(units(s), units(v)) <= units(Num { bits: GRID }),
{
    lemma_constants();
    lemma_snap_is_exact(m, v, s);
    lemma_nearest_whole(units(v), 0, units(Num { bits: GRID }), 0);
}

/// Snapping what was snapped changes nothing, under an arithmetic that rounds to the nearest value.
pub proof fn snapping_again_changes_nothing<A: Arith>(m: &A, v: Num, once: Num, twice: Num)
    requires
        correctly_rounded(m),
        is_snappable(v),
        gives(m, snap_formula(v, Num { bits: GRID }), once),
        gives(m, snap_formula(once, Num { bits: GRID }), twice),
    ensures
        twice.equals(once),
{
    let g = units(Num { bits: GRID });
    lemma_constants();
    lemma_snap_is_exact(m, v, once);
    lemma_snapped_is_snappable(m, v, once);
    lemma_snap_is_exact(m, once, twice);
    lemma_nearest_whole(0, 0, g, nearest_whole(units(v), g));
    lemma_units_grow(once, twice);
}

/// Snapping keeps the order of times, under an arithmetic that rounds to the nearest value.
pub proof fn snapping_keeps_the_order<A: Arith>(m: &A, v: Num, w: Num, s: Num, t: Num)
    requires
        correctly_rounded(m),
        is_snappable(v),
        is_snappable(w),
        v.le(w),
        gives(m, snap_formula(v, Num { bits: GRID }), s),
        gives(m, snap_formula(w, Num { bits: GRID }), t),
    ensures
        s.le(t),
{
    let g = units(Num { bits: GRID });
    lemma_constants();
    lemma_snap_is_exact(m, v, s);
    lemma_snap_is_exact(m, w, t);
    lemma_units_grow(v, w);
    lemma_nearest_whole(units(v), units(w), g, 0);
    let j = nearest_whole(units(v), g);
    let k = nearest_whole(units(w), g);
    assert(j * g <= k * g) by (nonlinear_arith)
        requires
            j <= k,
            g > 0,
    ;
    lemma_units_grow(t, s);
}

/// Zooming out undoes zooming in, where the step in does not meet the limit of 500, under an
/// arithmetic that rounds to the nearest value: the zoom comes back to where it was, or to a
/// neighbouring value.
pub proof fn zooming_out_undoes_zooming_in<A: Arith>(m: &A, now: Num, closer: Num, back: Num)
    requires
        correctly_rounded(m),
        (Num { bits: WIDEST_ZOOM }).le(now),
        5 * units(now) <= 4 * units(Num { bits: CLOSEST_ZOOM }),
        now.is_finite(),
        gives(m, closer_formula(now), closer),
        gives(m, wider_formula(closer), back),
    ensures
        now.order() - 1 <= back.order() <= now.order() + 1,
{
    let step = Num { bits: ZOOM_STEP };
    let limit = Num { bits: CLOSEST_ZOOM };
    let p = choose|p: Num|
        gives(m, val(now) * lit(ZOOM_STEP), p) && closer == #[trigger] p.min(limit);
    let (a, b) = choose|a: Num, b: Num|
        gives(m, val(now), a) && gives(m, lit(ZOOM_STEP), b) && #[trigger] call_ensures(
            A::times,
            (m, a, b),
            p,
        );
    assert(a == now && b == step);
    let q = choose|q: Num|
        gives(m, val(closer) / lit(ZOOM_STEP), q) && back == #[trigger] q.max(
            Num { bits: WIDEST_ZOOM },
        );
    let (c, d) = choose|c: Num, d: Num|
        gives(m, val(closer), c) && gives(m, lit(ZOOM_STEP), d) && #[trigger] call_ensures(
            A::over,
            (m, c, d),
            q,
        );
    assert(c == closer && d == step);
    let zero = Num { bits: ZERO };
    lemma_units_grow(zero, limit);
    lemma_units_grow(limit, now);
    lemma_units_grow(zero, now);
    lemma_product_below(m, now, p, limit);
    assert(closer == p);
    lemma_step_and_back(m, now, p, q);
}

/// A product with 1.25 that is exactly no greater than a value is not rounded above it.
proof fn lemma_product_below<A: Arith>(m: &A, now: Num, p: Num, limit: Num)
    requires
        correctly_rounded(m),
        call_ensures(A::times, (m, now, Num { bits: ZOOM_STEP }), p),
        (Num { bits: WIDEST_ZOOM }).le(now),
        now.order() <= CLOSEST_ZOOM,
        limit == (Num { bits: CLOSEST_ZOOM }),
        5 * units(now) <= 4 * units(limit),
    ensures
        p.is_finite(),
        p.order() <= limit.order(),
{
    lemma_nearest_product(m, now, p);
    assert(distance(4 * units(p), 5 * units(now)) <= distance(4 * units(limit), 5 * units(now)));
    lemma_units_grow(limit, p);
}

/// The order of the two ends of a selection does not matter, under an arithmetic that is a function
/// and takes two values from each other with results that only differ in sign: either way the same
/// samples are covered, unless both ends are NaN.
pub proof fn order_of_the_ends_does_not_matter<A: Arith>(
    m: &A,
    clip: &AudioClip,
    turned: &AudioClip,
    a: Num,
    b: Num,
    r: Option<(usize, usize)>,
    s: Option<(usize, usize)>,
)
    requires
        functional(m),
        differences_are_opposite(m),
        a.is_number() || b.is_number(),
        clip.selection == Some((a, b)),
        *turned == (AudioClip { selection: Some((b, a)), ..*clip }),
        is_selection_range(m, clip, r),
        is_selection_range(m, turned, s),
    ensures
        r == s,
{
    let p = choose|span: Num| #[trigger]
        gives(m, val(b) - val(a), span) && is_span_range(m, clip, a, b, span, r);
    let q = choose|span: Num| #[trigger]
        gives(m, val(a) - val(b), span) && is_span_range(m, turned, b, a, span, s);
    let (x, y) = choose|x: Num, y: Num|
        gives(m, val(b), x) && gives(m, val(a), y) && #[trigger] call_ensures(
            A::minus,
            (m, x, y),
            p,
        );
    let (z, w) = choose|x: Num, y: Num|
        gives(m, val(a), x) && gives(m, val(b), y) && #[trigger] call_ensures(
            A::minus,
            (m, x, y),
            q,
        );
    assert(x == b && y == a && z == a && w == b);
    assert(p.abs() == q.abs() || !p.is_number() && !q.is_number());
    assert(a.min(b) == b.min(a) && a.max(b) == b.max(a));
    assert(is_span_range(m, clip, a, b, p, s));
    lemma_span_range(m, clip, a, b, p, r, s);
}

/// A volume effect that follows another changes no sample, under an arithmetic that is a function
/// and for which 1 is neutral: the first leaves the volume at 1 and the samples in -1 to 1. Where
/// there is NaN, NaN stays. The effect only marks the same zone once more, where there is a whole
/// frame to work on.
pub proof fn second_volume_changes_no_sample<A: Arith>(
    m: &A,
    before: &AudioClip,
    once: &AudioClip,
    twice: &AudioClip,
)
    requires
        functional(m),
        one_is_neutral(m),
        is_effect_outcome(m, before, Some(Effect::Volume), once),
        is_effect_outcome(m, once, Some(Effect::Volume), twice),
    ensures
        twice.buffer@.len() == once.buffer@.len(),
        forall|i: int|
            0 <= i < once.buffer@.len() ==> is_kept(once.buffer@[i], #[trigger] twice.buffer@[i]),
        (forall|i: int| 0 <= i < once.buffer@.len() ==> (#[trigger] once.buffer@[i]).is_number())
            ==> twice.buffer@ == once.buffer@,
        twice.volume == once.volume,
        twice.amplitudes@ == once.amplitudes@,
        same_fixture(once, twice),
        same_timing(once, twice),
        *twice == *once || marked(once, Effect::Volume, once.selection, twice),
{
    let p = choose|range: Option<(usize, usize)>| #[trigger]
        is_effect_range(m, before, range) && match range {
            None => *once == *before,
            Some((start, end)) => is_effect_on(
                m,
                before,
                Some(Effect::Volume),
                start as int,
                end as int,
                once,
            ),
        };
    let q = choose|range: Option<(usize, usize)>| #[trigger]
        is_effect_range(m, once, range) && match range {
            None => *twice == *once,
            Some((start, end)) => is_effect_on(
                m,
                once,
                Some(Effect::Volume),
                start as int,
                end as int,
                twice,
            ),
        };
    lemma_same_effect_range(m, once, before, q);
    effect_range_is_determined(m, before, p, q);
    if let Some((start, end)) = p {
        let (start, end) = (start as int, end as int);
        assert forall|i: int| 0 <= i < once.buffer@.len() implies is_kept(
            once.buffer@[i],
            #[trigger] twice.buffer@[i],
        ) by {
            if start <= i < end {
                effect_stays_in_range(m, before, Effect::Volume, start, end, once, i);
                lemma_times_one(m, once.buffer@[i], twice.buffer@[i]);
            }
        }
        lemma_same_waveform(
            m,
            once.buffer@,
            twice.buffer@,
            AMPLITUDE_COUNT as nat,
            once.amplitudes@,
        );
        amplitudes_are_determined(
            m,
            twice.buffer@,
            AMPLITUDE_COUNT as nat,
            once.amplitudes@,
            twice.amplitudes@,
        );
    }
    if forall|i: int| 0 <= i < once.buffer@.len() ==> (#[trigger] once.buffer@[i]).is_number() {
        assert forall|i: int| 0 <= i < once.buffer@.len() implies twice.buffer@[i]
            == once.buffer@[i] by {
            assert(is_kept(once.buffer@[i], twice.buffer@[i]));
        }
        assert(twice.buffer@ =~= once.buffer@);
    }
}

/// Whether `b` is the sample `a`, or both are NaN.
pub open spec fn is_kept(a: Sample, b: Sample) -> bool {
    if a.is_number() {
        b == a
    } else {
        !b.is_number()
    }
}

/// The range that an effect works on depends on no more than the selection, the number of samples
/// and the number of channels.
proof fn lemma_same_effect_range<A: Arith>(
    m: &A,
    a: &AudioClip,
    b: &AudioClip,
    r: Option<(usize, usize)>,
)
    requires
        a.selection == b.selection,
        a.buffer@.len() == b.buffer@.len(),
        a.channels == b.channels,
        is_effect_range(m, a, r),
    ensures
        is_effect_range(m, b, r),
{
    assert forall|s: Option<(usize, usize)>| #[trigger]
        is_selection_range(m, a, s) implies is_selection_range(m, b, s) by {
        if let Some((x, y)) = a.selection {
            let span = choose|span: Num| #[trigger]
                gives(m, val(y) - val(x), span) && is_span_range(m, a, x, y, span, s);
            assert(is_span_range(m, b, x, y, span, s));
        }
    }
}

/// A sample in -1 to 1, times 1 and moved into -1 to 1, is the sample, or NaN both times.
proof fn lemma_times_one<A: Arith>(m: &A, s: Sample, r: Sample)
    requires
        one_is_neutral(m),
        in_range(s),
        sample_gives(
            m,
            (sample(s) * sample(Sample { bits: SAMPLE_ONE })).clamped(
                Sample { bits: SAMPLE_MINUS_ONE },
                Sample { bits: SAMPLE_ONE },
            ),
            r,
        ),
    ensures
        is_kept(s, r),
{
    let one = Sample { bits: SAMPLE_ONE };
    let low = Sample { bits: SAMPLE_MINUS_ONE };
    let f = sample(s) * sample(one);
    let p = choose|p: Sample| sample_gives(m, f, p) && r == #[trigger] p.clamp(low, one);
    let (a, b) = choose|a: Sample, b: Sample|
        sample_gives(m, sample(s), a) && sample_gives(m, sample(one), b)
            && #[trigger] call_ensures(A::sample_times, (m, a, b), p);
    assert(a == s && b == one);
}

/// Whether two samples are equally loud: equal but for the sign, or both NaN.
spec fn equally_loud(a: Sample, b: Sample) -> bool {
    a.abs() == b.abs() || !a.is_number() && !b.is_number()
}

/// Equally loud samples have the same peak.
proof fn lemma_same_peak(a: Seq<Sample>, b: Seq<Sample>)
    requires
        a.len() == b.len(),
        forall|i: int| 0 <= i < a.len() ==> equally_loud(#[trigger] a[i], b[i]),
    ensures
        peak(a) == peak(b),
    decreases a.len(),
{
    if a.len() > 0 {
        assert(equally_loud(a[a.len() - 1], b[a.len() - 1]));
        assert forall|i: int| 0 <= i < a.len() - 1 implies equally_loud(
            #[trigger] a.drop_last()[i],
            b.drop_last()[i],
        ) by {
            assert(equally_loud(a[i], b[i]));
        }
        lemma_same_peak(a.drop_last(), b.drop_last());
        lemma_peak(a.drop_last());
    }
}

/// Chunk `i` of samples lies among them.
proof fn lemma_chunk_bounds(total: int, size: int, i: int)
    requires
        0 <= i,
        0 < size,
        0 <= total,
    ensures
        0 <= chunk_start(total, size, i) <= chunk_start(total, size, i + 1) <= total,
{
    assert(0 <= i * size <= (i + 1) * size) by (nonlinear_arith)
        requires
            0 <= i,
            0 < size,
    ;
}

/// Chunks of equally loud samples have the same peaks.
proof fn lemma_same_loudest(a: Seq<Sample>, b: Seq<Sample>, size: int, n: nat)
    requires
        a.len() == b.len(),
        0 < size,
        forall|i: int| 0 <= i < a.len() ==> equally_loud(#[trigger] a[i], b[i]),
    ensures
        loudest(a, size, n) == loudest(b, size, n),
        forall|i: int|
            0 <= i < n ==> #[trigger] peak(chunk(a, size, i)) == peak(chunk(b, size, i)),
    decreases n,
{
    if n > 0 {
        let k = n - 1;
        lemma_same_loudest(a, b, size, k as nat);
        lemma_chunk_bounds(a.len() as int, size, k);
        let (c, d) = (chunk(a, size, k), chunk(b, size, k));
        let first = chunk_start(a.len() as int, size, k);
        assert forall|i: int| 0 <= i < c.len() implies equally_loud(#[trigger] c[i], d[i]) by {
            assert(equally_loud(a[first + i], b[first + i]));
        }
        lemma_same_peak(c, d);
    }
}

/// Equally loud samples have the same waveform.
proof fn lemma_same_waveform<A: Arith>(
    m: &A,
    a: Seq<Sample>,
    b: Seq<Sample>,
    n: nat,
    amps: Seq<Sample>,
)
    requires
        a.len() == b.len(),
        forall|i: int| 0 <= i < a.len() ==> equally_loud(a[i], #[trigger] b[i]),
    ensures
        are_amplitudes(m, a, n, amps) == are_amplitudes(m, b, n, amps),
{
    let size = chunk_size(a.len() as int, n as int);
    assert forall|i: int| 0 <= i < a.len() implies equally_loud(#[trigger] a[i], b[i]) by {}
    lemma_same_loudest(a, b, size, n);
    if are_amplitudes(m, a, n, amps) {
        assert forall|i: int| 0 <= i < n && a.len() > 0 implies sample_gives(
            m,
            sample(peak(chunk(b, size, i))) / sample(loudest(b, size, n)),
            #[trigger] amps[i],
        ) by {
            assert(peak(chunk(a, size, i)) == peak(chunk(b, size, i)));
        }
    }
    if are_amplitudes(m, b, n, amps) {
        assert forall|i: int| 0 <= i < n && a.len() > 0 implies sample_gives(
            m,
            sample(peak(chunk(a, size, i))) / sample(loudest(a, size, n)),
            #[trigger] amps[i],
        ) by {
            assert(peak(chunk(a, size, i)) == peak(chunk(b, size, i)));
        }
    }
}

/// Negated samples have the same waveform: what can be the amplitudes of the one can be those of
/// the other.
pub proof fn negated_samples_have_the_same_waveform<A: Arith>(
    m: &A,
    samples: Seq<Sample>,
    negated: Seq<Sample>,
    n: nat,
    amps: Seq<Sample>,
)
    requires
        negated == samples.map_values(|s: Sample| s.negated()),
    ensures
        are_amplitudes(m, negated, n, amps) == are_amplitudes(m, samples, n, amps),
{
    lemma_same_waveform(m, samples, negated, n, amps);
}

/// Whether `b` is twice the sample `a`, and finite, or both are NaN.
pub open spec fn is_double(a: Sample, b: Sample) -> bool {
    if a.is_number() {
        a.is_doubled_exactly() && b == a.doubled()
    } else {
        !b.is_number()
    }
}

/// The peak of doubled samples is twice the peak.
proof fn lemma_doubled_peak(a: Seq<Sample>, b: Seq<Sample>)
    requires
        a.len() == b.len(),
        forall|i: int|
            0 <= i < a.len() ==> is_double(#[trigger] a[i], b[i]),
    ensures
        peak(a).bits < SAMPLE_TOP_BINADE,
        peak(b) == peak(a).doubled(),
    decreases a.len(),
{
    if a.len() > 0 {
        let k = a.len() - 1;
        assert(is_double(a[k], b[k]));
        assert forall|i: int| 0 <= i < k implies is_double(
            #[trigger] a.drop_last()[i],
            b.drop_last()[i],
        ) by {
            assert(is_double(a[i], b[i]));
        }
        lemma_doubled_peak(a.drop_last(), b.drop_last());
    }
}

/// Whether one of the first `n` chunks has a peak of at least 0.001.
pub open spec fn some_chunk_is_heard(samples: Seq<Sample>, size: int, n: nat) -> bool {
    exists|i: int|
        0 <= i < n && (Sample { bits: SAMPLE_THOUSANDTH }).le(
            #[trigger] peak(chunk(samples, size, i)),
        )
}

/// Chunks of doubled samples are twice as loud, once one of them has a peak of at least 0.001.
proof fn lemma_doubled_loudest(a: Seq<Sample>, b: Seq<Sample>, size: int, n: nat)
    requires
        a.len() == b.len(),
        0 < size,
        forall|i: int|
            0 <= i < a.len() ==> is_double(#[trigger] a[i], b[i]),
    ensures
        forall|i: int|
            0 <= i < n ==> {
                &&& (#[trigger] peak(chunk(a, size, i))).bits < SAMPLE_TOP_BINADE
                &&& peak(chunk(b, size, i)) == peak(chunk(a, size, i)).doubled()
            },
        SAMPLE_THOUSANDTH <= loudest(a, size, n).bits < SAMPLE_TOP_BINADE,
        if some_chunk_is_heard(a, size, n) {
            loudest(b, size, n) == loudest(a, size, n).doubled()
        } else {
            &&& loudest(a, size, n).bits == SAMPLE_THOUSANDTH
            &&& loudest(b, size, n).bits < (Sample {
                bits: SAMPLE_THOUSANDTH,
            }).doubled().bits
        },
    decreases n,
{
    if n > 0 {
        let k = n - 1;
        lemma_doubled_loudest(a, b, size, k as nat);
        lemma_chunk_bounds(a.len() as int, size, k);
        let (c, d) = (chunk(a, size, k), chunk(b, size, k));
        let first = chunk_start(a.len() as int, size, k);
        assert forall|i: int| 0 <= i < c.len() implies is_double(#[trigger] c[i], d[i]) by {
            assert(is_double(a[first + i], b[first + i]));
        }
        lemma_doubled_peak(c, d);
        let louder = (Sample { bits: SAMPLE_THOUSANDTH }).le(peak(c));
        if some_chunk_is_heard(a, size, k as nat) {
            let i = choose|i: int|
                0 <= i < k && (Sample { bits: SAMPLE_THOUSANDTH }).le(
                    #[trigger] peak(chunk(a, size, i)),
                );
            assert(some_chunk_is_heard(a, size, n));
        } else if louder {
            assert(peak(chunk(a, size, k)) == peak(c));
            assert(some_chunk_is_heard(a, size, n));
        } else {
            assert(!some_chunk_is_heard(a, size, n));
        }
    }
}

/// Doubled samples have the same waveform, where their doubles are finite and some chunk has a peak
/// of at least 0.001, under an arithmetic for which doubles cancel.
pub proof fn doubled_samples_have_the_same_waveform<A: Arith>(
    m: &A,
    samples: Seq<Sample>,
    doubled: Seq<Sample>,
    n: nat,
    r: Seq<Sample>,
    s: Seq<Sample>,
)
    requires
        doubles_cancel(m),
        samples.len() == doubled.len(),
        forall|i: int| 0 <= i < samples.len() ==> is_double(#[trigger] samples[i], doubled[i]),
        some_chunk_is_heard(samples, chunk_size(samples.len() as int, n as int), n),
        are_amplitudes(m, samples, n, r),
        are_amplitudes(m, doubled, n, s),
    ensures
        r == s,
{
    let size = chunk_size(samples.len() as int, n as int);
    lemma_doubled_loudest(samples, doubled, size, n);
    assert forall|i: int| 0 <= i < n implies r[i] == s[i] by {
        if samples.len() > 0 {
            let top = peak(chunk(samples, size, i));
            let all = loudest(samples, size, n);
            assert(peak(chunk(doubled, size, i)) == top.doubled());
            lemma_quotient(m, top, all, r[i]);
            assert(sample_gives(m, sample(top.doubled()) / sample(all.doubled()), s[i]));
            lemma_quotient(m, top.doubled(), all.doubled(), s[i]);
        }
    }
    assert(r =~= s);
}

/// The quotient of two samples comes from dividing them.
proof fn lemma_quotient<A: Arith>(m: &A, a: Sample, b: Sample, r: Sample)
    requires
        sample_gives(m, sample(a) / sample(b), r),
    ensures
        call_ensures(A::sample_over, (m, a, b), r),
{
    let (x, y) = choose|x: Sample, y: Sample|
        sample_gives(m, sample(a), x) && sample_gives(m, sample(b), y) && #[trigger] call_ensures(
            A::sample_over,
            (m, x, y),
            r,
        );
    assert(x == a && y == b);
}

/// Where nothing is selected a cut changes nothing, whatever the arithmetic.
pub proof fn cut_without_a_selection_changes_nothing<A: Arith>(
    m: &A,
    before: &AudioClip,
    after: &AudioClip,
)
    requires
        before.selection is None,
        is_selection_cut(m, before, after),
    ensures
        *after == *before,
{
}

/// What is exported lies in -32767 to 32767, under an arithmetic that keeps it there.
pub proof fn exported_samples_lie_in_range<A: Arith>(
    m: &A,
    clips: Seq<AudioClip>,
    placements: Seq<Option<Placement>>,
    samples: Seq<i16>,
)
    requires
        pcm_is_bounded(m),
        are_exported(m, clips, placements, samples),
    ensures
        forall|d: int| 0 <= d < samples.len() ==> -32767 <= #[trigger] samples[d] <= 32767,
{
    let low = Sample { bits: SAMPLE_MINUS_ONE };
    let high = Sample { bits: SAMPLE_ONE };
    let scale = Sample { bits: SAMPLE_PCM_MAX };
    assert forall|d: int| 0 <= d < samples.len() implies -32767 <= #[trigger] samples[d]
        <= 32767 by {
        assert(is_exported(m, clips, placements, d, samples[d]));
        let mixed = choose|mixed: Sample| #[trigger]
            is_mixed(m, clips, placements, clips.len(), d, mixed) && gives_pcm(
                m,
                sample(mixed.clamp(low, high)) * sample_lit(SAMPLE_PCM_MAX),
                samples[d],
            );
        let f = sample(mixed.clamp(low, high)) * sample_lit(SAMPLE_PCM_MAX);
        let v = choose|v: Sample| #[trigger]
            sample_gives(m, f, v) && call_ensures(A::to_pcm, (m, v), samples[d]);
        let (a, b) = choose|a: Sample, b: Sample|
            sample_gives(m, sample(mixed.clamp(low, high)), a) && sample_gives(
                m,
                sample_lit(SAMPLE_PCM_MAX),
                b,
            ) && #[trigger] call_ensures(A::sample_times, (m, a, b), v);
        assert(a == mixed.clamp(low, high) && b == scale);
        clamped_sample_lies_in_range(mixed);
    }
}

/// A distorted sample lies within 0.7 of 0, where it was a number before, under an arithmetic that
/// bounds the hyperbolic tangent.
pub proof fn distortion_stays_in_bounds<A: Arith>(
    m: &A,
    before: Seq<Sample>,
    start: int,
    end: int,
    after: Seq<Sample>,
    i: int,
)
    requires
        tanh_is_bounded(m),
        is_distorted(m, before, start, end, after),
        start <= i < end,
        before[i].is_number(),
    ensures
        after[i].is_number(),
        after[i].magnitude() <= SAMPLE_SEVEN_TENTHS,
{
    let five = sample_lit(SAMPLE_FIVE);
    let level = sample_lit(SAMPLE_SEVEN_TENTHS);
    let driven = sample(before[i]) * five;
    assert(sample_gives(m, driven.tanh() * level, after[i]));
    let (a, b) = choose|a: Sample, b: Sample|
        sample_gives(m, driven.tanh(), a) && sample_gives(m, level, b) && #[trigger] call_ensures(
            A::sample_times,
            (m, a, b),
            after[i],
        );
    let c = choose|c: Sample|
        sample_gives(m, driven, c) && #[trigger] call_ensures(A::sample_tanh, (m, c), a);
    let (d, e) = choose|d: Sample, e: Sample|
        sample_gives(m, sample(before[i]), d) && sample_gives(m, five, e)
            && #[trigger] call_ensures(A::sample_times, (m, d, e), c);
    assert(b == (Sample { bits: SAMPLE_SEVEN_TENTHS }));
    assert(d == before[i] && e == (Sample { bits: SAMPLE_FIVE }));
}

/// The peak of samples none of which is infinite is finite.
proof fn lemma_finite_peak(samples: Seq<Sample>)
    requires
        forall|i: int| 0 <= i < samples.len() ==> !is_infinite(#[trigger] samples[i]),
    ensures
        peak(samples).bits < SAMPLE_INFINITY,
    decreases samples.len(),
{
    if samples.len() > 0 {
        assert(!is_infinite(samples[samples.len() - 1]));
        lemma_finite_peak(samples.drop_last());
    }
}

/// Whether a sample is infinite.
pub open spec fn is_infinite(s: Sample) -> bool {
    s.magnitude() == SAMPLE_INFINITY
}

/// The loudest chunk of samples none of which is infinite is finite, and it is one of the chunks
/// once one of them has a peak of at least 0.001.
proof fn lemma_finite_loudest(samples: Seq<Sample>, size: int, n: nat)
    requires
        0 < size,
        forall|i: int| 0 <= i < samples.len() ==> !is_infinite(#[trigger] samples[i]),
    ensures
        forall|i: int|
            0 <= i < n ==> (#[trigger] peak(chunk(samples, size, i))).bits < SAMPLE_INFINITY,
        SAMPLE_THOUSANDTH <= loudest(samples, size, n).bits < SAMPLE_INFINITY,
        if some_chunk_is_heard(samples, size, n) {
            exists|i: int|
                0 <= i < n && #[trigger] peak(chunk(samples, size, i)) == loudest(samples, size, n)
        } else {
            loudest(samples, size, n) == (Sample { bits: SAMPLE_THOUSANDTH })
        },
    decreases n,
{
    if n > 0 {
        let k = n - 1;
        lemma_finite_loudest(samples, size, k as nat);
        lemma_chunk_bounds(samples.len() as int, size, k);
        let c = chunk(samples, size, k);
        let first = chunk_start(samples.len() as int, size, k);
        assert forall|i: int| 0 <= i < c.len() implies !is_infinite(#[trigger] c[i]) by {
            assert(!is_infinite(samples[first + i]));
        }
        lemma_finite_peak(c);
        let before = loudest(samples, size, k as nat);
        let thousandth = Sample { bits: SAMPLE_THOUSANDTH };
        if some_chunk_is_heard(samples, size, k as nat) {
            let j = choose|j: int|
                0 <= j < k && thousandth.le(#[trigger] peak(chunk(samples, size, j)));
            assert(some_chunk_is_heard(samples, size, n));
            let i = choose|i: int|
                0 <= i < k && #[trigger] peak(chunk(samples, size, i)) == before;
            if loudest(samples, size, n) == before {
                assert(peak(chunk(samples, size, i)) == loudest(samples, size, n));
            } else {
                assert(peak(chunk(samples, size, k)) == loudest(samples, size, n));
            }
        } else if thousandth.le(peak(c)) {
            assert(thousandth.le(peak(chunk(samples, size, k))));
            assert(some_chunk_is_heard(samples, size, n));
            assert(peak(chunk(samples, size, k)) == loudest(samples, size, n));
        } else {
            assert(!some_chunk_is_heard(samples, size, n));
        }
    }
}

/// Some amplitude of a waveform is 1 where, and only where, some chunk has a peak of at least
/// 0.001, unless a sample is infinite, under an arithmetic that tells a whole from a part.
pub proof fn some_amplitude_is_one_where_some_chunk_is_heard<A: Arith>(
    m: &A,
    samples: Seq<Sample>,
    n: nat,
    amps: Seq<Sample>,
)
    requires
        parts_are_less(m),
        forall|i: int| 0 <= i < samples.len() ==> !is_infinite(#[trigger] samples[i]),
        are_amplitudes(m, samples, n, amps),
    ensures
        (exists|i: int| 0 <= i < n && #[trigger] amps[i] == (Sample { bits: SAMPLE_ONE }))
            <==> some_chunk_is_heard(samples, chunk_size(samples.len() as int, n as int), n),
{
    let size = chunk_size(samples.len() as int, n as int);
    let one = Sample { bits: SAMPLE_ONE };
    let all = loudest(samples, size, n);
    lemma_finite_loudest(samples, size, n);
    if some_chunk_is_heard(samples, size, n) {
        let i = choose|i: int| 0 <= i < n && #[trigger] peak(chunk(samples, size, i)) == all;
        if samples.len() == 0 {
            lemma_chunk_bounds(0, size, i);
            assert(chunk(samples, size, i).len() == 0);
            assert(false);
        }
        assert(sample_gives(m, sample(all) / sample(all), amps[i]));
        lemma_quotient(m, all, all, amps[i]);
        assert(amps[i] == one);
    } else {
        assert forall|i: int| 0 <= i < n implies #[trigger] amps[i] != one by {
            if samples.len() > 0 {
                let top = peak(chunk(samples, size, i));
                lemma_peak(chunk(samples, size, i));
                assert(!(Sample { bits: SAMPLE_THOUSANDTH }).le(top));
                lemma_quotient(m, top, all, amps[i]);
            }
        }
    }
}

} // verus!
