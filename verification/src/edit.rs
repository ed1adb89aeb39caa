//! Cutting samples out of a clip.
use vstd::prelude::*;

use crate::arith::{
    count, from, from_bits, from_count, gives, gives_count, lit, val, Arith, Formula,
};
use crate::clip::{
    align, aligned, are_amplitudes, compute_amplitudes, duration_formula, is_selection_range,
    position_formula, present, selection_sample_range, AudioClip, Zone, AMPLITUDE_COUNT,
};
use crate::effects::splice;
use crate::num::{Num, ONE, ZERO};

verus! {

/// What every cut leaves of a clip.
pub open spec fn same_settings(before: &AudioClip, after: &AudioClip) -> bool {
    &&& after.id == before.id
    &&& after.lane == before.lane
    &&& after.name == before.name
    &&& after.path == before.path
    &&& after.channels == before.channels
    &&& after.sample_rate == before.sample_rate
    &&& after.start_time_secs == before.start_time_secs
    &&& after.offset_in_audio_secs == before.offset_in_audio_secs
    &&& after.volume == before.volume
    &&& after.speed == before.speed
    &&& after.bass_gain == before.bass_gain
    &&& after.color == before.color
}

/// What a cut computes anew from the samples that are left.
pub open spec fn refreshed<A: Arith>(m: &A, after: &AudioClip) -> bool {
    &&& gives(
        m,
        duration_formula(after.buffer@.len() as int, after.sample_rate, after.channels),
        after.duration_secs,
    )
    &&& are_amplitudes(m, after.buffer@, AMPLITUDE_COUNT as nat, after.amplitudes@)
    &&& after.selection is None
}

/// The share of a clip of `total` samples that the range `start..end` takes.
pub open spec fn share_formula(start: int, end: int, total: int) -> Formula {
    count((end - start) as u64) / count(total as u64)
}

/// Where a zone lies once `start..end` of `total` samples are gone. A zone before the cut or after
/// it is fitted to the shorter clip, of which `rest` is the share that is left; a zone that the
/// cut touches is dropped. `from` and `to` are the ratios between which the clip is cut.
pub open spec fn is_cut_zone<A: Arith>(
    m: &A,
    start: int,
    end: int,
    total: int,
    from: Num,
    to: Num,
    rest: Num,
    zone: Zone,
    r: Option<Zone>,
) -> bool {
    let share = share_formula(start, end, total);
    if zone.end.le(from) {
        r matches Some(moved) && {
            &&& gives(m, val(zone.start) / val(rest), moved.start)
            &&& gives(m, val(zone.end) / val(rest), moved.end)
            &&& moved.color == zone.color
        }
    } else if to.le(zone.start) {
        r matches Some(moved) && {
            &&& gives(m, (val(zone.start) - share) / val(rest), moved.start)
            &&& gives(m, (val(zone.end) - share) / val(rest), moved.end)
            &&& moved.color == zone.color
        }
    } else {
        r is None
    }
}

/// Whether `after` are the zones `before` once `start..end` of `total` samples are gone.
pub open spec fn are_cut_zones<A: Arith>(
    m: &A,
    start: int,
    end: int,
    total: int,
    from: Num,
    to: Num,
    rest: Num,
    before: Seq<Zone>,
    after: Seq<Zone>,
) -> bool {
    exists|moved: Seq<Option<Zone>>|
        #![trigger present(moved)]
        {
            &&& moved.len() == before.len()
            &&& forall|i: int|
                0 <= i < before.len() ==> is_cut_zone(
                    m,
                    start,
                    end,
                    total,
                    from,
                    to,
                    rest,
                    before[i],
                    #[trigger] moved[i],
                )
            &&& after == present(moved)
        }
}

/// Whether `after` is `before` without the samples `start..end`.
pub open spec fn is_cut<A: Arith>(
    m: &A,
    before: &AudioClip,
    start: int,
    end: int,
    after: &AudioClip,
) -> bool {
    let total = before.buffer@.len() as int;
    &&& same_settings(before, after)
    &&& after.buffer@ == before.buffer@.subrange(0, start) + before.buffer@.subrange(end, total)
    &&& refreshed(m, after)
    &&& exists|from: Num, to: Num, rest: Num|
        {
            &&& #[trigger] gives(m, count(start as u64) / count(total as u64), from)
            &&& #[trigger] gives(m, count(end as u64) / count(total as u64), to)
            &&& #[trigger] gives(m, lit(ONE) - share_formula(start, end, total), rest)
            &&& if (Num { bits: ZERO }).lt(rest) {
                are_cut_zones(
                    m,
                    start,
                    end,
                    total,
                    from,
                    to,
                    rest,
                    before.effect_zones@,
                    after.effect_zones@,
                )
            } else {
                after.effect_zones@.len() == 0
            }
        }
}

/// Whether `after` is `before` with its selection cut out: unchanged where the selection covers no
/// samples.
pub open spec fn is_selection_cut<A: Arith>(m: &A, before: &AudioClip, after: &AudioClip) -> bool {
    exists|range: Option<(usize, usize)>| #[trigger]
        is_selection_range(m, before, range) && match range {
            None => *after == *before,
            Some((start, end)) => is_cut(m, before, start as int, end as int, after),
        }
}

/// Fits one zone to a clip that `start..end` of `total` samples are cut out of.
fn cut_zone<A: Arith>(
    m: &A,
    start: usize,
    end: usize,
    total: usize,
    low: Num,
    high: Num,
    rest: Num,
    zone: Zone,
) -> (r: Option<Zone>)
    requires
        start <= end,
    ensures
        is_cut_zone(m, start as int, end as int, total as int, low, high, rest, zone, r),
{
    if zone.end.le(low) {
        Some(
            Zone {
                start: from(m, zone.start).over(from(m, rest)).v,
                end: from(m, zone.end).over(from(m, rest)).v,
                color: zone.color,
            },
        )
    } else if high.le(zone.start) {
        let removed: u64 = (end - start) as u64;
        let share = from_count(m, removed).over(from_count(m, total as u64));
        let moved_start = from(m, zone.start).minus(share).over(from(m, rest)).v;
        let share = from_count(m, removed).over(from_count(m, total as u64));
        let moved_end = from(m, zone.end).minus(share).over(from(m, rest)).v;
        Some(Zone { start: moved_start, end: moved_end, color: zone.color })
    } else {
        None
    }
}

/// Cuts the selection out of the clip.
pub fn cut_selection<A: Arith>(m: &A, clip: &mut AudioClip)
    ensures
        is_selection_cut(m, old(clip), final(clip)),
        old(clip).wf() ==> final(clip).wf(),
{
    let (start, end) = match selection_sample_range(m, clip) {
        None => {
            assert(is_selection_range(m, old(clip), None));
            return;
        },
        Some(range) => range,
    };
    assert(is_selection_range(m, old(clip), Some((start, end))));
    let total: usize = clip.buffer.len();
    let low = from_count(m, start as u64).over(from_count(m, total as u64)).v;
    let high = from_count(m, end as u64).over(from_count(m, total as u64)).v;
    splice(&mut clip.buffer, start, end, Vec::new());
    assert(clip.buffer@ =~= old(clip).buffer@.subrange(0, start as int) + old(
        clip,
    ).buffer@.subrange(end as int, total as int));
    clip.refresh_duration(m);
    clip.amplitudes = compute_amplitudes(m, &clip.buffer, AMPLITUDE_COUNT);
    clip.selection = None;
    let removed: u64 = (end - start) as u64;
    let share = from_count(m, removed).over(from_count(m, total as u64));
    let rest = from_bits(m, ONE).minus(share).v;
    let mut zones: Vec<Zone> = Vec::new();
    if (Num { bits: ZERO }).lt(rest) {
        let ghost before = clip.effect_zones@;
        let ghost mut moved: Seq<Option<Zone>> = Seq::empty();
        let mut i: usize = 0;
        while i < clip.effect_zones.len()
            invariant
                i <= clip.effect_zones@.len(),
                clip.effect_zones@ == before,
                start <= end,
                moved.len() == i,
                forall|j: int|
                    0 <= j < i ==> is_cut_zone(
                        m,
                        start as int,
                        end as int,
                        total as int,
                        low,
                        high,
                        rest,
                        before[j],
                        #[trigger] moved[j],
                    ),
                zones@ == present(moved),
            decreases clip.effect_zones@.len() - i,
        {
            let fitted = cut_zone(m, start, end, total, low, high, rest, clip.effect_zones[i]);
            proof {
                assert(moved.push(fitted).drop_last() =~= moved);
                moved = moved.push(fitted);
            }
            match fitted {
                Some(zone) => zones.push(zone),
                None => {},
            }
            i += 1;
        }
        assert(zones@ == present(moved));
    }
    clip.effect_zones = zones;
}

/// Where a zone lies once the clip ends at `ratio` of its former length: the part of it before
/// that end, if any, fitted to the shorter clip.
pub open spec fn is_trimmed_zone<A: Arith>(
    m: &A,
    ratio: Num,
    zone: Zone,
    r: Option<Zone>,
) -> bool {
    let zero = Num { bits: ZERO };
    let one = Num { bits: ONE };
    if ratio.le(zone.start) {
        r is None
    } else {
        exists|start: Num, end: Num|
            {
                &&& #[trigger] gives(m, (val(zone.start) / val(ratio)).clamped(zero, one), start)
                &&& #[trigger] gives(
                    m,
                    (val(zone.end.min(ratio)) / val(ratio)).clamped(zero, one),
                    end,
                )
                &&& r == (if start.lt(end) {
                    Some(Zone { start, end, color: zone.color })
                } else {
                    None
                })
            }
    }
}

/// Whether `after` are the zones `before` once the clip ends at `ratio` of its former length.
pub open spec fn are_trimmed_zones<A: Arith>(
    m: &A,
    ratio: Num,
    before: Seq<Zone>,
    after: Seq<Zone>,
) -> bool {
    exists|moved: Seq<Option<Zone>>|
        #![trigger present(moved)]
        {
            &&& moved.len() == before.len()
            &&& forall|i: int|
                0 <= i < before.len() ==> is_trimmed_zone(m, ratio, before[i], #[trigger] moved[i])
            &&& after == present(moved)
        }
}

/// How many samples are left of a clip of `total` samples that is cut at position `at`.
pub open spec fn kept_samples(at: int, total: int, channels: int) -> int {
    if aligned(at, channels) < total {
        aligned(at, channels)
    } else {
        total
    }
}

/// Whether `after` is `before` without what lies behind position `at`.
pub open spec fn is_trimmed<A: Arith>(
    m: &A,
    before: &AudioClip,
    at: int,
    after: &AudioClip,
) -> bool {
    let total = before.buffer@.len() as int;
    let kept = kept_samples(at, total, before.channels as int);
    &&& same_settings(before, after)
    &&& after.buffer@ == before.buffer@.subrange(0, kept)
    &&& refreshed(m, after)
    &&& exists|ratio: Num| #[trigger]
        gives(m, count(kept as u64) / count(total as u64), ratio) && are_trimmed_zones(
            m,
            ratio,
            before.effect_zones@,
            after.effect_zones@,
        )
}

/// Whether `after` is `before` without what lies behind the playhead: unchanged where the playhead
/// is not inside the clip.
pub open spec fn is_trimmed_after<A: Arith>(
    m: &A,
    before: &AudioClip,
    playhead: Num,
    after: &AudioClip,
) -> bool {
    if playhead.le(before.start_time_secs) {
        *after == *before
    } else {
        exists|end: Num| #[trigger]
            before.ends_at(m, end) && if end.le(playhead) || before.channels == 0 {
                *after == *before
            } else {
                exists|at: usize| #[trigger]
                    gives_count(
                        m,
                        position_formula(
                            val(playhead) - val(before.start_time_secs),
                            before.sample_rate,
                            before.channels,
                        ),
                        at,
                    ) && is_trimmed(m, before, at as int, after)
            }
    }
}

/// Fits one zone to a clip that now ends at `ratio` of its former length.
fn trim_zone<A: Arith>(m: &A, ratio: Num, zone: Zone) -> (r: Option<Zone>)
    ensures
        is_trimmed_zone(m, ratio, zone, r),
{
    let zero = Num { bits: ZERO };
    let one = Num { bits: ONE };
    if ratio.le(zone.start) {
        None
    } else {
        let start = from(m, zone.start).over(from(m, ratio)).clamp(zero, one).v;
        let end = from(m, zone.end.min(ratio)).over(from(m, ratio)).clamp(zero, one).v;
        if start.lt(end) {
            Some(Zone { start, end, color: zone.color })
        } else {
            None
        }
    }
}

/// Cuts off what lies behind the playhead.
pub fn trim_clip_after_playhead<A: Arith>(m: &A, clip: &mut AudioClip, playhead_secs: Num)
    ensures
        is_trimmed_after(m, old(clip), playhead_secs, final(clip)),
        old(clip).wf() ==> final(clip).wf(),
{
    if playhead_secs.le(clip.start_time_secs) {
        return;
    }
    let clip_end = clip.end_time_secs(m);
    assert(old(clip).ends_at(m, clip_end));
    let channels: usize = clip.channels as usize;
    if clip_end.le(playhead_secs) || channels == 0 {
        return;
    }
    let at: usize = from(m, playhead_secs).minus(from(m, clip.start_time_secs)).times(
        from_count(m, clip.sample_rate as u64),
    ).times(from_count(m, channels as u64)).count();
    let total: usize = clip.buffer.len();
    let mut kept: usize = align(at, channels);
    if kept > total {
        kept = total;
    }
    let ratio = from_count(m, kept as u64).over(from_count(m, total as u64)).v;
    clip.buffer.truncate(kept);
    assert(clip.buffer@ =~= old(clip).buffer@.subrange(0, kept as int));
    clip.refresh_duration(m);
    clip.amplitudes = compute_amplitudes(m, &clip.buffer, AMPLITUDE_COUNT);
    clip.selection = None;
    let ghost before = clip.effect_zones@;
    let ghost mut moved: Seq<Option<Zone>> = Seq::empty();
    let mut zones: Vec<Zone> = Vec::new();
    let mut i: usize = 0;
    while i < clip.effect_zones.len()
        invariant
            i <= clip.effect_zones@.len(),
            clip.effect_zones@ == before,
            moved.len() == i,
            forall|j: int|
                0 <= j < i ==> is_trimmed_zone(m, ratio, before[j], #[trigger] moved[j]),
            zones@ == present(moved),
        decreases clip.effect_zones@.len() - i,
    {
        let fitted = trim_zone(m, ratio, clip.effect_zones[i]);
        proof {
            assert(moved.push(fitted).drop_last() =~= moved);
            moved = moved.push(fitted);
        }
        match fitted {
            Some(zone) => zones.push(zone),
            None => {},
        }
        i += 1;
    }
    assert(zones@ == present(moved));
    clip.effect_zones = zones;
}

} // verus!
