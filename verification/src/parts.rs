//! What a selection, a cut and a trim take of a clip.
use vstd::prelude::*;

use crate::arith::{count, functional, gives, gives_count, lit, val, Arith};
use crate::clip::{
    aligned, frames_between, is_effect_range, is_selection_range, is_span_range, position_formula,
    present, AudioClip, Zone, THOUSANDTH,
};
use crate::edit::{
    are_cut_zones, are_trimmed_zones, is_cut, is_cut_zone, is_trimmed, is_trimmed_after,
    is_trimmed_zone, kept_samples, share_formula,
};
use crate::effects::{
    are_frames_at_speed, frames_samples, is_bass_boosted, is_effect_on, is_reverberated,
    is_speed_changed, spliced, Effect, HUNDREDTH,
};
use crate::exact::{
    distance, faithful, is_nearest, lemma_constants, lemma_count, lemma_exact, lemma_most,
    lemma_not_above, lemma_not_below, lemma_units_grow, lemma_whole, most_units, one_units, units,
};
use crate::laws::lemma_aligned;
use crate::meaning::{
    a_duration_is_samples_per_rate_and_channels, frame_under, has_frame, is_frame_start,
    lemma_aligned_between, lemma_frame_grows, lemma_nearest_unscaled, lemma_position,
    lemma_whole_part,
};
use crate::num::{Num, Sample, ONE, SAMPLE_ONE, ZERO};
use crate::outcomes::{
    amplification_is_determined, bass_is_determined, distortion_is_determined,
    formula_has_one_value, frames_are_determined, reverb_is_determined,
};

verus! {

/// The whole part of a rounded share of a whole number.
proof fn lemma_share_of<A: Arith>(m: &A, ratio: Num, total: u64, n: usize)
    requires
        faithful(m),
        gives_count(m, val(ratio) * count(total), n),
        total < 0x20_0000_0000_0000,
        total < usize::MAX,
        ratio.is_finite(),
        0 <= units(ratio) <= one_units(),
    ensures
        ({
            let k = units(ratio) * total / one_units();
            &&& 0 <= k <= n <= k + 1
            &&& k * one_units() <= units(ratio) * total < (k + 1) * one_units()
            &&& units(ratio) * total == k * one_units() ==> n == k
        }),
{
    let one = one_units();
    let u = units(ratio);
    let q = choose|q: Num| #[trigger]
        gives(m, val(ratio) * count(total), q) && call_ensures(A::to_count, (m, q), n);
    let (a, b) = choose|a: Num, b: Num|
        gives(m, val(ratio), a) && gives(m, count(total), b) && #[trigger] call_ensures(
            A::times,
            (m, a, b),
            q,
        );
    assert(a == ratio);
    lemma_constants();
    lemma_count(m, total, b);
    let x = u * total;
    let k = x / one;
    vstd::arithmetic::div_mod::lemma_fundamental_div_mod(x, one);
    vstd::arithmetic::div_mod::lemma_mod_bound(x, one);
    assert(0 <= x <= total * one) by (nonlinear_arith)
        requires
            x == u * total,
            0 <= u <= one,
            total >= 0,
    ;
    vstd::arithmetic::div_mod::lemma_div_pos_is_pos(x, one);
    lemma_whole_part(x, 0, total as int);
    assert(k * one <= x < (k + 1) * one) by (nonlinear_arith)
        requires
            x == one * k + x % one,
            0 <= x % one < one,
    ;
    let lo = lemma_whole(k);
    let hi = lemma_whole(k + 1);
    lemma_most(hi);
    let exact = x * one;
    assert(u * units(b) == exact) by (nonlinear_arith)
        requires
            units(b) == total * one,
            x == u * total,
            exact == x * one,
    ;
    assert(units(lo) * one <= exact <= units(hi) * one && 0 <= exact <= most_units() * one)
        by (nonlinear_arith)
        requires
            exact == x * one,
            0 <= x,
            units(lo) <= x <= units(hi) <= most_units(),
            one > 0,
    ;
    assert(is_nearest(exact, one, q));
    lemma_not_below(exact, one, q, lo);
    lemma_not_above(exact, one, q, hi);
    lemma_whole_part(units(q), k, k + 1);
    if x == k * one {
        lemma_not_above(exact, one, q, lo);
        lemma_whole_part(units(q), k, k);
    }
}

/// Whether a position is where a ratio lies among `total` samples: at the start of the frame there,
/// exactly where a frame starts, else less than a frame before it and at most one sample after it.
/// The end of all samples counts as the start of a frame.
pub open spec fn is_at_ratio(at: int, ratio: Num, total: int, channels: int) -> bool {
    &&& at % channels == 0 || at == total
    &&& 0 <= at <= total
    &&& at * one_units() <= units(ratio) * total + one_units()
    &&& units(ratio) * total < (at + channels) * one_units()
    &&& forall|k: int|
        units(ratio) * total == #[trigger] (k * channels) * one_units() ==> at == k * channels
}

/// Where the frame of a ratio starts.
proof fn lemma_at_ratio<A: Arith>(m: &A, ratio: Num, total: u64, n: usize, channels: int, at: int)
    requires
        faithful(m),
        gives_count(m, val(ratio) * count(total), n),
        total < 0x20_0000_0000_0000,
        total < usize::MAX,
        ratio.is_finite(),
        0 <= units(ratio) <= one_units(),
        channels > 0,
        at == (if aligned(n as int, channels) < total {
            aligned(n as int, channels)
        } else {
            total as int
        }),
    ensures
        is_at_ratio(at, ratio, total as int, channels),
{
    lemma_constants();
    lemma_share_of(m, ratio, total, n);
    lemma_aligned(n as int, channels);
    let one = one_units();
    let x = units(ratio) * total;
    let j = x / one;
    assert(x <= total * one) by (nonlinear_arith)
        requires
            x == units(ratio) * total,
            units(ratio) <= one,
            total >= 0,
    ;
    assert(at * one <= x + one) by (nonlinear_arith)
        requires
            at <= j + 1,
            j * one <= x,
            one > 0,
    ;
    assert(x < (at + channels) * one) by (nonlinear_arith)
        requires
            at + channels >= j + 1 || (at == total && x <= total * one && channels > 0),
            x < (j + 1) * one,
            one > 0,
    ;
    assert forall|k: int| x == #[trigger] (k * channels) * one implies at == k * channels by {
        let p = k * channels;
        assert(p == j && 0 <= p <= total) by (nonlinear_arith)
            requires
                x == p * one,
                j * one <= x < (j + 1) * one,
                0 <= x <= total * one,
                one > 0,
        ;
        assert(n == p);
        assert(k >= 0) by (nonlinear_arith)
            requires
                k * channels >= 0,
                channels > 0,
        ;
        lemma_aligned_between(n as int, k, k, channels);
    }
}

/// A selection from ratio `a` to ratio `b` covers the samples between those shares of the buffer,
/// in whole frames. It covers none only where the ratios differ by less than a thousandth, where
/// there are no samples, or where not much more than a frame lies between the ratios.
pub proof fn a_selection_covers_its_share_of_the_samples<A: Arith>(
    m: &A,
    clip: &AudioClip,
    a: Num,
    b: Num,
    r: Option<(usize, usize)>,
)
    requires
        faithful(m),
        is_selection_range(m, clip, r),
        clip.selection == Some((a, b)),
        0 <= a.order() <= b.order() <= ONE,
        clip.channels > 0,
        clip.buffer@.len() < 0x20_0000_0000_0000,
        clip.buffer@.len() < usize::MAX,
    ensures
        ({
            let total = clip.buffer@.len() as int;
            let channels = clip.channels as int;
            match r {
                Some((start, end)) => {
                    &&& start < end
                    &&& is_at_ratio(start as int, a, total, channels)
                    &&& is_at_ratio(end as int, b, total, channels)
                },
                None => {
                    ||| units(b) - units(a) < units(Num { bits: THOUSANDTH })
                    ||| total == 0
                    ||| (units(b) - units(a)) * total < (channels + 1) * one_units()
                },
            }
        }),
{
    let (zero, one) = (Num { bits: ZERO }, Num { bits: ONE });
    let thousandth = Num { bits: THOUSANDTH };
    let total = clip.buffer@.len() as int;
    let channels = clip.channels as int;
    let span = choose|span: Num| #[trigger]
        gives(m, val(b) - val(a), span) && is_span_range(m, clip, a, b, span, r);
    let (x, y) = choose|x: Num, y: Num|
        gives(m, val(b), x) && gives(m, val(a), y) && #[trigger] call_ensures(
            A::minus,
            (m, x, y),
            span,
        );
    assert(x == b && y == a);
    lemma_constants();
    lemma_units_grow(zero, a);
    lemma_units_grow(a, zero);
    lemma_units_grow(a, b);
    lemma_units_grow(b, a);
    lemma_units_grow(b, one);
    lemma_units_grow(one, b);
    lemma_most(b);
    if units(b) - units(a) >= units(thousandth) {
        lemma_not_below(units(b) - units(a), 1, span, thousandth);
        lemma_units_grow(span, thousandth);
        lemma_units_grow(thousandth, span);
        assert(!span.abs().lt(thousandth));
    }
    if span.abs().lt(thousandth) || total == 0 {
    } else {
        let (lo, hi) = (a.min(b), a.max(b));
        let (low, high) = choose|low: usize, high: usize| #[trigger]
            gives_count(m, val(lo) * count(total as u64), low) && #[trigger] gives_count(
                m,
                val(hi) * count(total as u64),
                high,
            ) && r == frames_between(low as int, high as int, total, channels);
        lemma_units_grow(a, lo);
        lemma_units_grow(b, hi);
        assert(units(lo) == units(a) && units(hi) == units(b));
        let start = if aligned(low as int, channels) < total {
            aligned(low as int, channels)
        } else {
            total
        };
        let end = if aligned(high as int, channels) < total {
            aligned(high as int, channels)
        } else {
            total
        };
        lemma_at_ratio(m, lo, total as u64, low, channels, start);
        lemma_at_ratio(m, hi, total as u64, high, channels, end);
        lemma_aligned(low as int, channels);
        match r {
            Some((s, e)) => {
                assert(is_at_ratio(s as int, a, total, channels)) by {
                    assert forall|k: int|
                        units(a) * total == #[trigger] (k * channels) * one_units() implies s == k
                        * channels by {
                        assert(units(lo) * total == (k * channels) * one_units());
                    }
                }
                assert(is_at_ratio(e as int, b, total, channels)) by {
                    assert forall|k: int|
                        units(b) * total == #[trigger] (k * channels) * one_units() implies e == k
                        * channels by {
                        assert(units(hi) * total == (k * channels) * one_units());
                    }
                }
            },
            None => {
                let u = one_units();
                assert(end <= start);
                assert((units(b) - units(a)) * total == units(b) * total - units(a) * total)
                    by (nonlinear_arith);
                assert((end + channels) * u == end * u + channels * u) by (nonlinear_arith);
                assert((channels + 1) * u == channels * u + u) by (nonlinear_arith);
                assert(end * u <= start * u) by (nonlinear_arith)
                    requires
                        end <= start,
                        u > 0,
                ;
            },
        }
    }
}

/// A trim keeps the samples up to the frame under the playhead and drops the others: the clip then
/// ends at the playhead. Where the playhead is not inside the clip, nothing changes.
pub proof fn a_trim_keeps_what_lies_before_the_playhead<A: Arith>(
    m: &A,
    before: &AudioClip,
    playhead: Num,
    after: &AudioClip,
)
    requires
        faithful(m),
        is_trimmed_after(m, before, playhead, after),
        before.channels > 0,
        before.start_time_secs.is_finite(),
        units(before.start_time_secs) >= 0,
        has_frame(playhead, before.sample_rate, before.channels),
    ensures
        playhead.le(before.start_time_secs) ==> *after == *before,
        (forall|end: Num| #[trigger] before.ends_at(m, end) ==> end.le(playhead)) ==> *after
            == *before,
        before.start_time_secs.lt(playhead) && (forall|end: Num| #[trigger]
            before.ends_at(m, end) ==> playhead.lt(end)) ==> exists|into: Num|
            {
                let kept = after.buffer@.len() as int;
                &&& #[trigger] is_nearest(units(playhead) - units(before.start_time_secs), 1, into)
                &&& is_frame_start(
                    kept,
                    into,
                    before.sample_rate,
                    before.channels,
                    before.buffer@.len() as int,
                )
                &&& kept <= before.buffer@.len()
                &&& forall|i: int| 0 <= i < kept ==> #[trigger] after.buffer@[i]
                    == before.buffer@[i]
            },
{
    let start = before.start_time_secs;
    let (rate, channels) = (before.sample_rate, before.channels);
    if start.lt(playhead) && forall|end: Num| #[trigger]
        before.ends_at(m, end) ==> playhead.lt(end) {
        let end = choose|end: Num| #[trigger]
            before.ends_at(m, end) && if end.le(playhead) || before.channels == 0 {
                *after == *before
            } else {
                exists|at: usize| #[trigger]
                    gives_count(
                        m,
                        position_formula(val(playhead) - val(start), rate, channels),
                        at,
                    ) && is_trimmed(m, before, at as int, after)
            };
        let at = choose|at: usize| #[trigger]
            gives_count(m, position_formula(val(playhead) - val(start), rate, channels), at)
                && is_trimmed(m, before, at as int, after);
        let into = lemma_position(m, val(playhead) - val(start), rate, channels, at);
        let (a, b) = choose|a: Num, b: Num|
            gives(m, val(playhead), a) && gives(m, val(start), b) && #[trigger] call_ensures(
                A::minus,
                (m, a, b),
                into,
            );
        assert(a == playhead && b == start);
        lemma_most(playhead);
        lemma_units_grow(start, playhead);
        let exact = units(playhead) - units(start);
        let zero = Num { bits: ZERO };
        lemma_units_grow(zero, zero);
        lemma_not_below(exact, 1, into, zero);
        lemma_not_above(exact, 1, into, playhead);
        lemma_frame_grows(into, playhead, rate);
        let (k, l) = (frame_under(into, rate), frame_under(playhead, rate));
        assert((k + 1) * channels <= (l + 1) * channels) by (nonlinear_arith)
            requires
                k <= l,
                channels > 0,
        ;
        lemma_aligned_between(at as int, k, k + 1, channels as int);
        assert(is_nearest(exact, 1, into));
    }
}

/// A rounded quotient of two counts.
proof fn lemma_share<A: Arith>(m: &A, n: u64, total: u64, r: Num)
    requires
        faithful(m),
        gives(m, count(n) / count(total), r),
        0 < total <= 0x20_0000_0000_0000,
        n <= total,
    ensures
        is_nearest(n * one_units(), total as int, r),
{
    let one = one_units();
    let (a, b) = choose|a: Num, b: Num|
        gives(m, count(n), a) && gives(m, count(total), b) && #[trigger] call_ensures(
            A::over,
            (m, a, b),
            r,
        );
    lemma_constants();
    lemma_count(m, n, a);
    lemma_count(m, total, b);
    let zero = Num { bits: ZERO };
    lemma_most(a);
    assert(units(b) >= one && units(a) >= 0) by (nonlinear_arith)
        requires
            units(b) == total * one,
            units(a) == n * one,
            total >= 1,
            n >= 0,
            one > 0,
    ;
    lemma_units_grow(zero, b);
    lemma_units_grow(b, zero);
    assert(0 <= units(a) * one <= most_units() * units(b)) by (nonlinear_arith)
        requires
            0 <= units(a) <= most_units(),
            units(b) >= one,
            one > 0,
    ;
    assert(is_nearest((n * one) * one, total * one, r));
    lemma_nearest_unscaled(n * one, total as int, one, r);
}

/// A quotient of two values of which the second is positive.
proof fn lemma_over<A: Arith>(m: &A, a: Num, b: Num, r: Num)
    requires
        faithful(m),
        gives(m, val(a) / val(b), r),
        a.is_finite(),
        b.is_finite(),
        units(b) > 0,
        distance(units(a) * one_units(), 0) <= most_units() * units(b),
    ensures
        is_nearest(units(a) * one_units(), units(b), r),
{
    let (x, y) = choose|x: Num, y: Num|
        gives(m, val(a), x) && gives(m, val(b), y) && #[trigger] call_ensures(
            A::over,
            (m, x, y),
            r,
        );
    assert(x == a && y == b);
    let zero = Num { bits: ZERO };
    lemma_units_grow(zero, b);
    lemma_units_grow(b, zero);
}

/// Whether a zone is a part of a clip that is not empty.
pub open spec fn is_part_of_clip(zone: Zone) -> bool {
    &&& zone.start.is_finite()
    &&& zone.end.is_finite()
    &&& 0 <= units(zone.start) < units(zone.end) <= one_units()
}

/// Whether a value is exactly `n` of `total`.
pub open spec fn is_ratio_of(ratio: Num, n: int, total: int) -> bool {
    ratio.is_finite() && units(ratio) * total == n * one_units()
}

/// Whether `moved` is where a zone lies once the samples `start..end` of `total` are gone, which
/// are the given share of all, and the share `rest` of all is left. A zone before the cut stays
/// where it is and one behind the cut comes forward by the share, both in a clip that is only
/// `rest` of what it was. A zone that the cut touches is gone.
pub open spec fn is_moved_zone(
    start: int,
    end: int,
    total: int,
    share: Num,
    rest: Num,
    zone: Zone,
    moved: Option<Zone>,
) -> bool {
    let one = one_units();
    &&& moved matches Some(z) ==> z.color == zone.color
    &&& units(zone.end) * total <= start * one ==> (moved matches Some(z) && is_nearest(
        units(zone.start) * one,
        units(rest),
        z.start,
    ) && is_nearest(units(zone.end) * one, units(rest), z.end))
    &&& units(zone.start) * total >= end * one ==> (moved matches Some(z) && (forall|p: Num|
        #![trigger units(p)]
        p.is_finite() && units(p) == units(zone.start) - units(share) ==> is_nearest(
            units(p) * one,
            units(rest),
            z.start,
        )) && (forall|p: Num|
        #![trigger units(p)]
        p.is_finite() && units(p) == units(zone.end) - units(share) ==> is_nearest(
            units(p) * one,
            units(rest),
            z.end,
        )))
    &&& units(zone.end) * total > start * one && units(zone.start) * total < end * one && (exists|
        first: Num,
    | #[trigger] is_ratio_of(first, start, total)) && (exists|last: Num| #[trigger]
        is_ratio_of(last, end, total)) ==> moved is None
}

/// A zone that a cut moves.
proof fn lemma_moved_zone<A: Arith>(
    m: &A,
    start: int,
    end: int,
    total: int,
    share: Num,
    rest: Num,
    from: Num,
    to: Num,
    left: Num,
    zone: Zone,
    moved: Option<Zone>,
)
    requires
        faithful(m),
        0 <= start < end <= total <= 0x20_0000_0000_0000,
        is_ratio_of(share, end - start, total),
        rest.is_finite(),
        units(rest) == one_units() - units(share),
        units(rest) > 0,
        is_nearest(start * one_units(), total, from),
        is_nearest(end * one_units(), total, to),
        left.is_finite(),
        units(left) == units(rest),
        is_part_of_clip(zone),
        is_cut_zone(m, start, end, total, from, to, left, zone, moved),
    ensures
        is_moved_zone(start, end, total, share, rest, zone, moved),
{
    let one = one_units();
    let (a, b) = (zone.start, zone.end);
    lemma_constants();
    lemma_units_grow(b, from);
    lemma_units_grow(from, b);
    lemma_units_grow(to, a);
    lemma_units_grow(a, to);
    // Nothing overflows: at least one sample is left.
    let r = units(rest);
    let all = lemma_whole(total);
    lemma_most(all);
    assert(r * total >= one) by {
        assert(r * total == one * total - units(share) * total) by (nonlinear_arith)
            requires
                r == one - units(share),
        ;
        let kept = total - (end - start);
        assert(r * total == kept * one) by (nonlinear_arith)
            requires
                r * total == one * total - (end - start) * one,
                kept == total - (end - start),
        ;
        assert(r * total > 0) by (nonlinear_arith)
            requires
                r > 0,
                total > 0,
        ;
        assert(kept * one >= one) by (nonlinear_arith)
            requires
                kept * one > 0,
                one > 0,
        ;
    }
    assert(one * one <= most_units() * r) by {
        assert(one * one <= (r * total) * one) by (nonlinear_arith)
            requires
                r * total >= one,
                one > 0,
        ;
        assert((r * total) * one == r * (total * one)) by (nonlinear_arith);
        assert(r * (total * one) <= most_units() * r) by (nonlinear_arith)
            requires
                total * one <= most_units(),
                r > 0,
        ;
    }
    assert(forall|u: int| -one <= u <= one ==> distance(#[trigger] (u * one), 0) <= one * one) by {
        assert forall|u: int| -one <= u <= one implies distance(#[trigger] (u * one), 0) <= one
            * one by {
            assert(-(one * one) <= u * one <= one * one) by (nonlinear_arith)
                requires
                    -one <= u <= one,
                    one > 0,
            ;
        }
    }
    if units(b) * total <= start * one {
        lemma_not_below(start * one, total, from, b);
        assert(b.le(from));
        lemma_over(m, a, left, moved->0.start);
        lemma_over(m, b, left, moved->0.end);
    }
    if units(a) * total >= end * one {
        lemma_not_above(end * one, total, to, a);
        assert(to.le(a));
        assert(start * one <= end * one && units(a) * total >= start * one) by (nonlinear_arith)
            requires
                start < end,
                units(a) * total >= end * one,
                one > 0,
        ;
        lemma_not_above(start * one, total, from, a);
        assert(!b.le(from));
        lemma_moved_edge(m, start, end, total, share, rest, left, a, moved->0.start);
        lemma_moved_edge(m, start, end, total, share, rest, left, b, moved->0.end);
    }
    if units(b) * total > start * one && units(a) * total < end * one && (exists|first: Num|
        #[trigger] is_ratio_of(first, start, total)) && (exists|last: Num| #[trigger]
        is_ratio_of(last, end, total)) {
        let first = choose|first: Num| #[trigger] is_ratio_of(first, start, total);
        let last = choose|last: Num| #[trigger] is_ratio_of(last, end, total);
        lemma_exact(start * one, total, from, first);
        lemma_exact(end * one, total, to, last);
        assert(units(from) < units(b)) by (nonlinear_arith)
            requires
                units(from) * total < units(b) * total,
                total > 0,
        ;
        assert(units(a) < units(to)) by (nonlinear_arith)
            requires
                units(a) * total < units(to) * total,
                total > 0,
        ;
    }
}

/// An edge of a zone behind a cut.
proof fn lemma_moved_edge<A: Arith>(
    m: &A,
    start: int,
    end: int,
    total: int,
    share: Num,
    rest: Num,
    left: Num,
    edge: Num,
    r: Num,
)
    requires
        faithful(m),
        0 <= start < end <= total <= 0x20_0000_0000_0000,
        is_ratio_of(share, end - start, total),
        left.is_finite(),
        units(left) == units(rest),
        units(rest) > 0,
        units(rest) == one_units() - units(share),
        edge.is_finite(),
        0 <= units(edge) <= one_units(),
        gives(m, (val(edge) - share_formula(start, end, total)) / val(left), r),
        one_units() * one_units() <= most_units() * units(rest),
        forall|u: int|
            -one_units() <= u <= one_units() ==> distance(#[trigger] (u * one_units()), 0)
                <= one_units() * one_units(),
    ensures
        forall|p: Num|
            #![trigger units(p)]
            p.is_finite() && units(p) == units(edge) - units(share) ==> is_nearest(
                units(p) * one_units(),
                units(rest),
                r,
            ),
{
    let one = one_units();
    let f = val(edge) - share_formula(start, end, total);
    let (x, y) = choose|x: Num, y: Num|
        gives(m, f, x) && gives(m, val(left), y) && #[trigger] call_ensures(A::over, (m, x, y), r);
    let (e, s) = choose|e: Num, s: Num|
        gives(m, val(edge), e) && gives(m, share_formula(start, end, total), s)
            && #[trigger] call_ensures(A::minus, (m, e, s), x);
    assert(y == left && e == edge);
    lemma_constants();
    lemma_share(m, (end - start) as u64, total as u64, s);
    lemma_exact((end - start) * one, total, s, share);
    let zero = Num { bits: ZERO };
    lemma_units_grow(zero, left);
    lemma_units_grow(left, zero);
    assert(units(share) >= 0) by (nonlinear_arith)
        requires
            units(share) * total == (end - start) * one,
            end > start,
            one > 0,
            total > 0,
    ;
    lemma_most(Num { bits: ONE });
    assert forall|p: Num|
        #![trigger units(p)]
        p.is_finite() && units(p) == units(edge) - units(share) implies is_nearest(
        units(p) * one,
        units(rest),
        r,
    ) by {
        lemma_exact(units(p), 1, x, p);
        assert(distance(units(x) * one, 0) <= one * one);
    }
}

/// A cut takes the zones along with their samples.
pub proof fn a_cut_moves_the_zones_with_their_samples<A: Arith>(
    m: &A,
    before: &AudioClip,
    start: int,
    end: int,
    after: &AudioClip,
    share: Num,
    rest: Num,
)
    requires
        faithful(m),
        is_cut(m, before, start, end, after),
        0 <= start < end <= before.buffer@.len() <= 0x20_0000_0000_0000,
        is_ratio_of(share, end - start, before.buffer@.len() as int),
        rest.is_finite(),
        units(rest) == one_units() - units(share),
        units(rest) > 0,
        forall|i: int|
            0 <= i < before.effect_zones@.len() ==> is_part_of_clip(
                #[trigger] before.effect_zones@[i],
            ),
    ensures
        exists|moved: Seq<Option<Zone>>|
            {
                &&& moved.len() == before.effect_zones@.len()
                &&& after.effect_zones@ == #[trigger] present(moved)
                &&& forall|i: int|
                    0 <= i < moved.len() ==> is_moved_zone(
                        start,
                        end,
                        before.buffer@.len() as int,
                        share,
                        rest,
                        before.effect_zones@[i],
                        #[trigger] moved[i],
                    )
            },
{
    let total = before.buffer@.len() as int;
    let one = one_units();
    let zero = Num { bits: ZERO };
    let zones = before.effect_zones@;
    lemma_constants();
    let (from, to, left) = choose|from: Num, to: Num, left: Num|
        {
            &&& #[trigger] gives(m, count(start as u64) / count(total as u64), from)
            &&& #[trigger] gives(m, count(end as u64) / count(total as u64), to)
            &&& #[trigger] gives(m, lit(ONE) - share_formula(start, end, total), left)
            &&& if zero.lt(left) {
                are_cut_zones(m, start, end, total, from, to, left, zones, after.effect_zones@)
            } else {
                after.effect_zones@.len() == 0
            }
        };
    lemma_share(m, start as u64, total as u64, from);
    lemma_share(m, end as u64, total as u64, to);
    let (o, s) = choose|o: Num, s: Num|
        gives(m, lit(ONE), o) && gives(m, share_formula(start, end, total), s)
            && #[trigger] call_ensures(A::minus, (m, o, s), left);
    lemma_share(m, (end - start) as u64, total as u64, s);
    lemma_exact((end - start) * one, total, s, share);
    lemma_most(rest);
    assert(o.bits == ONE);
    lemma_exact(units(rest), 1, left, rest);
    lemma_units_grow(zero, left);
    let moved = choose|moved: Seq<Option<Zone>>|
        #![trigger present(moved)]
        {
            &&& moved.len() == zones.len()
            &&& forall|i: int|
                0 <= i < zones.len() ==> is_cut_zone(
                    m,
                    start,
                    end,
                    total,
                    from,
                    to,
                    left,
                    zones[i],
                    #[trigger] moved[i],
                )
            &&& after.effect_zones@ == present(moved)
        };
    assert forall|i: int| 0 <= i < moved.len() implies is_moved_zone(
        start,
        end,
        total,
        share,
        rest,
        zones[i],
        #[trigger] moved[i],
    ) by {
        assert(is_part_of_clip(zones[i]));
        lemma_moved_zone(
            m,
            start,
            end,
            total,
            share,
            rest,
            from,
            to,
            left,
            zones[i],
            moved[i],
        );
    }
}

/// What the lesser of two values is worth.
pub open spec fn least_units(a: Num, b: Num) -> int {
    if units(a) < units(b) {
        units(a)
    } else {
        units(b)
    }
}

/// Whether `moved` is where a zone lies once only the given share of a clip is left: gone where it
/// starts behind what is left, else the part of it that is left, in a clip of that length, unless
/// rounding leaves nothing of it.
pub open spec fn is_shortened_zone(share: Num, zone: Zone, moved: Option<Zone>) -> bool {
    if units(share) <= units(zone.start) {
        moved is None
    } else {
        exists|start: Num, end: Num|
            {
                &&& #[trigger] is_nearest(units(zone.start) * one_units(), units(share), start)
                &&& #[trigger] is_nearest(
                    least_units(zone.end, share) * one_units(),
                    units(share),
                    end,
                )
                &&& moved == (if start.lt(end) {
                    Some(Zone { start, end, color: zone.color })
                } else {
                    None
                })
            }
    }
}

/// A trim takes along the zones of the samples that are left.
pub proof fn a_trim_keeps_the_zones_of_what_is_left<A: Arith>(
    m: &A,
    before: &AudioClip,
    at: int,
    after: &AudioClip,
    share: Num,
)
    requires
        faithful(m),
        is_trimmed(m, before, at, after),
        0 <= at,
        before.channels > 0,
        0 < after.buffer@.len(),
        before.buffer@.len() <= 0x20_0000_0000_0000,
        is_ratio_of(share, after.buffer@.len() as int, before.buffer@.len() as int),
        forall|i: int|
            0 <= i < before.effect_zones@.len() ==> is_part_of_clip(
                #[trigger] before.effect_zones@[i],
            ),
    ensures
        exists|moved: Seq<Option<Zone>>|
            {
                &&& moved.len() == before.effect_zones@.len()
                &&& after.effect_zones@ == #[trigger] present(moved)
                &&& forall|i: int|
                    0 <= i < moved.len() ==> is_shortened_zone(
                        share,
                        before.effect_zones@[i],
                        #[trigger] moved[i],
                    )
            },
{
    let total = before.buffer@.len() as int;
    let kept = kept_samples(at, total, before.channels as int);
    let zones = before.effect_zones@;
    let one = one_units();
    lemma_constants();
    lemma_aligned(at, before.channels as int);
    let ratio = choose|ratio: Num| #[trigger]
        gives(m, count(kept as u64) / count(total as u64), ratio) && are_trimmed_zones(
            m,
            ratio,
            zones,
            after.effect_zones@,
        );
    assert(after.buffer@.len() == kept);
    lemma_share(m, kept as u64, total as u64, ratio);
    lemma_exact(kept * one, total, ratio, share);
    let all = lemma_whole(total);
    lemma_most(all);
    let r = units(share);
    assert(kept * one >= one && kept * one <= one * total) by (nonlinear_arith)
        requires
            1 <= kept <= total,
            one > 0,
    ;
    assert(0 < r <= one) by (nonlinear_arith)
        requires
            0 < r * total <= one * total,
            total > 0,
    ;
    assert(one * one <= most_units() * r) by {
        assert(one * one <= (r * total) * one) by (nonlinear_arith)
            requires
                r * total >= one,
                one > 0,
        ;
        assert((r * total) * one == r * (total * one)) by (nonlinear_arith);
        assert(r * (total * one) <= most_units() * r) by (nonlinear_arith)
            requires
                total * one <= most_units(),
                r > 0,
        ;
    }
    let moved = choose|moved: Seq<Option<Zone>>|
        #![trigger present(moved)]
        {
            &&& moved.len() == zones.len()
            &&& forall|i: int|
                0 <= i < zones.len() ==> is_trimmed_zone(m, ratio, zones[i], #[trigger] moved[i])
            &&& after.effect_zones@ == present(moved)
        };
    assert forall|i: int| 0 <= i < moved.len() implies is_shortened_zone(
        share,
        zones[i],
        #[trigger] moved[i],
    ) by {
        assert(is_part_of_clip(zones[i]));
        lemma_shortened_zone(m, share, ratio, zones[i], moved[i]);
    }
}

/// A quotient of a value by one that is not less, which is not moved by taking it into 0 to 1.
proof fn lemma_clamped_share<A: Arith>(m: &A, a: Num, b: Num, r: Num)
    requires
        faithful(m),
        gives(m, (val(a) / val(b)).clamped(Num { bits: ZERO }, Num { bits: ONE }), r),
        a.is_finite(),
        b.is_finite(),
        0 <= units(a) <= units(b),
        0 < units(b) <= one_units(),
        one_units() * one_units() <= most_units() * units(b),
    ensures
        is_nearest(units(a) * one_units(), units(b), r),
{
    let (zero, unit) = (Num { bits: ZERO }, Num { bits: ONE });
    let one = one_units();
    let q = choose|q: Num| gives(m, val(a) / val(b), q) && r == #[trigger] q.clamp(zero, unit);
    lemma_constants();
    let exact = units(a) * one;
    assert(0 <= exact <= one * one && exact <= one * units(b)) by (nonlinear_arith)
        requires
            exact == units(a) * one,
            0 <= units(a) <= units(b) <= one,
            one > 0,
    ;
    lemma_over(m, a, b, q);
    assert(0 * units(b) == 0);
    lemma_not_below(exact, units(b), q, zero);
    lemma_not_above(exact, units(b), q, unit);
    lemma_units_grow(zero, q);
    lemma_units_grow(q, zero);
    lemma_units_grow(unit, q);
    lemma_units_grow(q, unit);
    assert(units(r) == units(q));
    assert forall|v: Num| v.is_finite() implies distance(units(r) * units(b), exact) <= distance(
        #[trigger] units(v) * units(b),
        exact,
    ) by {
        assert(distance(units(q) * units(b), exact) <= distance(units(v) * units(b), exact));
    }
}

/// A zone of which a part is left.
proof fn lemma_shortened_zone<A: Arith>(
    m: &A,
    share: Num,
    ratio: Num,
    zone: Zone,
    moved: Option<Zone>,
)
    requires
        faithful(m),
        share.is_finite(),
        ratio.is_finite(),
        units(ratio) == units(share),
        0 < units(share),
        is_part_of_clip(zone),
        is_trimmed_zone(m, ratio, zone, moved),
        one_units() * one_units() <= most_units() * units(share),
        units(share) <= one_units(),
    ensures
        is_shortened_zone(share, zone, moved),
{
    let (zero, unit) = (Num { bits: ZERO }, Num { bits: ONE });
    let (a, b) = (zone.start, zone.end);
    lemma_constants();
    lemma_units_grow(ratio, a);
    lemma_units_grow(a, ratio);
    lemma_units_grow(ratio, b);
    lemma_units_grow(b, ratio);
    if units(a) < units(share) {
        let (start, end) = choose|start: Num, end: Num|
            {
                &&& #[trigger] gives(m, (val(a) / val(ratio)).clamped(zero, unit), start)
                &&& #[trigger] gives(m, (val(b.min(ratio)) / val(ratio)).clamped(zero, unit), end)
                &&& moved == (if start.lt(end) {
                    Some(Zone { start, end, color: zone.color })
                } else {
                    None
                })
            };
        lemma_clamped_share(m, a, ratio, start);
        let last = b.min(ratio);
        lemma_clamped_share(m, last, ratio, end);
        assert(units(last) == least_units(b, share));
        assert(is_nearest(units(a) * one_units(), units(share), start));
        assert(is_nearest(least_units(b, share) * one_units(), units(share), end));
    }
}

/// Without a selection an effect works on all whole frames of a clip.
pub proof fn an_effect_without_a_selection_takes_every_frame<A: Arith>(
    m: &A,
    clip: &AudioClip,
    r: Option<(usize, usize)>,
)
    requires
        is_effect_range(m, clip, r),
        clip.selection is None,
        clip.channels > 0,
    ensures
        match r {
            Some((start, end)) => {
                &&& start == 0
                &&& (end as int) % (clip.channels as int) == 0
                &&& end <= clip.buffer@.len() < end + clip.channels
            },
            None => clip.buffer@.len() < clip.channels,
        },
{
    assert(clip.buffer.len() == clip.buffer@.len());
    lemma_aligned(clip.buffer@.len() as int, clip.channels as int);
}

/// Whether a clip has stayed where it was and what it was but for its samples and settings.
pub open spec fn stays(before: &AudioClip, after: &AudioClip) -> bool {
    &&& after.id == before.id
    &&& after.lane == before.lane
    &&& after.start_time_secs == before.start_time_secs
    &&& after.offset_in_audio_secs == before.offset_in_audio_secs
    &&& after.channels == before.channels
    &&& after.sample_rate == before.sample_rate
    &&& after.name == before.name
    &&& after.path == before.path
    &&& after.color == before.color
    &&& after.bass_gain == before.bass_gain
}

/// Whether one more zone is marked, from `start` to `end`.
pub open spec fn is_marked_from_to(
    before: &AudioClip,
    start: Num,
    end: Num,
    after: &AudioClip,
) -> bool {
    let n = before.effect_zones@.len() as int;
    &&& after.effect_zones@.len() == n + 1
    &&& forall|i: int| 0 <= i < n ==> #[trigger] after.effect_zones@[i] == before.effect_zones@[i]
    &&& after.effect_zones@[n].start == start
    &&& after.effect_zones@[n].end == end
}

/// An effect leaves a clip where it is. Every effect but the change of speed also keeps its length
/// and its selection, and marks one more zone: the selection, or else the whole clip.
pub proof fn an_effect_marks_what_it_works_on<A: Arith>(
    m: &A,
    before: &AudioClip,
    effect: Option<Effect>,
    start: int,
    end: int,
    after: &AudioClip,
)
    requires
        is_effect_on(m, before, effect, start, end, after),
        effect != Some(Effect::Speed),
    ensures
        stays(before, after),
        after.buffer@.len() == before.buffer@.len(),
        after.duration_secs == before.duration_secs,
        after.speed == before.speed,
        after.selection == before.selection,
        effect == Some(Effect::Volume) ==> after.volume.bits == SAMPLE_ONE,
        effect != Some(Effect::Volume) ==> after.volume == before.volume,
        effect is None ==> after.buffer@ == before.buffer@ && after.effect_zones@
            == before.effect_zones@,
        effect is Some ==> match before.selection {
            Some((a, b)) => is_marked_from_to(before, a, b, after),
            None => is_marked_from_to(before, Num { bits: ZERO }, Num { bits: ONE }, after),
        },
{
}

/// A change of speed leaves a clip where it is. A speed that differs from 1 by a hundredth at most
/// changes no sample. Any other is used up: the clip then has the speed 1, no selection, and one
/// more zone, which is the whole clip. `by` is how far the speed is from 1.
pub proof fn a_change_of_speed_is_used_up<A: Arith>(
    m: &A,
    before: &AudioClip,
    start: int,
    end: int,
    after: &AudioClip,
    by: Num,
)
    requires
        faithful(m),
        is_effect_on(m, before, Some(Effect::Speed), start, end, after),
        before.speed.is_finite(),
        by.is_finite(),
        units(by) == units(before.speed) - one_units(),
    ensures
        stays(before, after),
        distance(units(by), 0) <= units(Num { bits: HUNDREDTH }) ==> after.buffer == before.buffer
            && after.effect_zones == before.effect_zones && after.duration_secs
            == before.duration_secs && after.speed == before.speed && after.selection
            == before.selection,
        distance(units(by), 0) > units(Num { bits: HUNDREDTH }) ==> {
            &&& after.speed.bits == ONE
            &&& after.selection is None
            &&& is_marked_from_to(before, Num { bits: ZERO }, Num { bits: ONE }, after)
            &&& is_speed_changed(m, before, start, end, after)
        },
{
    let hundredth = Num { bits: HUNDREDTH };
    lemma_constants();
    let gap = choose|gap: Num| #[trigger]
        gives(m, val(before.speed) - lit(ONE), gap) && if hundredth.lt(gap.abs()) {
            is_speed_changed(m, before, start, end, after)
        } else {
            &&& after.buffer == before.buffer
            &&& after.effect_zones == before.effect_zones
            &&& after.duration_secs == before.duration_secs
            &&& after.speed == before.speed
            &&& after.selection == before.selection
        };
    let (a, b) = choose|a: Num, b: Num|
        gives(m, val(before.speed), a) && gives(m, lit(ONE), b) && #[trigger] call_ensures(
            A::minus,
            (m, a, b),
            gap,
        );
    assert(a == before.speed && b.bits == ONE);
    lemma_most(by);
    lemma_exact(units(by), 1, gap, by);
    let size = gap.abs();
    assert(units(size) == distance(units(by), 0)) by {
        lemma_units_grow(gap, Num { bits: ZERO });
        lemma_units_grow(Num { bits: ZERO }, gap);
    }
    lemma_units_grow(hundredth, size);
    lemma_units_grow(size, hundredth);
}

/// A cut takes out exactly its range. It leaves the clip where it is, keeps its volume and its
/// speed and ends its selection.
pub proof fn a_cut_takes_out_its_range_alone<A: Arith>(
    m: &A,
    before: &AudioClip,
    start: int,
    end: int,
    after: &AudioClip,
    i: int,
)
    requires
        is_cut(m, before, start, end, after),
        0 <= start <= end <= before.buffer@.len(),
        0 <= i < before.buffer@.len(),
    ensures
        stays(before, after),
        after.volume == before.volume,
        after.speed == before.speed,
        after.selection is None,
        after.buffer@.len() == before.buffer@.len() - (end - start),
        i < start ==> after.buffer@[i] == before.buffer@[i],
        i >= end ==> after.buffer@[i - (end - start)] == before.buffer@[i],
{
}

/// Whether two clips are set alike for an effect: each effect has one setting of its own, or none.
pub open spec fn are_set_alike(effect: Effect, clip: &AudioClip, other: &AudioClip) -> bool {
    match effect {
        Effect::Distortion => true,
        Effect::Reverb => true,
        Effect::Bass => clip.bass_gain == other.bass_gain,
        Effect::Volume => clip.volume == other.volume,
        Effect::Speed => clip.speed == other.speed,
    }
}

/// What an effect makes of samples depends on the samples, the range, the channels and the effect's
/// own setting, and on nothing else of the clip.
pub proof fn an_effect_depends_on_its_own_setting_alone<A: Arith>(
    m: &A,
    effect: Effect,
    start: int,
    end: int,
    before: &AudioClip,
    after: &AudioClip,
    other_before: &AudioClip,
    other_after: &AudioClip,
)
    requires
        functional(m),
        is_effect_on(m, before, Some(effect), start, end, after),
        is_effect_on(m, other_before, Some(effect), start, end, other_after),
        0 <= start <= end <= before.buffer@.len(),
        before.buffer@ == other_before.buffer@,
        before.channels == other_before.channels,
        before.channels > 0,
        are_set_alike(effect, before, other_before),
    ensures
        after.buffer@ == other_after.buffer@,
{
    let samples = before.buffer@;
    let (a, b) = (after.buffer@, other_after.buffer@);
    match effect {
        Effect::Distortion => {
            distortion_is_determined(m, samples, start, end, a, b);
        },
        Effect::Reverb => {
            let (echo, feed) = choose|echo: Seq<Sample>, feed: Seq<Sample>|
                is_reverberated(m, samples, start, end, echo, feed, a);
            let (other_echo, other_feed) = choose|echo: Seq<Sample>, feed: Seq<Sample>|
                is_reverberated(m, samples, start, end, echo, feed, b);
            reverb_is_determined(
                m,
                samples,
                start,
                end,
                echo,
                feed,
                a,
                other_echo,
                other_feed,
                b,
            );
        },
        Effect::Bass => {
            let gain = before.bass_gain;
            let lows = choose|lows: Seq<Sample>|
                is_bass_boosted(m, samples, start, end, gain, lows, a);
            let others = choose|lows: Seq<Sample>|
                is_bass_boosted(m, samples, start, end, gain, lows, b);
            bass_is_determined(m, samples, start, end, gain, lows, a, others, b);
        },
        Effect::Volume => {
            amplification_is_determined(m, samples, start, end, before.volume, a, b);
        },
        Effect::Speed => {
            let gap = val(before.speed) - lit(ONE);
            let g = choose|g: Num| #[trigger]
                gives(m, gap, g) && if (Num { bits: HUNDREDTH }).lt(g.abs()) {
                    is_speed_changed(m, before, start, end, after)
                } else {
                    after.buffer == before.buffer
                };
            let h = choose|h: Num| #[trigger]
                gives(m, gap, h) && if (Num { bits: HUNDREDTH }).lt(h.abs()) {
                    is_speed_changed(m, other_before, start, end, other_after)
                } else {
                    other_after.buffer == other_before.buffer
                };
            formula_has_one_value(m, gap, g, h);
            if (Num { bits: HUNDREDTH }).lt(g.abs()) {
                let channels = before.channels as int;
                let total = (end - start) / channels;
                let f = choose|f: Seq<usize>| #[trigger]
                    are_frames_at_speed(m, total, before.speed, f) && a == spliced(
                        samples,
                        start,
                        end,
                        frames_samples(samples, start, end, channels, f),
                    );
                let e = choose|f: Seq<usize>| #[trigger]
                    are_frames_at_speed(m, total, before.speed, f) && b == spliced(
                        samples,
                        start,
                        end,
                        frames_samples(samples, start, end, channels, f),
                    );
                frames_are_determined(m, total, before.speed, f, e);
            }
        },
    }
}

/// After a cut, a trim and a change of speed the duration is that of the samples that are there:
/// the nearest value to their number, divided by the samples that a second has.
pub proof fn what_is_shortened_lasts_as_long_as_its_samples<A: Arith>(
    m: &A,
    before: &AudioClip,
    start: int,
    end: int,
    after: &AudioClip,
)
    requires
        faithful(m),
        is_cut(m, before, start, end, after) || is_trimmed(m, before, end, after)
            || is_speed_changed(m, before, start, end, after),
        after.buffer@.len() <= 0x20_0000_0000_0000,
        before.sample_rate > 0,
        before.channels > 0,
    ensures
        is_nearest(
            after.buffer@.len() * one_units(),
            before.sample_rate * before.channels,
            after.duration_secs,
        ),
{
    a_duration_is_samples_per_rate_and_channels(
        m,
        after.buffer@.len() as int,
        before.sample_rate,
        before.channels,
        after.duration_secs,
    );
}

} // verus!
