//! The effects that can be applied to a clip.
use vstd::prelude::*;

use crate::arith::{
    count, from, from_bits, from_count, gives, gives_count, lit, sample, sample_gives, sample_lit,
    take, take_bits, val, Arith,
};
use crate::clip::{
    add_effect_zone, are_amplitudes, compute_amplitudes, duration_formula, is_effect_range,
    marked_zone, selected_or_full_range, AudioClip, Color, AMPLITUDE_COUNT,
};
use crate::num::{in_range, Num, Sample, ONE, SAMPLE_MINUS_ONE, SAMPLE_ONE, SAMPLE_ZERO};

verus! {

/// How many samples the echo of the reverb lags behind.
pub const ECHO_LENGTH: usize = 8000;

/// The bits of 0.01.
pub const HUNDREDTH: u64 = 0x3f84_7ae1_47ae_147b;

/// The bits of 0.05 among the samples: the share of a sample that goes into its low part.
pub const SAMPLE_TWENTIETH: u32 = 0x3d4c_cccd;

/// The bits of 0.95 among the samples: the share of the low part before it that goes into the low
/// part of a sample.
pub const SAMPLE_NINETEEN_TWENTIETHS: u32 = 0x3f73_3333;

/// The bits of 0.4 among the samples: the share of an echo that is echoed again.
pub const SAMPLE_TWO_FIFTHS: u32 = 0x3ecc_cccd;

/// The bits of 0.5 among the samples: the share of an echo that is heard.
pub const SAMPLE_HALF: u32 = 0x3f00_0000;

/// The bits of 0.7 among the samples: the level of a sample under reverb, and of all distortion.
pub const SAMPLE_SEVEN_TENTHS: u32 = 0x3f33_3333;

/// The bits of 5 among the samples: how much distortion overdrives a sample.
pub const SAMPLE_FIVE: u32 = 0x40a0_0000;

/// An effect.
#[derive(Clone, Copy, Debug, PartialEq, Eq, Structural)]
pub enum Effect {
    Distortion,
    Reverb,
    Bass,
    Volume,
    Speed,
}

impl Effect {
    /// The effect of that name, if there is one.
    pub open spec fn spec_named(name: Seq<char>) -> Option<Effect> {
        if name == "disto"@ {
            Some(Effect::Distortion)
        } else if name == "reverb"@ {
            Some(Effect::Reverb)
        } else if name == "bass"@ {
            Some(Effect::Bass)
        } else if name == "volume"@ {
            Some(Effect::Volume)
        } else if name == "speed"@ {
            Some(Effect::Speed)
        } else {
            None
        }
    }

    /// The color in which the effect marks what it changed.
    pub open spec fn spec_color(self) -> Color {
        match self {
            Effect::Distortion => Color { red: 100, green: 55, blue: 0 },
            Effect::Reverb => Color { red: 61, green: 15, blue: 69 },
            Effect::Bass => Color { red: 0, green: 67, blue: 75 },
            Effect::Volume => Color { red: 30, green: 69, blue: 30 },
            Effect::Speed => Color { red: 95, green: 26, blue: 21 },
        }
    }

    /// The effect of that name, if there is one.
    pub fn named(name: &str) -> (r: Option<Effect>)
        ensures
            r == Effect::spec_named(name@),
    {
        let name: String = name.to_owned();
        if name == "disto".to_owned() {
            Some(Effect::Distortion)
        } else if name == "reverb".to_owned() {
            Some(Effect::Reverb)
        } else if name == "bass".to_owned() {
            Some(Effect::Bass)
        } else if name == "volume".to_owned() {
            Some(Effect::Volume)
        } else if name == "speed".to_owned() {
            Some(Effect::Speed)
        } else {
            None
        }
    }

    /// The color in which the effect marks what it changed.
    #[verifier::when_used_as_spec(spec_color)]
    pub fn color(self) -> (r: Color)
        ensures
            r == self.spec_color(),
    {
        match self {
            Effect::Distortion => Color { red: 100, green: 55, blue: 0 },
            Effect::Reverb => Color { red: 61, green: 15, blue: 69 },
            Effect::Bass => Color { red: 0, green: 67, blue: 75 },
            Effect::Volume => Color { red: 30, green: 69, blue: 30 },
            Effect::Speed => Color { red: 95, green: 26, blue: 21 },
        }
    }
}

/// Whether two buffers are equally long and agree outside `start..end`.
pub open spec fn same_outside(
    before: Seq<Sample>,
    after: Seq<Sample>,
    start: int,
    end: int,
) -> bool {
    &&& after.len() == before.len()
    &&& forall|i: int|
        0 <= i < before.len() && !(start <= i < end) ==> #[trigger] after[i] == before[i]
}

/// Whether `after` is `before` with `start..end` distorted: each sample times 5, its hyperbolic
/// tangent, times 0.7.
pub open spec fn is_distorted<A: Arith>(
    m: &A,
    before: Seq<Sample>,
    start: int,
    end: int,
    after: Seq<Sample>,
) -> bool {
    &&& same_outside(before, after, start, end)
    &&& forall|i: int|
        start <= i < end ==> sample_gives(
            m,
            (sample(before[i]) * sample_lit(SAMPLE_FIVE)).tanh() * sample_lit(SAMPLE_SEVEN_TENTHS),
            #[trigger] after[i],
        )
}

/// Distorts the samples `start..end`.
pub fn distort<A: Arith>(m: &A, buffer: &mut Vec<Sample>, start: usize, end: usize)
    requires
        start <= end <= old(buffer)@.len(),
    ensures
        is_distorted(m, old(buffer)@, start as int, end as int, final(buffer)@),
{
    let ghost before = buffer@;
    let mut i: usize = start;
    while i < end
        invariant
            start <= i <= end <= buffer@.len(),
            same_outside(before, buffer@, start as int, i as int),
            forall|j: int|
                start <= j < i ==> sample_gives(
                    m,
                    (sample(before[j]) * sample_lit(SAMPLE_FIVE)).tanh() * sample_lit(
                        SAMPLE_SEVEN_TENTHS,
                    ),
                    #[trigger] buffer@[j],
                ),
        decreases end - i,
    {
        assert(buffer@[i as int] == before[i as int]);
        let distorted = take(m, buffer[i]).times(take_bits(m, SAMPLE_FIVE)).tanh().times(
            take_bits(m, SAMPLE_SEVEN_TENTHS),
        ).v;
        buffer.set(i, distorted);
        i += 1;
    }
}

/// Whether `after` is `before` with reverb on `start..end`. `echo` holds what is heard of the past
/// at each sample of the range, `feed` what is remembered of it: the echo is the feed of 8000
/// samples ago, the feed is the sample plus 0.4 times the echo, and the result is 0.7 times the
/// sample plus 0.5 times the echo, moved into -1 to 1.
pub open spec fn is_reverberated<A: Arith>(
    m: &A,
    before: Seq<Sample>,
    start: int,
    end: int,
    echo: Seq<Sample>,
    feed: Seq<Sample>,
    after: Seq<Sample>,
) -> bool {
    &&& same_outside(before, after, start, end)
    &&& echo.len() == end - start
    &&& feed.len() == end - start
    &&& forall|k: int|
        0 <= k < end - start ==> #[trigger] echo[k] == (if k < ECHO_LENGTH {
            Sample { bits: SAMPLE_ZERO }
        } else {
            feed[k - ECHO_LENGTH]
        })
    &&& forall|k: int|
        0 <= k < end - start ==> sample_gives(
            m,
            sample(before[start + k]) + sample(echo[k]) * sample_lit(SAMPLE_TWO_FIFTHS),
            #[trigger] feed[k],
        )
    &&& forall|i: int|
        start <= i < end ==> sample_gives(
            m,
            (sample(before[i]) * sample_lit(SAMPLE_SEVEN_TENTHS) + sample(echo[i - start])
                * sample_lit(SAMPLE_HALF)).clamped(
                Sample { bits: SAMPLE_MINUS_ONE },
                Sample { bits: SAMPLE_ONE },
            ),
            #[trigger] after[i],
        )
}

/// What the delay line holds in slot `j` after `done` samples, when slot `at` comes next.
spec fn delayed(feed: Seq<Sample>, done: int, at: int, j: int) -> Sample {
    let k = if j < at {
        done - at + j
    } else {
        done - at + j - ECHO_LENGTH
    };
    if k < 0 {
        Sample { bits: SAMPLE_ZERO }
    } else {
        feed[k]
    }
}

/// Adds reverb to the samples `start..end`.
pub fn reverberate<A: Arith>(m: &A, buffer: &mut Vec<Sample>, start: usize, end: usize)
    requires
        start <= end <= old(buffer)@.len(),
    ensures
        exists|echo: Seq<Sample>, feed: Seq<Sample>|
            is_reverberated(
                m,
                old(buffer)@,
                start as int,
                end as int,
                echo,
                feed,
                final(buffer)@,
            ),
        forall|i: int| start <= i < end ==> in_range(#[trigger] final(buffer)@[i]),
{
    let ghost before = buffer@;
    let ghost mut echo: Seq<Sample> = Seq::empty();
    let ghost mut feed: Seq<Sample> = Seq::empty();
    let mut line: Vec<Sample> = Vec::new();
    let mut filled: usize = 0;
    while filled < ECHO_LENGTH
        invariant
            filled <= ECHO_LENGTH,
            line@.len() == filled,
            forall|j: int| 0 <= j < filled ==> line@[j] == (Sample { bits: SAMPLE_ZERO }),
        decreases ECHO_LENGTH - filled,
    {
        line.push(Sample { bits: SAMPLE_ZERO });
        filled += 1;
    }
    let low = Sample { bits: SAMPLE_MINUS_ONE };
    let high = Sample { bits: SAMPLE_ONE };
    let mut at: usize = 0;
    let mut i: usize = start;
    while i < end
        invariant
            start <= i <= end <= buffer@.len(),
            at < ECHO_LENGTH,
            line@.len() == ECHO_LENGTH,
            at <= i - start,
            low == (Sample { bits: SAMPLE_MINUS_ONE }),
            high == (Sample { bits: SAMPLE_ONE }),
            forall|j: int|
                0 <= j < ECHO_LENGTH ==> #[trigger] line@[j] == delayed(
                    feed,
                    i - start,
                    at as int,
                    j,
                ),
            is_reverberated(m, before, start as int, i as int, echo, feed, buffer@),
            forall|j: int| start <= j < i ==> in_range(#[trigger] buffer@[j]),
        decreases end - i,
    {
        assert(buffer@[i as int] == before[i as int]);
        let now = buffer[i];
        let past = line[at];
        let kept = take(m, now).plus(take(m, past).times(take_bits(m, SAMPLE_TWO_FIFTHS))).v;
        let heard = take(m, now).times(take_bits(m, SAMPLE_SEVEN_TENTHS)).plus(
            take(m, past).times(take_bits(m, SAMPLE_HALF)),
        ).clamp(low, high).v;
        proof {
            echo = echo.push(past);
            feed = feed.push(kept);
        }
        line.set(at, kept);
        at = if at + 1 < ECHO_LENGTH {
            at + 1
        } else {
            0
        };
        buffer.set(i, heard);
        i += 1;
    }
}

/// Whether `lows[k]` is the low part of sample `start + k`: 0.05 times the sample plus 0.95 times
/// the low part before it, which is 0 for the first.
pub open spec fn is_low_part<A: Arith>(
    m: &A,
    before: Seq<Sample>,
    start: int,
    lows: Seq<Sample>,
    k: int,
) -> bool {
    let previous = if k == 0 {
        Sample { bits: SAMPLE_ZERO }
    } else {
        lows[k - 1]
    };
    sample_gives(
        m,
        sample_lit(SAMPLE_TWENTIETH) * sample(before[start + k]) + sample_lit(
            SAMPLE_NINETEEN_TWENTIETHS,
        ) * sample(previous),
        lows[k],
    )
}

/// Whether `after` is `before` with the bass of `start..end` amplified. `lows` holds the low part
/// of each sample of the range. The result is the low part times the gain plus the rest of the
/// sample, moved into -1 to 1.
pub open spec fn is_bass_boosted<A: Arith>(
    m: &A,
    before: Seq<Sample>,
    start: int,
    end: int,
    gain: Sample,
    lows: Seq<Sample>,
    after: Seq<Sample>,
) -> bool {
    &&& same_outside(before, after, start, end)
    &&& lows.len() == end - start
    &&& forall|k: int| 0 <= k < end - start ==> #[trigger] is_low_part(m, before, start, lows, k)
    &&& forall|i: int|
        start <= i < end ==> sample_gives(
            m,
            (sample(lows[i - start]) * sample(gain) + (sample(before[i]) - sample(
                lows[i - start],
            ))).clamped(Sample { bits: SAMPLE_MINUS_ONE }, Sample { bits: SAMPLE_ONE }),
            #[trigger] after[i],
        )
}

/// Amplifies the bass of the samples `start..end`.
pub fn boost_bass<A: Arith>(
    m: &A,
    buffer: &mut Vec<Sample>,
    start: usize,
    end: usize,
    gain: Sample,
)
    requires
        start <= end <= old(buffer)@.len(),
    ensures
        exists|lows: Seq<Sample>|
            is_bass_boosted(
                m,
                old(buffer)@,
                start as int,
                end as int,
                gain,
                lows,
                final(buffer)@,
            ),
        forall|i: int| start <= i < end ==> in_range(#[trigger] final(buffer)@[i]),
{
    let ghost before = buffer@;
    let ghost mut lows: Seq<Sample> = Seq::empty();
    let floor = Sample { bits: SAMPLE_MINUS_ONE };
    let ceiling = Sample { bits: SAMPLE_ONE };
    let mut previous = Sample { bits: SAMPLE_ZERO };
    let mut i: usize = start;
    while i < end
        invariant
            start <= i <= end <= buffer@.len(),
            floor == (Sample { bits: SAMPLE_MINUS_ONE }),
            ceiling == (Sample { bits: SAMPLE_ONE }),
            previous == (if i == start {
                Sample { bits: SAMPLE_ZERO }
            } else {
                lows[i - start - 1]
            }),
            is_bass_boosted(m, before, start as int, i as int, gain, lows, buffer@),
            forall|j: int| start <= j < i ==> in_range(#[trigger] buffer@[j]),
        decreases end - i,
    {
        assert(buffer@[i as int] == before[i as int]);
        let now = buffer[i];
        let low = take_bits(m, SAMPLE_TWENTIETH).times(take(m, now)).plus(
            take_bits(m, SAMPLE_NINETEEN_TWENTIETHS).times(take(m, previous)),
        ).v;
        previous = low;
        let high = take(m, now).minus(take(m, low));
        let boosted = take(m, low).times(take(m, gain)).plus(high).clamp(floor, ceiling).v;
        proof {
            let shorter = lows;
            lows = lows.push(low);
            assert forall|k: int| 0 <= k < i + 1 - start implies #[trigger] is_low_part(
                m,
                before,
                start as int,
                lows,
                k,
            ) by {
                if k < i - start {
                    assert(is_low_part(m, before, start as int, shorter, k));
                }
            }
        }
        buffer.set(i, boosted);
        i += 1;
    }
}

/// Whether `after` is `before` with each sample of `start..end` times the volume, moved into
/// -1 to 1.
pub open spec fn is_amplified<A: Arith>(
    m: &A,
    before: Seq<Sample>,
    start: int,
    end: int,
    volume: Sample,
    after: Seq<Sample>,
) -> bool {
    &&& same_outside(before, after, start, end)
    &&& forall|i: int|
        start <= i < end ==> sample_gives(
            m,
            (sample(before[i]) * sample(volume)).clamped(
                Sample { bits: SAMPLE_MINUS_ONE },
                Sample { bits: SAMPLE_ONE },
            ),
            #[trigger] after[i],
        )
}

/// Amplifies the samples `start..end`.
pub fn amplify<A: Arith>(
    m: &A,
    buffer: &mut Vec<Sample>,
    start: usize,
    end: usize,
    volume: Sample,
)
    requires
        start <= end <= old(buffer)@.len(),
    ensures
        is_amplified(m, old(buffer)@, start as int, end as int, volume, final(buffer)@),
        forall|i: int| start <= i < end ==> in_range(#[trigger] final(buffer)@[i]),
{
    let ghost before = buffer@;
    let low = Sample { bits: SAMPLE_MINUS_ONE };
    let high = Sample { bits: SAMPLE_ONE };
    let mut i: usize = start;
    while i < end
        invariant
            start <= i <= end <= buffer@.len(),
            low == (Sample { bits: SAMPLE_MINUS_ONE }),
            high == (Sample { bits: SAMPLE_ONE }),
            is_amplified(m, before, start as int, i as int, volume, buffer@),
            forall|j: int| start <= j < i ==> in_range(#[trigger] buffer@[j]),
        decreases end - i,
    {
        assert(buffer@[i as int] == before[i as int]);
        let amplified = take(m, buffer[i]).times(take(m, volume)).clamp(low, high).v;
        buffer.set(i, amplified);
        i += 1;
    }
}

/// The samples of one frame of the range `start..end`, silent where the frame lies past the range.
pub open spec fn frame_samples(
    before: Seq<Sample>,
    start: int,
    end: int,
    channels: int,
    frame: int,
) -> Seq<Sample> {
    Seq::new(
        channels as nat,
        |c: int|
            if start + frame * channels + c < end {
                before[start + frame * channels + c]
            } else {
                Sample { bits: SAMPLE_ZERO }
            },
    )
}

/// The samples of the given frames of the range `start..end`, one frame after the other.
pub open spec fn frames_samples(
    before: Seq<Sample>,
    start: int,
    end: int,
    channels: int,
    frames: Seq<usize>,
) -> Seq<Sample>
    decreases frames.len(),
{
    if frames.len() == 0 {
        Seq::empty()
    } else {
        frames_samples(before, start, end, channels, frames.drop_last()) + frame_samples(
            before,
            start,
            end,
            channels,
            frames.last() as int,
        )
    }
}

/// Whether `frames` are the frames that play a range of `total` frames at the given speed: as many
/// as the range has, divided by the speed, where frame `i` is frame `i` times the speed of the
/// range.
pub open spec fn are_frames_at_speed<A: Arith>(
    m: &A,
    total: int,
    speed: Num,
    frames: Seq<usize>,
) -> bool {
    &&& frames.len() <= usize::MAX
    &&& gives_count(m, count(total as u64) / val(speed), frames.len() as usize)
    &&& forall|i: int|
        0 <= i < frames.len() ==> gives_count(
            m,
            count(i as u64) * val(speed),
            #[trigger] frames[i],
        )
}

/// The samples that play the range `start..end` at the given speed.
pub fn resample<A: Arith>(
    m: &A,
    buffer: &Vec<Sample>,
    start: usize,
    end: usize,
    channels: usize,
    speed: Num,
) -> (window: Vec<Sample>)
    requires
        start <= end <= buffer@.len(),
        channels > 0,
    ensures
        exists|frames: Seq<usize>| #[trigger]
            are_frames_at_speed(m, (end - start) / channels as int, speed, frames) && window@
                == frames_samples(
                buffer@,
                start as int,
                end as int,
                channels as int,
                frames,
            ),
{
    let old_frames: usize = (end - start) / channels;
    let new_frames: usize = from_count(m, old_frames as u64).over(from(m, speed)).count();
    let ghost mut frames: Seq<usize> = Seq::empty();
    let mut window: Vec<Sample> = Vec::new();
    let mut i: usize = 0;
    while i < new_frames
        invariant
            i <= new_frames,
            start <= end <= buffer@.len(),
            channels > 0,
            old_frames == (end - start) / channels as int,
            frames.len() == i,
            forall|j: int|
                0 <= j < frames.len() ==> gives_count(
                    m,
                    count(j as u64) * val(speed),
                    #[trigger] frames[j],
                ),
            window@ == frames_samples(
                buffer@,
                start as int,
                end as int,
                channels as int,
                frames,
            ),
        decreases new_frames - i,
    {
        let frame: usize = from_count(m, i as u64).times(from(m, speed)).count();
        let ghost played = window@;
        let inside: bool = frame <= old_frames;
        proof {
            lemma_frame_bound(
                start as int,
                end as int,
                channels as int,
                old_frames as int,
                frame as int,
            );
        }
        let first: usize = if inside {
            start + frame * channels
        } else {
            end
        };
        let mut c: usize = 0;
        while c < channels
            invariant
                c <= channels,
                start <= end <= buffer@.len(),
                start <= first <= end,
                first == (if start + frame * channels < end {
                    start + frame * channels
                } else {
                    end as int
                }),
                window@ == played + frame_samples(
                    buffer@,
                    start as int,
                    end as int,
                    channels as int,
                    frame as int,
                ).take(c as int),
            decreases channels - c,
        {
            let ghost whole = frame_samples(
                buffer@,
                start as int,
                end as int,
                channels as int,
                frame as int,
            );
            assert(whole.take(c + 1) =~= whole.take(c as int).push(whole[c as int]));
            if c < end - first {
                window.push(buffer[first + c]);
            } else {
                window.push(Sample { bits: SAMPLE_ZERO });
            }
            assert(window@ =~= played + whole.take(c + 1));
            c += 1;
        }
        proof {
            let whole = frame_samples(
                buffer@,
                start as int,
                end as int,
                channels as int,
                frame as int,
            );
            assert(whole.take(channels as int) =~= whole);
            assert(frames.push(frame).drop_last() =~= frames);
            frames = frames.push(frame);
        }
        i += 1;
    }
    assert(are_frames_at_speed(m, (end - start) / channels as int, speed, frames));
    window
}

proof fn lemma_frame_bound(start: int, end: int, channels: int, total: int, frame: int)
    requires
        0 <= start <= end,
        channels > 0,
        total == (end - start) / channels,
        0 <= frame,
    ensures
        0 <= frame * channels,
        frame <= total ==> start + frame * channels <= end,
        frame > total ==> start + frame * channels >= end,
{
    vstd::arithmetic::div_mod::lemma_fundamental_div_mod(end - start, channels);
    let rest = (end - start) % channels;
    assert(0 <= frame * channels && (frame <= total ==> frame * channels <= channels * total) && (
    frame > total ==> frame * channels >= channels * total + channels)) by (nonlinear_arith)
        requires
            channels > 0,
            0 <= frame,
    ;
}

/// A buffer with `start..end` replaced by other samples.
pub open spec fn spliced(
    before: Seq<Sample>,
    start: int,
    end: int,
    window: Seq<Sample>,
) -> Seq<Sample> {
    before.subrange(0, start) + window + before.subrange(end, before.len() as int)
}

/// Replaces the samples `start..end` by others.
pub fn splice(buffer: &mut Vec<Sample>, start: usize, end: usize, window: Vec<Sample>)
    requires
        start <= end <= old(buffer)@.len(),
    ensures
        final(buffer)@ == spliced(old(buffer)@, start as int, end as int, window@),
{
    let ghost samples = window@;
    let mut window = window;
    let mut tail = buffer.split_off(end);
    buffer.truncate(start);
    buffer.append(&mut window);
    buffer.append(&mut tail);
    assert(buffer@ =~= spliced(old(buffer)@, start as int, end as int, samples));
}

/// What no effect changes of a clip.
pub open spec fn same_fixture(before: &AudioClip, after: &AudioClip) -> bool {
    &&& after.id == before.id
    &&& after.lane == before.lane
    &&& after.name == before.name
    &&& after.path == before.path
    &&& after.channels == before.channels
    &&& after.sample_rate == before.sample_rate
    &&& after.start_time_secs == before.start_time_secs
    &&& after.offset_in_audio_secs == before.offset_in_audio_secs
    &&& after.bass_gain == before.bass_gain
    &&& after.color == before.color
}

/// What only the change of speed changes of a clip besides its samples.
pub open spec fn same_timing(before: &AudioClip, after: &AudioClip) -> bool {
    &&& after.duration_secs == before.duration_secs
    &&& after.speed == before.speed
    &&& after.selection == before.selection
}

/// Whether an effect has marked its zone.
pub open spec fn marked(
    before: &AudioClip,
    effect: Effect,
    selection: Option<(Num, Num)>,
    after: &AudioClip,
) -> bool {
    after.effect_zones@ == before.effect_zones@.push(marked_zone(selection, effect.color()))
}

/// Whether `after` is `before` with the range `start..end` played at the clip's speed.
pub open spec fn is_speed_changed<A: Arith>(
    m: &A,
    before: &AudioClip,
    start: int,
    end: int,
    after: &AudioClip,
) -> bool {
    &&& exists|frames: Seq<usize>| #[trigger]
        are_frames_at_speed(m, (end - start) / before.channels as int, before.speed, frames)
            && after.buffer@ == spliced(
            before.buffer@,
            start,
            end,
            frames_samples(before.buffer@, start, end, before.channels as int, frames),
        )
    &&& gives(
        m,
        duration_formula(after.buffer@.len() as int, before.sample_rate, before.channels),
        after.duration_secs,
    )
    &&& after.speed == (Num { bits: ONE })
    &&& after.selection is None
    &&& marked(before, Effect::Speed, None, after)
}

/// Whether `after` is `before` with the effect applied to the range `start..end`.
pub open spec fn is_effect_on<A: Arith>(
    m: &A,
    before: &AudioClip,
    effect: Option<Effect>,
    start: int,
    end: int,
    after: &AudioClip,
) -> bool {
    &&& same_fixture(before, after)
    &&& are_amplitudes(m, after.buffer@, AMPLITUDE_COUNT as nat, after.amplitudes@)
    &&& after.volume == (if effect == Some(Effect::Volume) {
        Sample { bits: SAMPLE_ONE }
    } else {
        before.volume
    })
    &&& match effect {
        None => {
            &&& after.buffer == before.buffer
            &&& after.effect_zones == before.effect_zones
            &&& same_timing(before, after)
        },
        Some(Effect::Distortion) => {
            &&& is_distorted(m, before.buffer@, start, end, after.buffer@)
            &&& marked(before, Effect::Distortion, before.selection, after)
            &&& same_timing(before, after)
        },
        Some(Effect::Reverb) => {
            &&& exists|echo: Seq<Sample>, feed: Seq<Sample>|
                is_reverberated(m, before.buffer@, start, end, echo, feed, after.buffer@)
            &&& marked(before, Effect::Reverb, before.selection, after)
            &&& same_timing(before, after)
        },
        Some(Effect::Bass) => {
            &&& exists|lows: Seq<Sample>|
                is_bass_boosted(
                    m,
                    before.buffer@,
                    start,
                    end,
                    before.bass_gain,
                    lows,
                    after.buffer@,
                )
            &&& marked(before, Effect::Bass, before.selection, after)
            &&& same_timing(before, after)
        },
        Some(Effect::Volume) => {
            &&& is_amplified(m, before.buffer@, start, end, before.volume, after.buffer@)
            &&& marked(before, Effect::Volume, before.selection, after)
            &&& same_timing(before, after)
        },
        Some(Effect::Speed) => exists|gap: Num| #[trigger]
            gives(m, val(before.speed) - lit(ONE), gap) && if (Num { bits: HUNDREDTH }).lt(
                gap.abs(),
            ) {
                is_speed_changed(m, before, start, end, after)
            } else {
                &&& after.buffer == before.buffer
                &&& after.effect_zones == before.effect_zones
                &&& same_timing(before, after)
            },
    }
}

/// Whether `after` is `before` with the effect applied: unchanged where there is no whole frame to
/// work on. A name that is no effect's only has the waveform computed anew.
pub open spec fn is_effect_outcome<A: Arith>(
    m: &A,
    before: &AudioClip,
    effect: Option<Effect>,
    after: &AudioClip,
) -> bool {
    exists|range: Option<(usize, usize)>| #[trigger]
        is_effect_range(m, before, range) && match range {
            None => *after == *before,
            Some((start, end)) => is_effect_on(
                m,
                before,
                effect,
                start as int,
                end as int,
                after,
            ),
        }
}

/// Applies the effect of that name to the clip's selection, or else to the whole clip.
pub fn apply_effect_to_clip<A: Arith>(m: &A, clip: &mut AudioClip, effect: &str)
    requires
        old(clip).channels != 0,
    ensures
        is_effect_outcome(m, old(clip), Effect::spec_named(effect@), final(clip)),
        old(clip).wf() ==> final(clip).wf(),
{
    let (start, end) = match selected_or_full_range(m, clip) {
        None => {
            assert(is_effect_range(m, old(clip), None));
            return;
        },
        Some(range) => range,
    };
    assert(is_effect_range(m, old(clip), Some((start, end))));
    match Effect::named(effect) {
        None => {},
        Some(Effect::Distortion) => {
            distort(m, &mut clip.buffer, start, end);
            add_effect_zone(clip, Effect::Distortion.color());
        },
        Some(Effect::Reverb) => {
            reverberate(m, &mut clip.buffer, start, end);
            add_effect_zone(clip, Effect::Reverb.color());
        },
        Some(Effect::Bass) => {
            let gain = clip.bass_gain;
            boost_bass(m, &mut clip.buffer, start, end, gain);
            add_effect_zone(clip, Effect::Bass.color());
        },
        Some(Effect::Volume) => {
            let volume = clip.volume;
            amplify(m, &mut clip.buffer, start, end, volume);
            clip.volume = Sample { bits: SAMPLE_ONE };
            add_effect_zone(clip, Effect::Volume.color());
        },
        Some(Effect::Speed) => {
            let speed = clip.speed;
            let gap = from(m, speed).minus(from_bits(m, ONE)).v;
            if (Num { bits: HUNDREDTH }).lt(gap.abs()) {
                let window = resample(
                    m,
                    &clip.buffer,
                    start,
                    end,
                    clip.channels as usize,
                    speed,
                );
                splice(&mut clip.buffer, start, end, window);
                clip.speed = Num { bits: ONE };
                clip.refresh_duration(m);
                clip.selection = None;
                add_effect_zone(clip, Effect::Speed.color());
            }
        },
    }
    clip.amplitudes = compute_amplitudes(m, &clip.buffer, AMPLITUDE_COUNT);
}

} // verus!
