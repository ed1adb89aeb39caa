//! A clip of audio on the timeline: its samples, where it lies, and what is drawn of it.
use vstd::prelude::*;

use crate::arith::{
    count, from, from_count, gives, gives_count, sample, sample_gives, take, val, Arith, Formula,
};
use crate::num::{in_unit, Num, Sample, ONE, SAMPLE_ZERO, ZERO};

verus! {

/// How many amplitudes stand for a clip's waveform.
pub const AMPLITUDE_COUNT: usize = 900;

/// The bits of 0.001.
pub const THOUSANDTH: u64 = 0x3f50_624d_d2f1_a9fc;

/// The bits of 0.001 among the samples.
pub const SAMPLE_THOUSANDTH: u32 = 0x3a83_126f;

/// A color, each component in hundredths.
#[derive(Clone, Copy, Debug, PartialEq, Eq, Structural)]
pub struct Color {
    pub red: u8,
    pub green: u8,
    pub blue: u8,
}

/// A part of a clip, by ratios of its length, that an effect has marked.
#[derive(Clone, Copy, Debug, PartialEq, Eq, Structural)]
pub struct Zone {
    pub start: Num,
    pub end: Num,
    pub color: Color,
}

/// A clip of audio.
#[derive(Clone, Debug)]
pub struct AudioClip {
    pub id: u32,
    pub lane: usize,
    pub name: String,
    /// The path of the audio's file, as bytes.
    pub path: Vec<u8>,
    /// The samples, the channels interleaved.
    pub buffer: Vec<Sample>,
    pub amplitudes: Vec<Sample>,
    pub channels: u16,
    pub sample_rate: u32,
    pub start_time_secs: Num,
    pub offset_in_audio_secs: Num,
    pub duration_secs: Num,
    pub volume: Sample,
    pub speed: Num,
    pub bass_gain: Sample,
    /// The selected part, by ratios of the clip's length.
    pub selection: Option<(Num, Num)>,
    pub color: Color,
    pub effect_zones: Vec<Zone>,
}

/// The values that are there, in their order.
pub open spec fn present<T>(values: Seq<Option<T>>) -> Seq<T>
    decreases values.len(),
{
    if values.len() == 0 {
        Seq::empty()
    } else {
        match values.last() {
            Some(value) => present(values.drop_last()).push(value),
            None => present(values.drop_last()),
        }
    }
}

/// The duration in seconds of that many interleaved samples.
pub open spec fn duration_formula(samples: int, sample_rate: u32, channels: u16) -> Formula {
    count(samples as u64) / (count(sample_rate as u64) * count(channels as u64))
}

/// The position among interleaved samples that lies so many seconds from the start.
pub open spec fn position_formula(secs: Formula, sample_rate: u32, channels: u16) -> Formula {
    secs * count(sample_rate as u64) * count(channels as u64)
}

/// The greatest multiple of `channels` that is at most `n`: the start of the frame that holds
/// position `n`.
pub open spec fn aligned(n: int, channels: int) -> int {
    (n / channels) * channels
}

/// The frames between two positions of a buffer of `total` samples, or nothing where there is no
/// whole frame between them.
pub open spec fn frames_between(low: int, high: int, total: int, channels: int) -> Option<
    (usize, usize),
> {
    let start = aligned(low, channels);
    let end = if aligned(high, channels) < total {
        aligned(high, channels)
    } else {
        total
    };
    if start < end {
        Some((start as usize, end as usize))
    } else {
        None
    }
}

impl AudioClip {
    /// What every clip of a timeline satisfies.
    pub open spec fn wf(&self) -> bool {
        &&& self.channels != 0
        &&& self.sample_rate != 0
        &&& self.amplitudes@.len() == AMPLITUDE_COUNT
        &&& self.selection matches Some((a, b)) ==> in_unit(a) && in_unit(b) && !b.lt(a)
    }

    /// Whether `end` is where the clip ends, in seconds.
    pub open spec fn ends_at<A: Arith>(&self, m: &A, end: Num) -> bool {
        gives(m, val(self.start_time_secs) + val(self.duration_secs), end)
    }

    /// Where the clip ends, in seconds.
    pub fn end_time_secs<A: Arith>(&self, m: &A) -> (end: Num)
        ensures
            self.ends_at(m, end),
    {
        from(m, self.start_time_secs).plus(from(m, self.duration_secs)).v
    }

    /// Sets the duration to that of the samples.
    pub fn refresh_duration<A: Arith>(&mut self, m: &A)
        ensures
            gives(
                m,
                duration_formula(
                    old(self).buffer@.len() as int,
                    old(self).sample_rate,
                    old(self).channels,
                ),
                final(self).duration_secs,
            ),
            *final(self) == (AudioClip {
                duration_secs: final(self).duration_secs,
                ..*old(self)
            }),
    {
        self.duration_secs = duration_of(m, self.buffer.len(), self.sample_rate, self.channels);
    }
}

/// The duration in seconds of that many interleaved samples.
pub fn duration_of<A: Arith>(m: &A, samples: usize, sample_rate: u32, channels: u16) -> (r: Num)
    ensures
        gives(m, duration_formula(samples as int, sample_rate, channels), r),
{
    let per_second = from_count(m, sample_rate as u64).times(from_count(m, channels as u64));
    from_count(m, samples as u64).over(per_second).v
}

/// The position among interleaved samples that lies so many seconds from the start.
pub fn position_at<A: Arith>(m: &A, secs: Num, sample_rate: u32, channels: u16) -> (r: usize)
    ensures
        gives_count(m, position_formula(val(secs), sample_rate, channels), r),
{
    from(m, secs).times(from_count(m, sample_rate as u64)).times(
        from_count(m, channels as u64),
    ).count()
}

/// The start of the frame that holds position `n`.
pub fn align(n: usize, channels: usize) -> (r: usize)
    requires
        channels > 0,
    ensures
        r == aligned(n as int, channels as int),
        r <= n,
        r as int % channels as int == 0,
{
    proof {
        vstd::arithmetic::div_mod::lemma_fundamental_div_mod(n as int, channels as int);
        vstd::arithmetic::mul::lemma_mul_is_commutative(
            n as int / channels as int,
            channels as int,
        );
        vstd::arithmetic::div_mod::lemma_mod_multiples_basic(
            n as int / channels as int,
            channels as int,
        );
    }
    (n / channels) * channels
}

/// Whether `r` is the range of samples that the clip's selection covers: nothing without a
/// selection, with one that spans less than a thousandth of the clip, or where no whole frame is
/// covered.
pub open spec fn is_selection_range<A: Arith>(
    m: &A,
    clip: &AudioClip,
    r: Option<(usize, usize)>,
) -> bool {
    match clip.selection {
        None => r is None,
        Some((a, b)) => exists|span: Num| #[trigger]
            gives(m, val(b) - val(a), span) && is_span_range(m, clip, a, b, span, r),
    }
}

/// As `is_selection_range`, for a selection `a` to `b` whose ratios differ by `span`.
pub open spec fn is_span_range<A: Arith>(
    m: &A,
    clip: &AudioClip,
    a: Num,
    b: Num,
    span: Num,
    r: Option<(usize, usize)>,
) -> bool {
    let total = clip.buffer@.len();
    if span.abs().lt(Num { bits: THOUSANDTH }) || total == 0 || clip.channels == 0 {
        r is None
    } else {
        exists|low: usize, high: usize| #[trigger]
            gives_count(m, val(a.min(b)) * count(total as u64), low) && #[trigger] gives_count(
                m,
                val(a.max(b)) * count(total as u64),
                high,
            ) && r == frames_between(low as int, high as int, total as int, clip.channels as int)
    }
}

/// The range of samples that the clip's selection covers, in whole frames.
pub fn selection_sample_range<A: Arith>(m: &A, clip: &AudioClip) -> (r: Option<(usize, usize)>)
    ensures
        is_selection_range(m, clip, r),
        r matches Some((start, end)) ==> start < end <= clip.buffer@.len(),
{
    let (a, b) = match clip.selection {
        None => {
            return None;
        },
        Some(pair) => pair,
    };
    let span = from(m, b).minus(from(m, a)).v;
    if span.abs().lt(Num { bits: THOUSANDTH }) {
        return None;
    }
    let total: usize = clip.buffer.len();
    let channels: usize = clip.channels as usize;
    if total == 0 || channels == 0 {
        return None;
    }
    let low: usize = from(m, a.min(b)).times(from_count(m, total as u64)).count();
    let high: usize = from(m, a.max(b)).times(from_count(m, total as u64)).count();
    let start: usize = align(low, channels);
    let mut end: usize = align(high, channels);
    if end > total {
        end = total;
    }
    if start >= end {
        return None;
    }
    Some((start, end))
}

/// Whether `r` is the range of samples that an effect works on: the selection, or else all the
/// whole frames of the clip.
pub open spec fn is_effect_range<A: Arith>(
    m: &A,
    clip: &AudioClip,
    r: Option<(usize, usize)>,
) -> bool {
    let end = aligned(clip.buffer@.len() as int, clip.channels as int);
    ||| r is Some && is_selection_range(m, clip, r)
    ||| is_selection_range(m, clip, None) && r == (if end > 0 {
        Some((0usize, end as usize))
    } else {
        None
    })
}

/// The range of samples that an effect works on: the selection, or else the whole clip.
pub fn selected_or_full_range<A: Arith>(m: &A, clip: &AudioClip) -> (r: Option<(usize, usize)>)
    requires
        clip.channels != 0,
    ensures
        is_effect_range(m, clip, r),
        r matches Some((start, end)) ==> start < end <= clip.buffer@.len(),
{
    let selected = selection_sample_range(m, clip);
    if selected.is_some() {
        return selected;
    }
    let end: usize = align(clip.buffer.len(), clip.channels as usize);
    if end > 0 {
        Some((0, end))
    } else {
        None
    }
}

/// The zone that an effect marks: the selection, or else the whole clip.
pub open spec fn marked_zone(selection: Option<(Num, Num)>, color: Color) -> Zone {
    match selection {
        Some((start, end)) => Zone { start, end, color },
        None => Zone { start: Num { bits: ZERO }, end: Num { bits: ONE }, color },
    }
}

/// Marks the selection, or else the whole clip, in the given color.
pub fn add_effect_zone(clip: &mut AudioClip, color: Color)
    ensures
        final(clip).effect_zones@ == old(clip).effect_zones@.push(
            marked_zone(old(clip).selection, color),
        ),
        *final(clip) == (AudioClip { effect_zones: final(clip).effect_zones, ..*old(clip) }),
{
    let zone = match clip.selection {
        Some((start, end)) => Zone { start, end, color },
        None => Zone { start: Num { bits: ZERO }, end: Num { bits: ONE }, color },
    };
    clip.effect_zones.push(zone);
}

/// The greatest magnitude among samples, at least 0.
pub open spec fn peak(samples: Seq<Sample>) -> Sample
    decreases samples.len(),
{
    if samples.len() == 0 {
        Sample { bits: SAMPLE_ZERO }
    } else {
        peak(samples.drop_last()).max(samples.last().abs())
    }
}

/// Where chunk `i` starts among `total` samples cut into chunks of `size`.
pub open spec fn chunk_start(total: int, size: int, i: int) -> int {
    if i * size < total {
        i * size
    } else {
        total
    }
}

/// Chunk `i` of samples cut into chunks of `size`; empty past the end.
pub open spec fn chunk(samples: Seq<Sample>, size: int, i: int) -> Seq<Sample> {
    samples.subrange(
        chunk_start(samples.len() as int, size, i),
        chunk_start(samples.len() as int, size, i + 1),
    )
}

/// The greatest peak of the first `n` chunks, at least 0.001.
pub open spec fn loudest(samples: Seq<Sample>, size: int, n: nat) -> Sample
    decreases n,
{
    if n == 0 {
        Sample { bits: SAMPLE_THOUSANDTH }
    } else {
        loudest(samples, size, (n - 1) as nat).max(peak(chunk(samples, size, n - 1)))
    }
}

/// How many samples go into one amplitude.
pub open spec fn chunk_size(total: int, n: int) -> int {
    if total / n > 1 {
        total / n
    } else {
        1
    }
}

/// Whether `amps` are the `n` amplitudes of the samples: silence for no samples, else the peaks of
/// equal chunks, each divided by the loudest of them.
pub open spec fn are_amplitudes<A: Arith>(
    m: &A,
    samples: Seq<Sample>,
    n: nat,
    amps: Seq<Sample>,
) -> bool {
    let size = chunk_size(samples.len() as int, n as int);
    &&& amps.len() == n
    &&& forall|i: int|
        0 <= i < n ==> if samples.len() == 0 {
            #[trigger] amps[i] == (Sample { bits: SAMPLE_ZERO })
        } else {
            sample_gives(
                m,
                sample(peak(chunk(samples, size, i))) / sample(loudest(samples, size, n)),
                amps[i],
            )
        }
}

proof fn lemma_chunk_step(total: int, size: int, i: int)
    requires
        0 <= i,
        0 < size,
        0 <= total,
    ensures
        0 <= chunk_start(total, size, i) <= chunk_start(total, size, i + 1) <= total,
        chunk_start(total, size, i + 1) == (if size <= total - chunk_start(total, size, i) {
            chunk_start(total, size, i) + size
        } else {
            total
        }),
{
    assert(i * size >= 0 && (i + 1) * size == i * size + size) by (nonlinear_arith)
        requires
            0 <= i,
            0 < size,
    ;
}

/// The greatest magnitude among the samples from `start` up to `end`.
fn peak_between(samples: &Vec<Sample>, start: usize, end: usize) -> (r: Sample)
    requires
        start <= end <= samples@.len(),
    ensures
        r == peak(samples@.subrange(start as int, end as int)),
{
    let mut greatest = Sample { bits: SAMPLE_ZERO };
    let mut i: usize = start;
    assert(samples@.subrange(start as int, start as int) =~= Seq::<Sample>::empty());
    while i < end
        invariant
            start <= i <= end <= samples@.len(),
            greatest == peak(samples@.subrange(start as int, i as int)),
        decreases end - i,
    {
        proof {
            let longer = samples@.subrange(start as int, i + 1);
            assert(longer.drop_last() =~= samples@.subrange(start as int, i as int));
        }
        greatest = greatest.max(samples[i].abs());
        i += 1;
    }
    greatest
}

/// The waveform of samples as `n` amplitudes: peaks, relative to the greatest of them.
pub fn compute_amplitudes<A: Arith>(m: &A, samples: &Vec<Sample>, n: usize) -> (r: Vec<Sample>)
    requires
        n > 0 || samples@.len() == 0,
    ensures
        are_amplitudes(m, samples@, n as nat, r@),
{
    let mut amps: Vec<Sample> = Vec::new();
    let total: usize = samples.len();
    if total == 0 {
        let mut i: usize = 0;
        while i < n
            invariant
                i <= n,
                amps@.len() == i,
                forall|j: int| 0 <= j < i ==> amps@[j] == (Sample { bits: SAMPLE_ZERO }),
            decreases n - i,
        {
            amps.push(Sample { bits: SAMPLE_ZERO });
            i += 1;
        }
        return amps;
    }
    let size: usize = if total / n > 1 {
        total / n
    } else {
        1
    };
    let mut peaks: Vec<Sample> = Vec::new();
    let mut greatest = Sample { bits: SAMPLE_THOUSANDTH };
    let mut at: usize = 0;
    let mut i: usize = 0;
    while i < n
        invariant
            i <= n,
            size > 0,
            total == samples@.len(),
            at == chunk_start(total as int, size as int, i as int),
            peaks@.len() == i,
            forall|j: int| 0 <= j < i ==> peaks@[j] == peak(chunk(samples@, size as int, j)),
            greatest == loudest(samples@, size as int, i as nat),
        decreases n - i,
    {
        proof {
            lemma_chunk_step(total as int, size as int, i as int);
        }
        let next: usize = if size <= total - at {
            at + size
        } else {
            total
        };
        let local = peak_between(samples, at, next);
        peaks.push(local);
        greatest = greatest.max(local);
        at = next;
        i += 1;
    }
    let mut k: usize = 0;
    while k < n
        invariant
            k <= n,
            peaks@.len() == n,
            forall|j: int| 0 <= j < n ==> peaks@[j] == peak(chunk(samples@, size as int, j)),
            greatest == loudest(samples@, size as int, n as nat),
            amps@.len() == k,
            forall|j: int|
                0 <= j < k ==> sample_gives(
                    m,
                    sample(peak(chunk(samples@, size as int, j))) / sample(
                        loudest(samples@, size as int, n as nat),
                    ),
                    #[trigger] amps@[j],
                ),
        decreases n - k,
    {
        amps.push(take(m, peaks[k]).over(take(m, greatest)).v);
        k += 1;
    }
    amps
}

} // verus!
