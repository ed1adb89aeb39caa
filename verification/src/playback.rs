//! What is heard of the timeline: the sources to play, and the mix to export.
use vstd::prelude::*;

use crate::arith::{
    count, from, from_count, gives, gives_count, gives_pcm, sample, sample_gives, sample_lit, take,
    take_bits, val, Arith, Formula,
};
use crate::clip::{align, aligned, position_at, position_formula, present, AudioClip};
use crate::num::{Num, Sample, SAMPLE_MINUS_ONE, SAMPLE_ONE, SAMPLE_ZERO, ZERO};
use crate::timeline::{are_ends, TimelineState};

verus! {

/// The bits of 32767 among the samples: what a sample of 1 is exported as.
pub const SAMPLE_PCM_MAX: u32 = 0x46ff_fe00;

/// How many bits an exported sample has.
pub const BITS_PER_SAMPLE: u16 = 16;

/// Samples to play after a delay.
#[derive(Debug)]
pub struct ClipSource {
    pub channels: u16,
    pub sample_rate: u32,
    /// The samples, the channels interleaved.
    pub samples: Vec<Sample>,
    pub delay_secs: Num,
}

/// The lesser of two integers.
pub open spec fn lesser(a: int, b: int) -> int {
    if a < b {
        a
    } else {
        b
    }
}

/// How long a clip still sounds from the given offset into its audio.
pub open spec fn rest_formula(clip: &AudioClip, audio_offset: Num) -> Formula {
    (val(clip.duration_secs) - (val(audio_offset) - val(clip.offset_in_audio_secs))).max(
        Num { bits: ZERO },
    )
}

/// Whether `source` plays a clip from the given offset into its audio: the frames from that offset
/// on, for as long as the clip still sounds.
pub open spec fn is_clip_source<A: Arith>(
    m: &A,
    clip: &AudioClip,
    audio_offset: Num,
    delay: Num,
    source: &ClipSource,
) -> bool {
    let total = clip.buffer@.len() as int;
    let channels = clip.channels as int;
    &&& source.channels == clip.channels
    &&& source.sample_rate == clip.sample_rate
    &&& source.delay_secs == delay
    &&& exists|at: usize, length: usize|
        {
            &&& #[trigger] gives_count(
                m,
                position_formula(val(audio_offset), clip.sample_rate, clip.channels),
                at,
            )
            &&& #[trigger] gives_count(
                m,
                position_formula(
                    rest_formula(clip, audio_offset),
                    clip.sample_rate,
                    clip.channels,
                ),
                length,
            )
            &&& {
                let start = lesser(aligned(at as int, channels), total);
                let end = lesser(start + aligned(length as int, channels), total);
                source.samples@ == clip.buffer@.subrange(start, end)
            }
        }
}

/// The samples from `start` up to `end`.
fn copy_between(buffer: &Vec<Sample>, start: usize, end: usize) -> (r: Vec<Sample>)
    requires
        start <= end <= buffer@.len(),
    ensures
        r@ == buffer@.subrange(start as int, end as int),
{
    let mut r: Vec<Sample> = Vec::new();
    let mut i: usize = start;
    while i < end
        invariant
            start <= i <= end <= buffer@.len(),
            r@ == buffer@.subrange(start as int, i as int),
        decreases end - i,
    {
        r.push(buffer[i]);
        i += 1;
        assert(r@ =~= buffer@.subrange(start as int, i as int));
    }
    r
}

/// The source that plays a clip from the given offset into its audio after a delay.
pub fn make_clip_source<A: Arith>(
    m: &A,
    clip: &AudioClip,
    audio_offset_secs: Num,
    start_delay_secs: Num,
) -> (r: ClipSource)
    requires
        clip.channels != 0,
    ensures
        is_clip_source(m, clip, audio_offset_secs, start_delay_secs, &r),
{
    let total: usize = clip.buffer.len();
    let channels: usize = clip.channels as usize;
    let at: usize = position_at(m, audio_offset_secs, clip.sample_rate, clip.channels);
    let mut start: usize = align(at, channels);
    if start > total {
        start = total;
    }
    let skipped = from(m, audio_offset_secs).minus(from(m, clip.offset_in_audio_secs));
    let rest = from(m, clip.duration_secs).minus(skipped).max(ZERO);
    let length: usize = rest.times(from_count(m, clip.sample_rate as u64)).times(
        from_count(m, clip.channels as u64),
    ).count();
    let played: usize = align(length, channels);
    let end: usize = if played < total - start {
        start + played
    } else {
        total
    };
    ClipSource {
        channels: clip.channels,
        sample_rate: clip.sample_rate,
        samples: copy_between(&clip.buffer, start, end),
        delay_secs: start_delay_secs,
    }
}

/// Whether `source` is what is heard of a clip from the playhead on: nothing of a clip that has
/// ended by then; else the clip from its start, after the time that is left until then, or from
/// where the playhead is in it, at once.
pub open spec fn is_heard<A: Arith>(
    m: &A,
    clip: &AudioClip,
    clip_end: Num,
    playhead: Num,
    source: Option<ClipSource>,
) -> bool {
    if clip_end.le(playhead) {
        source is None
    } else {
        exists|delay: Num, offset: Num|
            {
                &&& #[trigger] gives(
                    m,
                    (val(clip.start_time_secs) - val(playhead)).max(Num { bits: ZERO }),
                    delay,
                )
                &&& #[trigger] gives(
                    m,
                    val(clip.offset_in_audio_secs) + (val(playhead) - val(
                        clip.start_time_secs,
                    )).max(Num { bits: ZERO }),
                    offset,
                )
                &&& source matches Some(s) && is_clip_source(m, clip, offset, delay, &s)
            }
    }
}

/// Whether `sources` are what is heard of the clips from the playhead on.
pub open spec fn are_heard<A: Arith>(
    m: &A,
    state: &TimelineState,
    sources: Seq<ClipSource>,
) -> bool {
    exists|ends: Seq<Num>, heard: Seq<Option<ClipSource>>|
        {
            &&& #[trigger] are_ends(m, state.clips@, ends)
            &&& heard.len() == state.clips@.len()
            &&& forall|i: int|
                0 <= i < heard.len() ==> is_heard(
                    m,
                    &state.clips@[i],
                    ends[i],
                    state.playhead_secs,
                    #[trigger] heard[i],
                )
            &&& sources == #[trigger] present(heard)
        }
}

/// What is heard of one clip from the playhead on.
pub fn heard_of_clip<A: Arith>(m: &A, clip: &AudioClip, clip_end: Num, playhead: Num) -> (r: Option<
    ClipSource,
>)
    requires
        clip.channels != 0,
    ensures
        is_heard(m, clip, clip_end, playhead, r),
{
    if clip_end.le(playhead) {
        return None;
    }
    let delay = from(m, clip.start_time_secs).minus(from(m, playhead)).max(ZERO).v;
    let inside = from(m, playhead).minus(from(m, clip.start_time_secs)).max(ZERO);
    let offset = from(m, clip.offset_in_audio_secs).plus(inside).v;
    Some(make_clip_source(m, clip, offset, delay))
}

/// Where a clip goes in the mix: `count` samples from `source` on in its buffer, to `target` on in
/// the mix.
#[derive(Clone, Copy, Debug, PartialEq, Eq, Structural)]
pub struct Placement {
    pub target: usize,
    pub source: usize,
    pub count: usize,
}

/// Whether `n` is the start of the frame that lies so many seconds from the start.
pub open spec fn is_frame_at<A: Arith>(
    m: &A,
    secs: Num,
    sample_rate: u32,
    channels: u16,
    n: usize,
) -> bool {
    exists|at: usize| #[trigger]
        gives_count(m, position_formula(val(secs), sample_rate, channels), at) && n == aligned(
            at as int,
            channels as int,
        )
}

/// Whether `placement` is where a clip goes in a mix of the given format: nowhere where the clip
/// has another format.
pub open spec fn is_placement<A: Arith>(
    m: &A,
    clip: &AudioClip,
    channels: u16,
    sample_rate: u32,
    placement: Option<Placement>,
) -> bool {
    if clip.channels != channels || clip.sample_rate != sample_rate {
        placement is None
    } else {
        placement matches Some(p) && {
            &&& is_frame_at(m, clip.start_time_secs, sample_rate, channels, p.target)
            &&& is_frame_at(m, clip.offset_in_audio_secs, sample_rate, channels, p.source)
            &&& is_frame_at(m, clip.duration_secs, sample_rate, channels, p.count)
        }
    }
}

/// What a clip adds to the mix at position `d`, if anything.
pub open spec fn contribution(
    clip: &AudioClip,
    placement: Option<Placement>,
    d: int,
) -> Option<Sample> {
    match placement {
        None => None,
        Some(p) => {
            let i = d - p.target;
            if 0 <= i < p.count && p.source + i < clip.buffer@.len() {
                Some(clip.buffer@[p.source + i])
            } else {
                None
            }
        },
    }
}

/// Whether `mixed` can be the mix of the first `n` clips at position `d`: silence, to which the
/// clips that sound there are added one after the other.
pub open spec fn is_mixed<A: Arith>(
    m: &A,
    clips: Seq<AudioClip>,
    placements: Seq<Option<Placement>>,
    n: nat,
    d: int,
    mixed: Sample,
) -> bool
    decreases n,
{
    if n == 0 {
        mixed == (Sample { bits: SAMPLE_ZERO })
    } else {
        let k = (n - 1) as nat;
        match contribution(&clips[k as int], placements[k as int], d) {
            None => is_mixed(m, clips, placements, k, d, mixed),
            Some(added) => exists|before: Sample|
                is_mixed(m, clips, placements, k, d, before) && #[trigger] sample_gives(
                    m,
                    sample(before) + sample(added),
                    mixed,
                ),
        }
    }
}

/// The indices of the clips among the first `n` that have another format than the mix.
pub open spec fn ignored_clips(
    clips: Seq<AudioClip>,
    channels: u16,
    sample_rate: u32,
    n: nat,
) -> Seq<usize>
    decreases n,
{
    if n == 0 {
        Seq::empty()
    } else {
        let before = ignored_clips(clips, channels, sample_rate, (n - 1) as nat);
        let clip = clips[n - 1];
        if clip.channels != channels || clip.sample_rate != sample_rate {
            before.push((n - 1) as usize)
        } else {
            before
        }
    }
}

/// An exported mix.
#[derive(Debug)]
pub struct Mixdown {
    pub channels: u16,
    pub sample_rate: u32,
    pub bits_per_sample: u16,
    /// The samples, the channels interleaved.
    pub samples: Vec<i16>,
    /// The indices of the clips that the mix leaves out because of their format.
    pub ignored: Vec<usize>,
}

/// Why there is no mix.
#[derive(Clone, Copy, Debug, PartialEq, Eq, Structural)]
pub enum ExportError {
    /// There are no clips.
    NoClips,
}

impl ExportError {
    /// The message for the user.
    pub fn message(&self) -> (r: String)
        ensures
            r@ == "Aucun clip à exporter"@,
    {
        "Aucun clip à exporter".to_owned()
    }
}

/// Whether `mixdown` is the mix of the clips, in the format of the first of them.
pub open spec fn is_mixdown<A: Arith>(m: &A, state: &TimelineState, mixdown: &Mixdown) -> bool {
    let clips = state.clips@;
    let channels = clips[0].channels;
    let sample_rate = clips[0].sample_rate;
    &&& mixdown.channels == channels
    &&& mixdown.sample_rate == sample_rate
    &&& mixdown.bits_per_sample == BITS_PER_SAMPLE
    &&& mixdown.ignored@ == ignored_clips(clips, channels, sample_rate, clips.len())
    &&& exists|duration: Num| #[trigger]
        state.is_duration(m, duration) && gives_count(
            m,
            position_formula(val(duration), sample_rate, channels),
            mixdown.samples.len(),
        )
    &&& exists|placements: Seq<Option<Placement>>| #[trigger]
        are_placements(m, clips, channels, sample_rate, placements) && are_exported(
            m,
            clips,
            placements,
            mixdown.samples@,
        )
}

/// Whether `placements` are where the clips go in a mix of the given format.
pub open spec fn are_placements<A: Arith>(
    m: &A,
    clips: Seq<AudioClip>,
    channels: u16,
    sample_rate: u32,
    placements: Seq<Option<Placement>>,
) -> bool {
    &&& placements.len() == clips.len()
    &&& forall|i: int|
        0 <= i < clips.len() ==> is_placement(
            m,
            &clips[i],
            channels,
            sample_rate,
            #[trigger] placements[i],
        )
}

/// Whether `n` can be exported for position `d` of the mix: the mix moved into -1 to 1, times
/// 32767.
pub open spec fn is_exported<A: Arith>(
    m: &A,
    clips: Seq<AudioClip>,
    placements: Seq<Option<Placement>>,
    d: int,
    n: i16,
) -> bool {
    exists|mixed: Sample| #[trigger]
        is_mixed(m, clips, placements, clips.len(), d, mixed) && gives_pcm(
            m,
            sample(
                mixed.clamp(
                    Sample { bits: SAMPLE_MINUS_ONE },
                    Sample { bits: SAMPLE_ONE },
                ),
            ) * sample_lit(SAMPLE_PCM_MAX),
            n,
        )
}

/// Whether `samples` are the exported samples of the mix.
pub open spec fn are_exported<A: Arith>(
    m: &A,
    clips: Seq<AudioClip>,
    placements: Seq<Option<Placement>>,
    samples: Seq<i16>,
) -> bool {
    forall|d: int|
        0 <= d < samples.len() ==> is_exported(m, clips, placements, d, #[trigger] samples[d])
}

/// The start of the frame that lies so many seconds from the start.
fn frame_at<A: Arith>(m: &A, secs: Num, sample_rate: u32, channels: u16) -> (r: usize)
    requires
        channels != 0,
    ensures
        is_frame_at(m, secs, sample_rate, channels, r),
{
    align(position_at(m, secs, sample_rate, channels), channels as usize)
}

/// Adds one clip to a mix.
fn mix_clip<A: Arith>(
    m: &A,
    clips: &Vec<AudioClip>,
    placements: &Vec<Option<Placement>>,
    k: usize,
    mix: &mut Vec<Sample>,
)
    requires
        k < clips@.len(),
        placements@.len() == clips@.len(),
        forall|d: int|
            0 <= d < old(mix)@.len() ==> is_mixed(
                m,
                clips@,
                placements@,
                k as nat,
                d,
                #[trigger] old(mix)@[d],
            ),
    ensures
        final(mix)@.len() == old(mix)@.len(),
        forall|d: int|
            0 <= d < final(mix)@.len() ==> is_mixed(
                m,
                clips@,
                placements@,
                (k + 1) as nat,
                d,
                #[trigger] final(mix)@[d],
            ),
{
    let ghost before = mix@;
    match placements[k] {
        None => {
            assert forall|d: int| 0 <= d < mix@.len() implies is_mixed(
                m,
                clips@,
                placements@,
                (k + 1) as nat,
                d,
                #[trigger] mix@[d],
            ) by {
                assert(is_mixed(m, clips@, placements@, k as nat, d, before[d]));
            }
        },
        Some(p) => {
            let clip = &clips[k];
            let mut n: usize = p.count;
            if p.source >= clip.buffer.len() || p.target >= mix.len() {
                n = 0;
            } else {
                if n > clip.buffer.len() - p.source {
                    n = clip.buffer.len() - p.source;
                }
                if n > mix.len() - p.target {
                    n = mix.len() - p.target;
                }
            }
            let mut i: usize = 0;
            while i < n
                invariant
                    i <= n,
                    k < clips@.len(),
                    placements@.len() == clips@.len(),
                    placements@[k as int] == Some(p),
                    *clip == clips@[k as int],
                    mix@.len() == before.len(),
                    n <= p.count,
                    n > 0 ==> p.source + n <= clip.buffer.len() && p.target + n <= mix.len(),
                    forall|d: int|
                        0 <= d < mix@.len() ==> is_mixed(
                            m,
                            clips@,
                            placements@,
                            k as nat,
                            d,
                            #[trigger] before[d],
                        ),
                    forall|d: int|
                        p.target <= d < p.target + i ==> is_mixed(
                            m,
                            clips@,
                            placements@,
                            (k + 1) as nat,
                            d,
                            #[trigger] mix@[d],
                        ),
                    forall|d: int|
                        0 <= d < mix@.len() && !(p.target <= d < p.target + i)
                            ==> #[trigger] mix@[d] == before[d],
                decreases n - i,
            {
                let d: usize = p.target + i;
                let sum = take(m, mix[d]).plus(take(m, clip.buffer[p.source + i])).v;
                proof {
                    assert(mix@[d as int] == before[d as int]);
                    assert(contribution(&clips@[k as int], placements@[k as int], d as int)
                        == Some(clip.buffer@[p.source + i]));
                    assert(is_mixed(m, clips@, placements@, k as nat, d as int, before[d as int]));
                    assert(is_mixed(m, clips@, placements@, (k + 1) as nat, d as int, sum));
                }
                mix.set(d, sum);
                i += 1;
            }
            assert forall|d: int| 0 <= d < mix@.len() implies is_mixed(
                m,
                clips@,
                placements@,
                (k + 1) as nat,
                d,
                #[trigger] mix@[d],
            ) by {
                if !(p.target <= d < p.target + n) {
                    assert(contribution(&clips@[k as int], placements@[k as int], d) is None);
                    assert(is_mixed(m, clips@, placements@, k as nat, d, before[d]));
                }
            }
        },
    }
}

impl TimelineState {
    /// What is heard of the timeline from the playhead on.
    pub fn sources<A: Arith>(&self, m: &A) -> (r: Vec<ClipSource>)
        requires
            self.wf(),
        ensures
            are_heard(m, self, r@),
    {
        let ends = self.end_times(m);
        let ghost mut heard: Seq<Option<ClipSource>> = Seq::empty();
        let mut r: Vec<ClipSource> = Vec::new();
        let mut i: usize = 0;
        while i < self.clips.len()
            invariant
                self.wf(),
                i <= self.clips@.len(),
                ends@.len() == self.clips@.len(),
                heard.len() == i,
                forall|j: int|
                    0 <= j < i ==> is_heard(
                        m,
                        &self.clips@[j],
                        ends@[j],
                        self.playhead_secs,
                        #[trigger] heard[j],
                    ),
                r@ == present(heard),
            decreases self.clips@.len() - i,
        {
            let clip = &self.clips[i];
            assert(self.clips@[i as int].wf());
            let source = heard_of_clip(m, clip, ends[i], self.playhead_secs);
            proof {
                assert(heard.push(source).drop_last() =~= heard);
                heard = heard.push(source);
            }
            match source {
                Some(source) => r.push(source),
                None => {},
            }
            i += 1;
        }
        assert(r@ == present(heard));
        r
    }

    /// Where the clips go in a mix of the given format.
    fn placements<A: Arith>(&self, m: &A, channels: u16, sample_rate: u32) -> (r: Vec<
        Option<Placement>,
    >)
        requires
            channels != 0,
        ensures
            are_placements(m, self.clips@, channels, sample_rate, r@),
    {
        let mut r: Vec<Option<Placement>> = Vec::new();
        let mut i: usize = 0;
        while i < self.clips.len()
            invariant
                channels != 0,
                i <= self.clips@.len(),
                r@.len() == i,
                forall|j: int|
                    0 <= j < i ==> is_placement(
                        m,
                        &self.clips@[j],
                        channels,
                        sample_rate,
                        #[trigger] r@[j],
                    ),
            decreases self.clips@.len() - i,
        {
            let clip = &self.clips[i];
            if clip.channels != channels || clip.sample_rate != sample_rate {
                r.push(None);
            } else {
                r.push(
                    Some(
                        Placement {
                            target: frame_at(m, clip.start_time_secs, sample_rate, channels),
                            source: frame_at(m, clip.offset_in_audio_secs, sample_rate, channels),
                            count: frame_at(m, clip.duration_secs, sample_rate, channels),
                        },
                    ),
                );
            }
            i += 1;
        }
        r
    }

    /// The indices of the clips that have another format than the mix.
    fn ignored(&self, channels: u16, sample_rate: u32) -> (r: Vec<usize>)
        ensures
            r@ == ignored_clips(self.clips@, channels, sample_rate, self.clips@.len()),
    {
        let mut r: Vec<usize> = Vec::new();
        let mut i: usize = 0;
        while i < self.clips.len()
            invariant
                i <= self.clips@.len(),
                r@ == ignored_clips(self.clips@, channels, sample_rate, i as nat),
            decreases self.clips@.len() - i,
        {
            let clip = &self.clips[i];
            if clip.channels != channels || clip.sample_rate != sample_rate {
                r.push(i);
            }
            i += 1;
        }
        r
    }

    /// Mixes the clips down, in the format of the first of them. Clips of another format are left
    /// out.
    pub fn export_timeline_mix<A: Arith>(&self, m: &A) -> (r: Result<Mixdown, ExportError>)
        requires
            self.wf(),
        ensures
            r is Err <==> self.clips@.len() == 0,
            match r {
                Err(e) => e == ExportError::NoClips,
                Ok(mixdown) => is_mixdown(m, self, &mixdown),
            },
    {
        if self.clips.len() == 0 {
            return Err(ExportError::NoClips);
        }
        assert(self.clips@[0].wf());
        let channels = self.clips[0].channels;
        let sample_rate = self.clips[0].sample_rate;
        let duration = self.timeline_duration_secs(m);
        let total: usize = position_at(m, duration, sample_rate, channels);
        let mut mix: Vec<Sample> = Vec::new();
        let mut filled: usize = 0;
        while filled < total
            invariant
                filled <= total,
                mix@.len() == filled,
                forall|d: int| 0 <= d < filled ==> mix@[d] == (Sample { bits: SAMPLE_ZERO }),
            decreases total - filled,
        {
            mix.push(Sample { bits: SAMPLE_ZERO });
            filled += 1;
        }
        let placements = self.placements(m, channels, sample_rate);
        let mut k: usize = 0;
        while k < self.clips.len()
            invariant
                k <= self.clips@.len(),
                placements@.len() == self.clips@.len(),
                mix@.len() == total,
                forall|d: int|
                    0 <= d < mix@.len() ==> is_mixed(
                        m,
                        self.clips@,
                        placements@,
                        k as nat,
                        d,
                        #[trigger] mix@[d],
                    ),
            decreases self.clips@.len() - k,
        {
            mix_clip(m, &self.clips, &placements, k, &mut mix);
            k += 1;
        }
        let low = Sample { bits: SAMPLE_MINUS_ONE };
        let high = Sample { bits: SAMPLE_ONE };
        let mut samples: Vec<i16> = Vec::new();
        let mut i: usize = 0;
        while i < total
            invariant
                i <= total,
                mix@.len() == total,
                samples@.len() == i,
                low == (Sample { bits: SAMPLE_MINUS_ONE }),
                high == (Sample { bits: SAMPLE_ONE }),
                forall|d: int|
                    0 <= d < mix@.len() ==> is_mixed(
                        m,
                        self.clips@,
                        placements@,
                        self.clips@.len(),
                        d,
                        #[trigger] mix@[d],
                    ),
                forall|d: int|
                    0 <= d < i ==> is_exported(
                        m,
                        self.clips@,
                        placements@,
                        d,
                        #[trigger] samples@[d],
                    ),
            decreases total - i,
        {
            let clamped = mix[i].clamp(low, high);
            assert(is_mixed(
                m,
                self.clips@,
                placements@,
                self.clips@.len(),
                i as int,
                mix@[i as int],
            ));
            samples.push(take(m, clamped).times(take_bits(m, SAMPLE_PCM_MAX)).pcm());
            i += 1;
        }
        Ok(
            Mixdown {
                channels,
                sample_rate,
                bits_per_sample: BITS_PER_SAMPLE,
                samples,
                ignored: self.ignored(channels, sample_rate),
            },
        )
    }
}

} // verus!
