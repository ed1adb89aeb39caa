//! The timeline: which clips there are, on which lanes they lie, and what is selected.
use vstd::prelude::*;

use crate::arith::{count, from, from_bits, gives, gives_count, lit, val, Arith, Formula};
use crate::clip::{
    are_amplitudes, compute_amplitudes, duration_formula, duration_of, AudioClip, Color,
    AMPLITUDE_COUNT,
};
use crate::num::{in_unit, Num, Sample, ONE, SAMPLE_ONE, ZERO};

verus! {

/// The bits of 86: the height of a lane in pixels.
pub const TRACK_HEIGHT: u64 = 0x4055_8000_0000_0000;

/// The bits of 170: the width of the lanes' headers in pixels.
pub const HEADER_WIDTH: u64 = 0x4065_4000_0000_0000;

/// The bits of 28: the height of the ruler in pixels.
pub const RULER_HEIGHT: u64 = 0x403c_0000_0000_0000;

/// The bits of 90: how many pixels a second takes at first.
pub const DEFAULT_PIXELS_PER_SECOND: u64 = 0x4056_8000_0000_0000;

/// The bits of 30: the least length of the timeline in seconds.
pub const SHORTEST_TIMELINE: u64 = 0x403e_0000_0000_0000;

/// The bits of 0.25: the grid in seconds on which a dragged clip starts.
pub const GRID: u64 = 0x3fd0_0000_0000_0000;

/// How many lanes there are at first.
pub const FIRST_LANES: usize = 3;

/// The last lane that a clip can be dragged to.
pub const LAST_DRAG_LANE: usize = 63;

/// What the mouse is doing.
#[derive(Clone, Copy, Debug, PartialEq, Eq, Structural)]
pub enum MouseMode {
    Idle,
    MoveClip,
    SelectInClip,
}

/// Audio as a decoder hands it over.
#[derive(Clone, Debug)]
pub struct DecodedAudio {
    /// The samples, the channels interleaved.
    pub buffer: Vec<Sample>,
    pub channels: u16,
    pub sample_rate: u32,
}

impl DecodedAudio {
    /// Whether there is anything to play.
    pub open spec fn is_playable(&self) -> bool {
        self.buffer@.len() > 0 && self.channels != 0 && self.sample_rate != 0
    }
}

/// Why a clip was not added.
#[derive(Clone, Copy, Debug, PartialEq, Eq, Structural)]
pub enum AddClipError {
    /// The audio has no samples, no channels or no sample rate.
    Unplayable,
}

impl AddClipError {
    /// The message for the user.
    pub fn message(&self) -> (r: String)
        ensures
            r@ == "Fichier audio vide ou invalide"@,
    {
        "Fichier audio vide ou invalide".to_owned()
    }
}

/// The state of the editor.
#[derive(Debug)]
pub struct TimelineState {
    pub clips: Vec<AudioClip>,
    pub lanes: usize,
    pub next_clip_id: u32,
    pub pixels_per_second: Num,
    pub playhead_secs: Num,
    pub is_playing: bool,
    pub selected_clip_id: Option<u32>,
    pub mouse_mode: MouseMode,
    pub drag_clip_id: Option<u32>,
    pub drag_offset_secs: Num,
    pub selection_start_ratio: Num,
    /// When the playhead last moved, in nanoseconds of a clock that never goes back.
    pub last_tick: Option<u64>,
}

/// The index of the first clip with the given id.
pub open spec fn index_of(clips: Seq<AudioClip>, id: u32) -> Option<int>
    decreases clips.len(),
{
    if clips.len() == 0 {
        None
    } else {
        match index_of(clips.drop_last(), id) {
            Some(i) => Some(i),
            None => if clips.last().id == id {
                Some(clips.len() - 1)
            } else {
                None
            },
        }
    }
}

/// `index_of` finds the first clip with the id, and finds one exactly where there is one.
pub proof fn lemma_index_of(clips: Seq<AudioClip>, id: u32)
    ensures
        match index_of(clips, id) {
            Some(i) => {
                &&& 0 <= i < clips.len()
                &&& clips[i].id == id
                &&& forall|j: int| 0 <= j < i ==> (#[trigger] clips[j]).id != id
            },
            None => forall|j: int| 0 <= j < clips.len() ==> (#[trigger] clips[j]).id != id,
        },
    decreases clips.len(),
{
    if clips.len() > 0 {
        lemma_index_of(clips.drop_last(), id);
        let shorter = clips.drop_last();
        let searched = match index_of(shorter, id) {
            Some(i) => i,
            None => clips.len() - 1,
        };
        assert forall|j: int| 0 <= j < searched implies (#[trigger] clips[j]).id != id by {
            assert(shorter[j].id != id);
        }
    }
}

/// Whether `ends` are where the clips end.
pub open spec fn are_ends<A: Arith>(m: &A, clips: Seq<AudioClip>, ends: Seq<Num>) -> bool {
    &&& ends.len() == clips.len()
    &&& forall|i: int| 0 <= i < clips.len() ==> clips[i].ends_at(m, #[trigger] ends[i])
}

/// The latest of the ends, at least 30 seconds.
pub open spec fn latest(ends: Seq<Num>) -> Num
    decreases ends.len(),
{
    if ends.len() == 0 {
        Num { bits: SHORTEST_TIMELINE }
    } else {
        latest(ends.drop_last()).max(ends.last())
    }
}

/// Whether the clip, which ends at `clip_end`, lies on the lane and overlaps `start` to `end`.
pub open spec fn overlaps(
    clip: &AudioClip,
    clip_end: Num,
    lane: int,
    start: Num,
    end: Num,
) -> bool {
    clip.lane == lane && start.lt(clip_end) && clip.start_time_secs.lt(end)
}

/// Whether some clip lies on the lane and overlaps `start` to `end`.
pub open spec fn is_occupied(
    clips: Seq<AudioClip>,
    ends: Seq<Num>,
    lane: int,
    start: Num,
    end: Num,
) -> bool {
    exists|i: int|
        0 <= i < clips.len() && #[trigger] overlaps(&clips[i], ends[i], lane, start, end)
}

/// Whether `r` is the first of `lanes` lanes that is free from `start` to `end`, or the lane after
/// them where none is.
pub open spec fn is_first_free_lane(
    clips: Seq<AudioClip>,
    ends: Seq<Num>,
    lanes: int,
    start: Num,
    end: Num,
    r: int,
) -> bool {
    &&& 0 <= r <= lanes
    &&& forall|lane: int| 0 <= lane < r ==> #[trigger] is_occupied(clips, ends, lane, start, end)
    &&& r < lanes ==> !is_occupied(clips, ends, r, start, end)
}

/// Whether the clip, which ends at `clip_end`, lies on the lane at the given time.
pub open spec fn is_under(clip: &AudioClip, clip_end: Num, lane: int, time: Num) -> bool {
    clip.lane == lane && clip.start_time_secs.le(time) && time.le(clip_end)
}

/// The id of the last clip that lies on the lane at the given time: the one drawn on top.
pub open spec fn topmost(
    clips: Seq<AudioClip>,
    ends: Seq<Num>,
    lane: int,
    time: Num,
) -> Option<u32>
    decreases clips.len(),
{
    if clips.len() == 0 {
        None
    } else if is_under(&clips.last(), ends[clips.len() - 1], lane, time) {
        Some(clips.last().id)
    } else {
        topmost(clips.drop_last(), ends, lane, time)
    }
}

/// The time at a horizontal position.
pub open spec fn time_formula(x: Num, pixels_per_second: Num) -> Formula {
    (val(x) - lit(HEADER_WIDTH)) / val(pixels_per_second)
}

/// The lane at a vertical position.
pub open spec fn lane_formula(y: Num) -> Formula {
    (val(y) - lit(RULER_HEIGHT)) / lit(TRACK_HEIGHT)
}

/// Where in a clip a horizontal position lies, from 0 at its start to 1 at its end.
pub open spec fn ratio_formula(x: Num, pixels_per_second: Num, clip: &AudioClip) -> Formula {
    ((time_formula(x, pixels_per_second) - val(clip.start_time_secs)) / val(
        clip.duration_secs,
    )).clamped(Num { bits: ZERO }, Num { bits: ONE })
}

/// The multiple of the grid that is nearest to a value.
pub open spec fn snap_formula(value: Num, grid: Num) -> Formula {
    (val(value) / val(grid)).rounded() * val(grid)
}

/// The color of the clip with the given id: six colors in turn.
pub open spec fn palette(id: u32) -> Color {
    let i = (id - 1) % 6;
    if i == 0 {
        Color { red: 20, green: 74, blue: 95 }
    } else if i == 1 {
        Color { red: 100, green: 55, blue: 18 }
    } else if i == 2 {
        Color { red: 60, green: 82, blue: 20 }
    } else if i == 3 {
        Color { red: 94, green: 27, blue: 38 }
    } else if i == 4 {
        Color { red: 70, green: 45, blue: 95 }
    } else {
        Color { red: 95, green: 80, blue: 20 }
    }
}

/// Whether `clip` is the clip that a state makes of decoded audio: at the playhead, on the first
/// lane that is free there, with the state's next id, and with everything at its neutral setting.
pub open spec fn is_new_clip<A: Arith>(
    m: &A,
    state: &TimelineState,
    file_name: Option<Seq<char>>,
    path: Vec<u8>,
    audio: &DecodedAudio,
    clip: &AudioClip,
) -> bool {
    &&& clip.id == state.next_clip_id
    &&& clip.name@ == (match file_name {
        Some(name) => name,
        None => "clip"@,
    })
    &&& clip.path == path
    &&& clip.buffer == audio.buffer
    &&& clip.channels == audio.channels
    &&& clip.sample_rate == audio.sample_rate
    &&& are_amplitudes(m, clip.buffer@, AMPLITUDE_COUNT as nat, clip.amplitudes@)
    &&& gives(
        m,
        duration_formula(audio.buffer@.len() as int, audio.sample_rate, audio.channels),
        clip.duration_secs,
    )
    &&& state.is_free_lane_for(m, clip.duration_secs, clip.lane)
    &&& clip.start_time_secs == state.playhead_secs
    &&& clip.offset_in_audio_secs == (Num { bits: ZERO })
    &&& clip.volume == (Sample { bits: SAMPLE_ONE })
    &&& clip.speed == (Num { bits: ONE })
    &&& clip.bass_gain == (Sample { bits: SAMPLE_ONE })
    &&& clip.selection is None
    &&& clip.color == palette(state.next_clip_id)
    &&& clip.effect_zones@.len() == 0
}

/// Where no lane is free there is a clip on each of them, so there are no more lanes than clips.
proof fn lemma_full_lanes<A: Arith>(m: &A, state: &TimelineState, duration: Num)
    requires
        state.is_free_lane_for(m, duration, state.lanes),
    ensures
        state.lanes <= state.clips@.len(),
{
    let clips = state.clips@;
    let (end, ends) = choose|end: Num, ends: Seq<Num>|
        {
            &&& #[trigger] gives(m, val(state.playhead_secs) + val(duration), end)
            &&& #[trigger] are_ends(m, clips, ends)
            &&& is_first_free_lane(
                clips,
                ends,
                state.lanes as int,
                state.playhead_secs,
                end,
                state.lanes as int,
            )
        };
    let lanes = Seq::new(clips.len(), |i: int| clips[i].lane as int);
    let all = vstd::set_lib::set_int_range(0, state.lanes as int);
    assert forall|lane: int| #[trigger] all.contains(lane) implies lanes.to_set().contains(
        lane,
    ) by {
        assert(is_occupied(clips, ends, lane, state.playhead_secs, end));
        let i = choose|i: int|
            0 <= i < clips.len() && #[trigger] overlaps(
                &clips[i],
                ends[i],
                lane,
                state.playhead_secs,
                end,
            );
        assert(lanes[i] == lane);
    }
    vstd::seq_lib::seq_to_set_is_finite(lanes);
    lanes.lemma_cardinality_of_set();
    vstd::set_lib::lemma_int_range(0, state.lanes as int);
    vstd::set_lib::lemma_len_subset(all, lanes.to_set());
}

/// Snaps a time to a grid.
pub fn snap_time<A: Arith>(m: &A, value: Num, grid: Num) -> (r: Num)
    ensures
        gives(m, snap_formula(value, grid), r),
{
    from(m, value).over(from(m, grid)).round().times(from(m, grid)).v
}

/// The color of the clip with the given id.
fn color_of(id: u32) -> (r: Color)
    requires
        id >= 1,
    ensures
        r == palette(id),
{
    let i: u32 = (id - 1) % 6;
    if i == 0 {
        Color { red: 20, green: 74, blue: 95 }
    } else if i == 1 {
        Color { red: 100, green: 55, blue: 18 }
    } else if i == 2 {
        Color { red: 60, green: 82, blue: 20 }
    } else if i == 3 {
        Color { red: 94, green: 27, blue: 38 }
    } else if i == 4 {
        Color { red: 70, green: 45, blue: 95 }
    } else {
        Color { red: 95, green: 80, blue: 20 }
    }
}

impl TimelineState {
    /// What every state of the editor satisfies: the clips are sound, each has an id of its own
    /// that was given out before, each lies on a lane that exists, and what is selected or dragged
    /// is one of them. There are no more lanes than a clip can be dragged to, or else than clips.
    pub open spec fn wf(&self) -> bool {
        &&& self.next_clip_id >= 1
        &&& self.clips@.len() < self.next_clip_id
        &&& self.lanes >= FIRST_LANES
        &&& self.lanes <= LAST_DRAG_LANE + 1 || self.lanes <= self.clips@.len()
        &&& in_unit(self.selection_start_ratio)
        &&& forall|i: int|
            0 <= i < self.clips@.len() ==> {
                &&& (#[trigger] self.clips@[i]).wf()
                &&& 1 <= self.clips@[i].id < self.next_clip_id
                &&& self.clips@[i].lane < self.lanes
            }
        &&& forall|i: int, j: int|
            0 <= i < j < self.clips@.len() ==> (#[trigger] self.clips@[i]).id != (
            #[trigger] self.clips@[j]).id
        &&& self.selected_clip_id matches Some(id) ==> index_of(self.clips@, id) is Some
        &&& self.drag_clip_id matches Some(id) ==> index_of(self.clips@, id) is Some
    }

    /// Whether `r` is the first lane that is free at the playhead for the given duration, or the
    /// lane after all lanes where none is.
    pub open spec fn is_free_lane_for<A: Arith>(&self, m: &A, duration: Num, r: usize) -> bool {
        exists|end: Num, ends: Seq<Num>|
            {
                &&& #[trigger] gives(m, val(self.playhead_secs) + val(duration), end)
                &&& #[trigger] are_ends(m, self.clips@, ends)
                &&& is_first_free_lane(
                    self.clips@,
                    ends,
                    self.lanes as int,
                    self.playhead_secs,
                    end,
                    r as int,
                )
            }
    }

    /// Whether `r` is the length of the timeline in seconds.
    pub open spec fn is_duration<A: Arith>(&self, m: &A, r: Num) -> bool {
        exists|ends: Seq<Num>| #[trigger] are_ends(m, self.clips@, ends) && r == latest(ends)
    }

    /// Whether `r` is the clip at a position of the window: nothing over the headers and the
    /// ruler, else the clip on top on that lane at that time, if any.
    pub open spec fn is_hit<A: Arith>(&self, m: &A, x: Num, y: Num, r: Option<u32>) -> bool {
        if x.lt(Num { bits: HEADER_WIDTH }) || y.lt(Num { bits: RULER_HEIGHT }) {
            r is None
        } else {
            exists|time: Num, lane: usize, ends: Seq<Num>|
                {
                    &&& #[trigger] gives(m, time_formula(x, self.pixels_per_second), time)
                    &&& #[trigger] gives_count(m, lane_formula(y), lane)
                    &&& #[trigger] are_ends(m, self.clips@, ends)
                    &&& r == topmost(self.clips@, ends, lane as int, time)
                }
        }
    }

    /// The editor as it opens: three empty lanes.
    pub fn new() -> (r: TimelineState)
        ensures
            r.wf(),
            r.clips@.len() == 0,
            r.lanes == FIRST_LANES,
            r.next_clip_id == 1,
            r.pixels_per_second == (Num { bits: DEFAULT_PIXELS_PER_SECOND }),
            r.playhead_secs == (Num { bits: ZERO }),
            !r.is_playing,
            r.selected_clip_id is None,
            r.mouse_mode == MouseMode::Idle,
            r.drag_clip_id is None,
            r.drag_offset_secs == (Num { bits: ZERO }),
            r.selection_start_ratio == (Num { bits: ZERO }),
            r.last_tick is None,
    {
        TimelineState {
            clips: Vec::new(),
            lanes: FIRST_LANES,
            next_clip_id: 1,
            pixels_per_second: Num { bits: DEFAULT_PIXELS_PER_SECOND },
            playhead_secs: Num { bits: ZERO },
            is_playing: false,
            selected_clip_id: None,
            mouse_mode: MouseMode::Idle,
            drag_clip_id: None,
            drag_offset_secs: Num { bits: ZERO },
            selection_start_ratio: Num { bits: ZERO },
            last_tick: None,
        }
    }

    /// Where the clips end, in seconds.
    pub fn end_times<A: Arith>(&self, m: &A) -> (ends: Vec<Num>)
        ensures
            are_ends(m, self.clips@, ends@),
    {
        let mut ends: Vec<Num> = Vec::new();
        let mut i: usize = 0;
        while i < self.clips.len()
            invariant
                i <= self.clips@.len(),
                ends@.len() == i,
                forall|j: int| 0 <= j < i ==> self.clips@[j].ends_at(m, #[trigger] ends@[j]),
            decreases self.clips@.len() - i,
        {
            ends.push(self.clips[i].end_time_secs(m));
            i += 1;
        }
        ends
    }

    /// The length of the timeline in seconds: up to the end of the last clip, at least 30.
    pub fn timeline_duration_secs<A: Arith>(&self, m: &A) -> (r: Num)
        ensures
            self.is_duration(m, r),
            (Num { bits: SHORTEST_TIMELINE }).le(r),
    {
        let ends = self.end_times(m);
        let mut r = Num { bits: SHORTEST_TIMELINE };
        let mut i: usize = 0;
        assert(ends@.take(0) =~= Seq::<Num>::empty());
        while i < ends.len()
            invariant
                i <= ends@.len(),
                r == latest(ends@.take(i as int)),
                (Num { bits: SHORTEST_TIMELINE }).le(r),
            decreases ends@.len() - i,
        {
            assert(ends@.take(i + 1).drop_last() =~= ends@.take(i as int));
            r = r.max(ends[i]);
            i += 1;
        }
        assert(ends@.take(ends@.len() as int) =~= ends@);
        r
    }

    /// Adds a clip of decoded audio at the playhead and selects it. `file_name` is the name of the
    /// audio's file, where it has one that is text.
    pub fn add_clip_from_file<A: Arith>(
        &mut self,
        m: &A,
        file_name: Option<String>,
        path: Vec<u8>,
        audio: DecodedAudio,
    ) -> (r: Result<(), AddClipError>)
        requires
            old(self).wf(),
            audio.is_playable() ==> old(self).next_clip_id < u32::MAX,
        ensures
            final(self).wf(),
            final(self).next_clip_id >= old(self).next_clip_id,
            final(self).lanes >= old(self).lanes,
            r is Ok <==> audio.is_playable(),
            match r {
                Err(e) => e == AddClipError::Unplayable && *final(self) == *old(self),
                Ok(()) => {
                    let clip = final(self).clips@.last();
                    &&& final(self).clips@ == old(self).clips@.push(clip)
                    &&& is_new_clip(
                        m,
                        old(self),
                        match file_name {
                            Some(name) => Some(name@),
                            None => None,
                        },
                        path,
                        &audio,
                        &clip,
                    )
                    &&& *final(self) == (TimelineState {
                        clips: final(self).clips,
                        lanes: if clip.lane < old(self).lanes {
                            old(self).lanes
                        } else {
                            (clip.lane + 1) as usize
                        },
                        next_clip_id: (old(self).next_clip_id + 1) as u32,
                        selected_clip_id: Some(clip.id),
                        ..*old(self)
                    })
                },
            },
    {
        if audio.buffer.len() == 0 || audio.channels == 0 || audio.sample_rate == 0 {
            return Err(AddClipError::Unplayable);
        }
        let duration_secs = duration_of(
            m,
            audio.buffer.len(),
            audio.sample_rate,
            audio.channels,
        );
        let amplitudes = compute_amplitudes(m, &audio.buffer, AMPLITUDE_COUNT);
        let name = match file_name {
            Some(name) => name,
            None => "clip".to_owned(),
        };
        let lane: usize = self.first_free_lane_at_playhead(m, duration_secs);
        if lane >= self.lanes {
            proof {
                lemma_full_lanes(m, self, duration_secs);
            }
            self.lanes = lane + 1;
        }
        let id = self.next_clip_id;
        self.clips.push(
            AudioClip {
                id,
                lane,
                name,
                path,
                buffer: audio.buffer,
                amplitudes,
                channels: audio.channels,
                sample_rate: audio.sample_rate,
                start_time_secs: self.playhead_secs,
                offset_in_audio_secs: Num { bits: ZERO },
                duration_secs,
                volume: Sample { bits: SAMPLE_ONE },
                speed: Num { bits: ONE },
                bass_gain: Sample { bits: SAMPLE_ONE },
                selection: None,
                color: color_of(id),
                effect_zones: Vec::new(),
            },
        );
        self.selected_clip_id = Some(id);
        self.next_clip_id = id + 1;
        proof {
            assert(self.clips@.drop_last() =~= old(self).clips@);
        }
        Ok(())
    }

    /// Whether some clip on the lane overlaps `start` to `end`; `ends` are where the clips end.
    fn lane_is_occupied(&self, ends: &Vec<Num>, lane: usize, start: Num, end: Num) -> (r: bool)
        requires
            ends@.len() == self.clips@.len(),
        ensures
            r == is_occupied(self.clips@, ends@, lane as int, start, end),
    {
        let mut i: usize = 0;
        while i < self.clips.len()
            invariant
                i <= self.clips@.len(),
                ends@.len() == self.clips@.len(),
                forall|j: int|
                    0 <= j < i ==> !#[trigger] overlaps(
                        &self.clips@[j],
                        ends@[j],
                        lane as int,
                        start,
                        end,
                    ),
            decreases self.clips@.len() - i,
        {
            let clip = &self.clips[i];
            if clip.lane == lane && start.lt(ends[i]) && clip.start_time_secs.lt(end) {
                assert(overlaps(&self.clips@[i as int], ends@[i as int], lane as int, start, end));
                return true;
            }
            i += 1;
        }
        false
    }

    /// The first lane that is free at the playhead for the given duration, or the lane after all
    /// lanes where none is.
    pub fn first_free_lane_at_playhead<A: Arith>(&self, m: &A, duration_secs: Num) -> (r: usize)
        ensures
            self.is_free_lane_for(m, duration_secs, r),
            r <= self.lanes,
    {
        let start = self.playhead_secs;
        let end = from(m, start).plus(from(m, duration_secs)).v;
        let ends = self.end_times(m);
        let mut lane: usize = 0;
        while lane < self.lanes
            invariant
                lane <= self.lanes,
                ends@.len() == self.clips@.len(),
                start == self.playhead_secs,
                gives(m, val(start) + val(duration_secs), end),
                are_ends(m, self.clips@, ends@),
                forall|l: int|
                    0 <= l < lane ==> #[trigger] is_occupied(self.clips@, ends@, l, start, end),
            decreases self.lanes - lane,
        {
            if !self.lane_is_occupied(&ends, lane, start, end) {
                assert(is_first_free_lane(
                    self.clips@,
                    ends@,
                    self.lanes as int,
                    start,
                    end,
                    lane as int,
                ));
                return lane;
            }
            lane += 1;
        }
        assert(is_first_free_lane(
            self.clips@,
            ends@,
            self.lanes as int,
            start,
            end,
            self.lanes as int,
        ));
        self.lanes
    }

    /// The clip at a position of the window, if any.
    pub fn hit_test_clip<A: Arith>(&self, m: &A, x: Num, y: Num) -> (r: Option<u32>)
        ensures
            self.is_hit(m, x, y, r),
            r matches Some(id) ==> index_of(self.clips@, id) is Some,
    {
        if x.lt(Num { bits: HEADER_WIDTH }) || y.lt(Num { bits: RULER_HEIGHT }) {
            return None;
        }
        let time = self.time_at(m, x);
        let lane: usize = lane_at(m, y);
        let ends = self.end_times(m);
        let mut i: usize = self.clips.len();
        assert(self.clips@.take(i as int) =~= self.clips@);
        while i > 0
            invariant
                i <= self.clips@.len(),
                ends@.len() == self.clips@.len(),
                gives(m, time_formula(x, self.pixels_per_second), time),
                gives_count(m, lane_formula(y), lane),
                are_ends(m, self.clips@, ends@),
                !x.lt(Num { bits: HEADER_WIDTH }),
                !y.lt(Num { bits: RULER_HEIGHT }),
                topmost(self.clips@, ends@, lane as int, time) == topmost(
                    self.clips@.take(i as int),
                    ends@,
                    lane as int,
                    time,
                ),
            decreases i,
        {
            i -= 1;
            assert(self.clips@.take(i + 1).drop_last() =~= self.clips@.take(i as int));
            let clip = &self.clips[i];
            if clip.lane == lane && clip.start_time_secs.le(time) && time.le(ends[i]) {
                proof {
                    lemma_index_of(self.clips@, clip.id);
                }
                return Some(clip.id);
            }
        }
        None
    }

    /// The time at a horizontal position of the window.
    pub fn time_at<A: Arith>(&self, m: &A, x: Num) -> (r: Num)
        ensures
            gives(m, time_formula(x, self.pixels_per_second), r),
    {
        from(m, x).minus(from_bits(m, HEADER_WIDTH)).over(from(m, self.pixels_per_second)).v
    }

    /// The index of the first clip with the given id.
    pub fn find_clip(&self, id: u32) -> (r: Option<usize>)
        ensures
            match r {
                Some(i) => index_of(self.clips@, id) == Some(i as int) && i < self.clips@.len(),
                None => index_of(self.clips@, id) is None,
            },
    {
        let mut i: usize = 0;
        while i < self.clips.len()
            invariant
                i <= self.clips@.len(),
                forall|j: int| 0 <= j < i ==> (#[trigger] self.clips@[j]).id != id,
            decreases self.clips@.len() - i,
        {
            if self.clips[i].id == id {
                proof {
                    lemma_index_of(self.clips@, id);
                }
                return Some(i);
            }
            i += 1;
        }
        proof {
            lemma_index_of(self.clips@, id);
        }
        None
    }

    /// Where in the clip with the given id a horizontal position lies.
    pub fn clip_ratio_at_mouse<A: Arith>(&self, m: &A, clip_id: u32, mouse_x: Num) -> (r: Option<
        Num,
    >)
        ensures
            match index_of(self.clips@, clip_id) {
                None => r is None,
                Some(i) => r matches Some(ratio) && in_unit(ratio) && gives(
                    m,
                    ratio_formula(mouse_x, self.pixels_per_second, &self.clips@[i]),
                    ratio,
                ),
            },
    {
        match self.find_clip(clip_id) {
            None => None,
            Some(i) => Some(self.ratio_in_clip(m, i, mouse_x)),
        }
    }

    /// Where in the clip at the given index a horizontal position lies.
    pub fn ratio_in_clip<A: Arith>(&self, m: &A, i: usize, x: Num) -> (r: Num)
        requires
            i < self.clips@.len(),
        ensures
            in_unit(r),
            gives(m, ratio_formula(x, self.pixels_per_second, &self.clips@[i as int]), r),
    {
        let clip = &self.clips[i];
        from(m, x).minus(from_bits(m, HEADER_WIDTH)).over(from(m, self.pixels_per_second)).minus(
            from(m, clip.start_time_secs),
        ).over(from(m, clip.duration_secs)).clamp(Num { bits: ZERO }, Num { bits: ONE }).v
    }

    /// The selected clip, if any.
    pub fn selected_clip(&self) -> (r: Option<&AudioClip>)
        ensures
            r == self.spec_selected_clip(),
    {
        match self.selected_clip_id {
            None => None,
            Some(id) => match self.find_clip(id) {
                None => None,
                Some(i) => Some(&self.clips[i]),
            },
        }
    }

    /// The selected clip, if any.
    pub open spec fn spec_selected_clip(&self) -> Option<&AudioClip> {
        match self.selected_index() {
            None => None,
            Some(i) => Some(&self.clips@[i]),
        }
    }

    /// The index of the selected clip, if any.
    pub open spec fn selected_index(&self) -> Option<int> {
        match self.selected_clip_id {
            None => None,
            Some(id) => index_of(self.clips@, id),
        }
    }
}

/// The lane at a vertical position of the window.
pub fn lane_at<A: Arith>(m: &A, y: Num) -> (r: usize)
    ensures
        gives_count(m, lane_formula(y), r),
{
    from(m, y).minus(from_bits(m, RULER_HEIGHT)).over(from_bits(m, TRACK_HEIGHT)).count()
}

} // verus!
