//! What the mouse and the buttons do to the timeline.
use vstd::prelude::*;

use crate::arith::{
    count, from, from_bits, from_count, gives, gives_count, gives_pixels, lit, val, Arith, Formula,
};
use crate::clip::AudioClip;
use crate::edit::{cut_selection, is_selection_cut, is_trimmed_after, trim_clip_after_playhead};
use crate::effects::{apply_effect_to_clip, is_effect_outcome, Effect};
use crate::num::{Num, Sample, ZERO};
use crate::timeline::{
    index_of, lane_at, lane_formula, lemma_index_of, ratio_formula, snap_formula, snap_time,
    time_formula, MouseMode, TimelineState, GRID, HEADER_WIDTH, LAST_DRAG_LANE, RULER_HEIGHT,
    TRACK_HEIGHT,
};

verus! {

/// The bits of 12: how many pixels of its lane a clip leaves free above and below.
pub const CLIP_MARGIN_Y: u64 = 0x4028_0000_0000_0000;

/// The bits of 22: the height in pixels of the strip by which a clip is dragged.
pub const GRIP_HEIGHT: u64 = 0x4036_0000_0000_0000;

/// The bits of 1.25: the factor of one zoom step.
pub const ZOOM_STEP: u64 = 0x3ff4_0000_0000_0000;

/// The bits of 500: the most pixels that a second takes.
pub const CLOSEST_ZOOM: u64 = 0x407f_4000_0000_0000;

/// The bits of 20: the fewest pixels that a second takes.
pub const WIDEST_ZOOM: u64 = 0x4034_0000_0000_0000;

/// The bits of 300: the room in pixels to the right of the timeline.
pub const RIGHT_MARGIN: u64 = 0x4072_c000_0000_0000;

/// The bits of 80: the room in pixels below the lanes.
pub const BOTTOM_MARGIN: u64 = 0x4054_0000_0000_0000;

/// The button that cancels a selection.
pub const CANCEL_BUTTON: u32 = 3;

/// The bits of 1000000000.
pub const BILLION: u64 = 0x41cd_cd65_0000_0000;

/// Nanoseconds as seconds.
pub open spec fn seconds_formula(nanos: u64) -> Formula {
    count((nanos / 1_000_000_000) as u64) + count((nanos % 1_000_000_000) as u64) / lit(BILLION)
}

/// The lower edge of the strip by which a clip on the given lane is dragged.
pub open spec fn grip_formula(lane: usize) -> Formula {
    lit(RULER_HEIGHT) + count(lane as u64) * lit(TRACK_HEIGHT) + lit(CLIP_MARGIN_Y) + lit(
        GRIP_HEIGHT,
    )
}

/// How many pixels a second takes one zoom step closer, at most 500.
pub open spec fn closer_formula(pixels_per_second: Num) -> Formula {
    (val(pixels_per_second) * lit(ZOOM_STEP)).min(Num { bits: CLOSEST_ZOOM })
}

/// How many pixels a second takes one zoom step further away, at least 20.
pub open spec fn wider_formula(pixels_per_second: Num) -> Formula {
    (val(pixels_per_second) / lit(ZOOM_STEP)).max(Num { bits: WIDEST_ZOOM })
}

/// Where a dragged clip would start without the grid.
pub open spec fn drag_formula(x: Num, pixels_per_second: Num, drag_offset: Num) -> Formula {
    (time_formula(x, pixels_per_second) - val(drag_offset)).max(Num { bits: ZERO })
}

/// Whether `after` is `before` with one clip replaced.
pub open spec fn is_with_clip(
    before: &TimelineState,
    i: int,
    clip: AudioClip,
    after: &TimelineState,
) -> bool {
    &&& after.clips@ == before.clips@.update(i, clip)
    &&& *after == (TimelineState { clips: after.clips, ..*before })
}

/// Whether `lane` is the lane to which a vertical position drags a clip.
pub open spec fn is_drag_lane<A: Arith>(m: &A, y: Num, lane: usize) -> bool {
    if (Num { bits: RULER_HEIGHT }).lt(y) {
        exists|under: usize| #[trigger]
            gives_count(m, lane_formula(y), under) && lane == (if under < LAST_DRAG_LANE {
                under
            } else {
                LAST_DRAG_LANE
            })
    } else {
        lane == 0
    }
}

/// Whether `after` is `before` with the clip put on the lane at the given time. The lane comes to
/// be, whether or not there is such a clip.
pub open spec fn is_clip_put(
    before: &TimelineState,
    clip_id: u32,
    start: Num,
    lane: usize,
    after: &TimelineState,
) -> bool {
    &&& after.clips@ == (match index_of(before.clips@, clip_id) {
        None => before.clips@,
        Some(i) => before.clips@.update(
            i,
            AudioClip { start_time_secs: start, lane, ..before.clips@[i] },
        ),
    })
    &&& *after == (TimelineState {
        clips: after.clips,
        lanes: if lane < before.lanes {
            before.lanes
        } else {
            (lane + 1) as usize
        },
        ..*before
    })
}

/// Whether `after` is `before` with the clip dragged to a position of the window.
pub open spec fn is_dragged<A: Arith>(
    m: &A,
    before: &TimelineState,
    clip_id: u32,
    x: Num,
    y: Num,
    after: &TimelineState,
) -> bool {
    exists|at: Num, start: Num, lane: usize|
        {
            &&& #[trigger] gives(
                m,
                drag_formula(x, before.pixels_per_second, before.drag_offset_secs),
                at,
            )
            &&& #[trigger] gives(m, snap_formula(at, Num { bits: GRID }), start)
            &&& #[trigger] is_drag_lane(m, y, lane)
            &&& is_clip_put(before, clip_id, start, lane, after)
        }
}

/// Whether `after` is `before` with the selection of the selected clip cancelled and no drag going
/// on.
pub open spec fn is_cancelled(before: &TimelineState, after: &TimelineState) -> bool {
    &&& after.clips@ == (match before.selected_index() {
        None => before.clips@,
        Some(i) => before.clips@.update(i, AudioClip { selection: None, ..before.clips@[i] }),
    })
    &&& *after == (TimelineState {
        clips: after.clips,
        mouse_mode: MouseMode::Idle,
        drag_clip_id: None,
        ..*before
    })
}

/// Whether `after` is `before` with the mouse put down on the clip at index `i`: on its strip it
/// starts to move the clip, below it starts to select in it. Either way the clip is selected.
pub open spec fn is_grabbed<A: Arith>(
    m: &A,
    before: &TimelineState,
    i: int,
    x: Num,
    y: Num,
    after: &TimelineState,
) -> bool {
    let clip = before.clips@[i];
    exists|grip: Num|
        {
            &&& #[trigger] gives(m, grip_formula(clip.lane), grip)
            &&& if y.lt(grip) {
                &&& gives(
                    m,
                    time_formula(x, before.pixels_per_second) - val(clip.start_time_secs),
                    after.drag_offset_secs,
                )
                &&& *after == (TimelineState {
                    selected_clip_id: Some(clip.id),
                    mouse_mode: MouseMode::MoveClip,
                    drag_clip_id: Some(clip.id),
                    drag_offset_secs: after.drag_offset_secs,
                    ..*before
                })
            } else {
                let ratio = after.selection_start_ratio;
                &&& gives(m, ratio_formula(x, before.pixels_per_second, &clip), ratio)
                &&& after.clips@ == before.clips@.update(
                    i,
                    AudioClip { selection: Some((ratio, ratio)), ..clip },
                )
                &&& *after == (TimelineState {
                    clips: after.clips,
                    selected_clip_id: Some(clip.id),
                    mouse_mode: MouseMode::SelectInClip,
                    drag_clip_id: Some(clip.id),
                    selection_start_ratio: ratio,
                    ..*before
                })
            }
        }
}

/// Whether `after` is `before` with a mouse button put down at a position of the window: the third
/// button cancels the selection; any other takes hold of the clip there; where there is no clip
/// but a lane, it moves the playhead there and selects nothing; elsewhere it does nothing.
pub open spec fn is_pressed<A: Arith>(
    m: &A,
    before: &TimelineState,
    button: u32,
    x: Num,
    y: Num,
    after: &TimelineState,
) -> bool {
    if button == CANCEL_BUTTON {
        is_cancelled(before, after)
    } else {
        exists|hit: Option<u32>| #[trigger]
            before.is_hit(m, x, y, hit) && match hit {
                Some(id) => is_grabbed(
                    m,
                    before,
                    index_of(before.clips@, id)->0,
                    x,
                    y,
                    after,
                ),
                None => if (Num { bits: HEADER_WIDTH }).le(x) && (Num { bits: RULER_HEIGHT }).le(
                    y,
                ) {
                    &&& gives(
                        m,
                        time_formula(x, before.pixels_per_second).max(Num { bits: ZERO }),
                        after.playhead_secs,
                    )
                    &&& *after == (TimelineState {
                        selected_clip_id: None,
                        mouse_mode: MouseMode::Idle,
                        drag_clip_id: None,
                        playhead_secs: after.playhead_secs,
                        ..*before
                    })
                } else {
                    *after == *before
                },
            }
    }
}

/// Whether `after` is `before` with the selection in the clip drawn from where the mouse was put
/// down to a position of the window.
pub open spec fn is_selection_drawn<A: Arith>(
    m: &A,
    before: &TimelineState,
    clip_id: u32,
    x: Num,
    after: &TimelineState,
) -> bool {
    match index_of(before.clips@, clip_id) {
        None => *after == *before,
        Some(i) => {
            let clip = before.clips@[i];
            let first = before.selection_start_ratio;
            exists|ratio: Num| #[trigger]
                gives(m, ratio_formula(x, before.pixels_per_second, &clip), ratio) && is_with_clip(
                    before,
                    i,
                    AudioClip { selection: Some((first.min(ratio), first.max(ratio))), ..clip },
                    after,
                )
        },
    }
}

/// Whether `size` is the width and height in pixels that the drawing of the state takes.
pub open spec fn is_canvas_size<A: Arith>(m: &A, state: &TimelineState, size: (i32, i32)) -> bool {
    &&& exists|duration: Num| #[trigger]
        state.is_duration(m, duration) && gives_pixels(
            m,
            lit(HEADER_WIDTH) + val(duration) * val(state.pixels_per_second) + lit(RIGHT_MARGIN),
            size.0,
        )
    &&& gives_pixels(
        m,
        lit(RULER_HEIGHT) + count(state.lanes as u64) * lit(TRACK_HEIGHT) + lit(BOTTOM_MARGIN),
        size.1,
    )
}

/// Whether `after` is `before` with the mouse moved to a position of the window. `size` is the new
/// size of the drawing where a clip was moved.
pub open spec fn is_mouse_moved<A: Arith>(
    m: &A,
    before: &TimelineState,
    x: Num,
    y: Num,
    after: &TimelineState,
    size: Option<(i32, i32)>,
) -> bool {
    match before.drag_clip_id {
        None => *after == *before && size is None,
        Some(id) => match before.mouse_mode {
            MouseMode::MoveClip => {
                &&& is_dragged(m, before, id, x, y, after)
                &&& size matches Some(s) && is_canvas_size(m, after, s)
            },
            MouseMode::SelectInClip => is_selection_drawn(m, before, id, x, after) && size is None,
            MouseMode::Idle => *after == *before && size is None,
        },
    }
}

/// Whether `after` is `before` once the clock reads `now`: the playhead moves on by what has passed
/// since the last time, and playing stops where that takes it to the end of the timeline.
pub open spec fn is_ticked<A: Arith>(
    m: &A,
    before: &TimelineState,
    now: u64,
    after: &TimelineState,
) -> bool {
    if !before.is_playing {
        *after == *before
    } else {
        let playhead = after.playhead_secs;
        &&& match before.last_tick {
            None => playhead == before.playhead_secs,
            Some(last) => gives(
                m,
                val(before.playhead_secs) + seconds_formula(
                    if last < now {
                        (now - last) as u64
                    } else {
                        0
                    },
                ),
                playhead,
            ),
        }
        &&& exists|duration: Num| #[trigger]
            before.is_duration(m, duration) && *after == (TimelineState {
                playhead_secs: playhead,
                is_playing: !duration.le(playhead),
                last_tick: if duration.le(playhead) {
                    None
                } else {
                    Some(now)
                },
                ..*before
            })
    }
}

/// Replacing a clip by one with the same id leaves every id where it was.
pub proof fn lemma_update_keeps_index(clips: Seq<AudioClip>, i: int, clip: AudioClip, id: u32)
    requires
        0 <= i < clips.len(),
        clip.id == clips[i].id,
    ensures
        index_of(clips.update(i, clip), id) == index_of(clips, id),
    decreases clips.len(),
{
    let changed = clips.update(i, clip);
    if i < clips.len() - 1 {
        lemma_update_keeps_index(clips.drop_last(), i, clip, id);
        assert(changed.drop_last() =~= clips.drop_last().update(i, clip));
    } else {
        assert(changed.drop_last() =~= clips.drop_last());
    }
}

/// A state in which a clip is replaced by a sound one with the same id, on a lane that exists, is
/// sound.
proof fn lemma_replaced(before: &TimelineState, i: int, clip: AudioClip, after: &TimelineState)
    requires
        before.wf(),
        0 <= i < before.clips@.len(),
        clip.wf(),
        clip.id == before.clips@[i].id,
        clip.lane < after.lanes,
        before.lanes <= after.lanes,
        after.lanes <= LAST_DRAG_LANE + 1 || after.lanes == before.lanes,
        after.clips@ == before.clips@.update(i, clip),
        *after == (TimelineState { clips: after.clips, lanes: after.lanes, ..*before }),
    ensures
        after.wf(),
{
    assert forall|id: u32| index_of(after.clips@, id) == #[trigger] index_of(before.clips@, id) by {
        lemma_update_keeps_index(before.clips@, i, clip, id);
    }
    assert forall|k: int| 0 <= k < after.clips@.len() implies {
        &&& (#[trigger] after.clips@[k]).wf()
        &&& 1 <= after.clips@[k].id < after.next_clip_id
        &&& after.clips@[k].lane < after.lanes
    } by {
        assert(before.clips@[k].wf());
    }
    assert forall|k: int, l: int| 0 <= k < l < after.clips@.len() implies (
    #[trigger] after.clips@[k]).id != (#[trigger] after.clips@[l]).id by {
        assert(before.clips@[k].id != before.clips@[l].id);
    }
}

impl TimelineState {
    /// The selected clip, if any, to be changed.
    pub fn selected_clip_mut(&mut self) -> (r: Option<&mut AudioClip>)
        ensures
            match old(self).selected_index() {
                None => r is None && *final(self) == *old(self),
                Some(i) => r matches Some(clip) && {
                    &&& 0 <= i < old(self).clips@.len()
                    &&& *clip == old(self).clips@[i]
                    &&& is_with_clip(old(self), i, *final(clip), final(self))
                },
            },
    {
        match self.selected_clip_id {
            None => None,
            Some(id) => match self.find_clip(id) {
                None => None,
                Some(i) => Some(&mut self.clips[i]),
            },
        }
    }

    /// Drags a clip to a position of the window.
    pub fn set_clip_position_from_mouse<A: Arith>(
        &mut self,
        m: &A,
        clip_id: u32,
        mouse_x: Num,
        mouse_y: Num,
    )
        requires
            old(self).wf(),
        ensures
            final(self).wf(),
            is_dragged(m, old(self), clip_id, mouse_x, mouse_y, final(self)),
    {
        let ghost before = *self;
        let at = from(m, mouse_x).minus(from_bits(m, HEADER_WIDTH)).over(
            from(m, self.pixels_per_second),
        ).minus(from(m, self.drag_offset_secs)).max(ZERO).v;
        let start = snap_time(m, at, Num { bits: GRID });
        let mut lane: usize = 0;
        if (Num { bits: RULER_HEIGHT }).lt(mouse_y) {
            lane = lane_at(m, mouse_y);
        }
        if lane > LAST_DRAG_LANE {
            lane = LAST_DRAG_LANE;
        }
        assert(is_drag_lane(m, mouse_y, lane));
        if lane + 1 > self.lanes {
            self.lanes = lane + 1;
        }
        match self.find_clip(clip_id) {
            None => {},
            Some(i) => {
                proof {
                    lemma_index_of(before.clips@, clip_id);
                }
                let clip = &mut self.clips[i];
                clip.start_time_secs = start;
                clip.lane = lane;
                proof {
                    lemma_replaced(&before, i as int, self.clips@[i as int], self);
                }
            },
        }
        assert(is_clip_put(&before, clip_id, start, lane, self));
    }

    /// Puts a mouse button down at a position of the window.
    pub fn press<A: Arith>(&mut self, m: &A, button: u32, x: Num, y: Num)
        requires
            old(self).wf(),
        ensures
            final(self).wf(),
            is_pressed(m, old(self), button, x, y, final(self)),
    {
        let ghost before = *self;
        if button == CANCEL_BUTTON {
            self.mouse_mode = MouseMode::Idle;
            self.drag_clip_id = None;
            let ghost idle = *self;
            match self.selected_clip_mut() {
                None => {},
                Some(clip) => {
                    clip.selection = None;
                },
            }
            proof {
                if let Some(i) = before.selected_index() {
                    lemma_index_of(before.clips@, before.selected_clip_id->0);
                    lemma_replaced(&idle, i, self.clips@[i], self);
                }
            }
            return;
        }
        let hit = self.hit_test_clip(m, x, y);
        assert(before.is_hit(m, x, y, hit));
        match hit {
            Some(id) => {
                proof {
                    lemma_index_of(before.clips@, id);
                }
                let found = self.find_clip(id);
                if let Some(i) = found {
                    self.grab(m, i, x, y);
                }
            },
            None => {
                if (Num { bits: HEADER_WIDTH }).le(x) && (Num { bits: RULER_HEIGHT }).le(y) {
                    self.selected_clip_id = None;
                    self.mouse_mode = MouseMode::Idle;
                    self.drag_clip_id = None;
                    self.playhead_secs = from(m, x).minus(from_bits(m, HEADER_WIDTH)).over(
                        from(m, self.pixels_per_second),
                    ).max(ZERO).v;
                }
            },
        }
    }

    /// Puts the mouse down on the clip at the given index.
    pub fn grab<A: Arith>(&mut self, m: &A, i: usize, x: Num, y: Num)
        requires
            old(self).wf(),
            i < old(self).clips@.len(),
        ensures
            final(self).wf(),
            is_grabbed(m, old(self), i as int, x, y, final(self)),
    {
        let ghost before = *self;
        let id = self.clips[i].id;
        let clip_start = self.clips[i].start_time_secs;
        let lane: usize = self.clips[i].lane;
        proof {
            lemma_index_of(before.clips@, id);
        }
        self.selected_clip_id = Some(id);
        self.drag_clip_id = Some(id);
        let ratio = self.ratio_in_clip(m, i, x);
        let lane_y = from_bits(m, RULER_HEIGHT).plus(
            from_count(m, lane as u64).times(from_bits(m, TRACK_HEIGHT)),
        );
        let grip = lane_y.plus(from_bits(m, CLIP_MARGIN_Y)).plus(from_bits(m, GRIP_HEIGHT)).v;
        if y.lt(grip) {
            self.mouse_mode = MouseMode::MoveClip;
            self.drag_offset_secs = from(m, x).minus(from_bits(m, HEADER_WIDTH)).over(
                from(m, self.pixels_per_second),
            ).minus(from(m, clip_start)).v;
        } else {
            self.mouse_mode = MouseMode::SelectInClip;
            self.selection_start_ratio = ratio;
            let ghost grabbed = *self;
            let clip = &mut self.clips[i];
            clip.selection = Some((ratio, ratio));
            proof {
                lemma_replaced(&grabbed, i as int, self.clips@[i as int], self);
            }
        }
    }

    /// Moves the mouse to a position of the window. Where that moves a clip, gives the new size of
    /// the drawing.
    pub fn move_mouse<A: Arith>(&mut self, m: &A, x: Num, y: Num) -> (size: Option<(i32, i32)>)
        requires
            old(self).wf(),
        ensures
            final(self).wf(),
            is_mouse_moved(m, old(self), x, y, final(self), size),
    {
        match self.drag_clip_id {
            None => None,
            Some(id) => match self.mouse_mode {
                MouseMode::MoveClip => {
                    self.set_clip_position_from_mouse(m, id, x, y);
                    Some(self.canvas_size(m))
                },
                MouseMode::SelectInClip => {
                    self.draw_selection(m, id, x);
                    None
                },
                MouseMode::Idle => None,
            },
        }
    }

    /// Draws the selection in a clip from where the mouse was put down to a position of the window.
    pub fn draw_selection<A: Arith>(&mut self, m: &A, clip_id: u32, x: Num)
        requires
            old(self).wf(),
        ensures
            final(self).wf(),
            is_selection_drawn(m, old(self), clip_id, x, final(self)),
    {
        let ghost before = *self;
        match self.find_clip(clip_id) {
            None => {},
            Some(i) => {
                proof {
                    lemma_index_of(before.clips@, clip_id);
                }
                let ratio = self.ratio_in_clip(m, i, x);
                let first = self.selection_start_ratio;
                let clip = &mut self.clips[i];
                clip.selection = Some((first.min(ratio), first.max(ratio)));
                proof {
                    lemma_replaced(&before, i as int, self.clips@[i as int], self);
                }
            },
        }
    }

    /// Lets the mouse button go.
    pub fn release(&mut self)
        requires
            old(self).wf(),
        ensures
            final(self).wf(),
            *final(self) == (TimelineState {
                mouse_mode: MouseMode::Idle,
                drag_clip_id: None,
                ..*old(self)
            }),
    {
        self.mouse_mode = MouseMode::Idle;
        self.drag_clip_id = None;
    }

    /// The width and height in pixels that the drawing takes.
    pub fn canvas_size<A: Arith>(&self, m: &A) -> (size: (i32, i32))
        ensures
            is_canvas_size(m, self, size),
    {
        let duration = self.timeline_duration_secs(m);
        let width = from_bits(m, HEADER_WIDTH).plus(
            from(m, duration).times(from(m, self.pixels_per_second)),
        ).plus(from_bits(m, RIGHT_MARGIN)).pixels();
        let height = from_bits(m, RULER_HEIGHT).plus(
            from_count(m, self.lanes as u64).times(from_bits(m, TRACK_HEIGHT)),
        ).plus(from_bits(m, BOTTOM_MARGIN)).pixels();
        (width, height)
    }

    /// Zooms in by one step, and gives the new size of the drawing.
    pub fn zoom_in<A: Arith>(&mut self, m: &A) -> (size: (i32, i32))
        requires
            old(self).wf(),
        ensures
            final(self).wf(),
            gives(
                m,
                closer_formula(old(self).pixels_per_second),
                final(self).pixels_per_second,
            ),
            final(self).pixels_per_second.le(Num { bits: CLOSEST_ZOOM }),
            *final(self) == (TimelineState {
                pixels_per_second: final(self).pixels_per_second,
                ..*old(self)
            }),
            is_canvas_size(m, final(self), size),
    {
        self.pixels_per_second = from(m, self.pixels_per_second).times(
            from_bits(m, ZOOM_STEP),
        ).min(Num { bits: CLOSEST_ZOOM }).v;
        self.canvas_size(m)
    }

    /// Zooms out by one step, and gives the new size of the drawing.
    pub fn zoom_out<A: Arith>(&mut self, m: &A) -> (size: (i32, i32))
        requires
            old(self).wf(),
        ensures
            final(self).wf(),
            gives(
                m,
                wider_formula(old(self).pixels_per_second),
                final(self).pixels_per_second,
            ),
            (Num { bits: WIDEST_ZOOM }).le(final(self).pixels_per_second),
            *final(self) == (TimelineState {
                pixels_per_second: final(self).pixels_per_second,
                ..*old(self)
            }),
            is_canvas_size(m, final(self), size),
    {
        self.pixels_per_second = from(m, self.pixels_per_second).over(
            from_bits(m, ZOOM_STEP),
        ).max(WIDEST_ZOOM).v;
        self.canvas_size(m)
    }

    /// Sets the volume that the volume effect gives to the selected clip.
    pub fn set_volume(&mut self, volume: Sample)
        requires
            old(self).wf(),
        ensures
            final(self).wf(),
            match old(self).selected_index() {
                None => *final(self) == *old(self),
                Some(i) => is_with_clip(
                    old(self),
                    i,
                    AudioClip { volume, ..old(self).clips@[i] },
                    final(self),
                ),
            },
    {
        let ghost before = *self;
        match self.selected_clip_mut() {
            None => {},
            Some(clip) => {
                clip.volume = volume;
            },
        }
        proof {
            if let Some(i) = before.selected_index() {
                lemma_index_of(before.clips@, before.selected_clip_id->0);
                lemma_replaced(&before, i, self.clips@[i], self);
            }
        }
    }

    /// Sets the speed that the speed effect gives to the selected clip.
    pub fn set_speed(&mut self, speed: Num)
        requires
            old(self).wf(),
        ensures
            final(self).wf(),
            match old(self).selected_index() {
                None => *final(self) == *old(self),
                Some(i) => is_with_clip(
                    old(self),
                    i,
                    AudioClip { speed, ..old(self).clips@[i] },
                    final(self),
                ),
            },
    {
        let ghost before = *self;
        match self.selected_clip_mut() {
            None => {},
            Some(clip) => {
                clip.speed = speed;
            },
        }
        proof {
            if let Some(i) = before.selected_index() {
                lemma_index_of(before.clips@, before.selected_clip_id->0);
                lemma_replaced(&before, i, self.clips@[i], self);
            }
        }
    }

    /// Sets the gain that the bass effect gives to the selected clip.
    pub fn set_bass_gain(&mut self, bass_gain: Sample)
        requires
            old(self).wf(),
        ensures
            final(self).wf(),
            match old(self).selected_index() {
                None => *final(self) == *old(self),
                Some(i) => is_with_clip(
                    old(self),
                    i,
                    AudioClip { bass_gain, ..old(self).clips@[i] },
                    final(self),
                ),
            },
    {
        let ghost before = *self;
        match self.selected_clip_mut() {
            None => {},
            Some(clip) => {
                clip.bass_gain = bass_gain;
            },
        }
        proof {
            if let Some(i) = before.selected_index() {
                lemma_index_of(before.clips@, before.selected_clip_id->0);
                lemma_replaced(&before, i, self.clips@[i], self);
            }
        }
    }

    /// Applies the effect of that name to the selected clip.
    pub fn apply_effect<A: Arith>(&mut self, m: &A, effect: &str)
        requires
            old(self).wf(),
        ensures
            final(self).wf(),
            match old(self).selected_index() {
                None => *final(self) == *old(self),
                Some(i) => {
                    &&& is_with_clip(old(self), i, final(self).clips@[i], final(self))
                    &&& is_effect_outcome(
                        m,
                        &old(self).clips@[i],
                        Effect::spec_named(effect@),
                        &final(self).clips@[i],
                    )
                },
            },
    {
        let ghost before = *self;
        proof {
            if let Some(id) = before.selected_clip_id {
                lemma_index_of(before.clips@, id);
            }
        }
        match self.selected_clip_mut() {
            None => {},
            Some(clip) => {
                apply_effect_to_clip(m, clip, effect);
            },
        }
        proof {
            if let Some(i) = before.selected_index() {
                lemma_replaced(&before, i, self.clips@[i], self);
            }
        }
    }

    /// Cuts the selection out of the selected clip.
    pub fn cut<A: Arith>(&mut self, m: &A)
        requires
            old(self).wf(),
        ensures
            final(self).wf(),
            match old(self).selected_index() {
                None => *final(self) == *old(self),
                Some(i) => {
                    &&& is_with_clip(old(self), i, final(self).clips@[i], final(self))
                    &&& is_selection_cut(m, &old(self).clips@[i], &final(self).clips@[i])
                },
            },
    {
        let ghost before = *self;
        proof {
            if let Some(id) = before.selected_clip_id {
                lemma_index_of(before.clips@, id);
            }
        }
        match self.selected_clip_mut() {
            None => {},
            Some(clip) => {
                cut_selection(m, clip);
            },
        }
        proof {
            if let Some(i) = before.selected_index() {
                lemma_replaced(&before, i, self.clips@[i], self);
            }
        }
    }

    /// Cuts off what lies behind the playhead in the selected clip.
    pub fn delete_after_playhead<A: Arith>(&mut self, m: &A)
        requires
            old(self).wf(),
        ensures
            final(self).wf(),
            match old(self).selected_index() {
                None => *final(self) == *old(self),
                Some(i) => {
                    &&& is_with_clip(old(self), i, final(self).clips@[i], final(self))
                    &&& is_trimmed_after(
                        m,
                        &old(self).clips@[i],
                        old(self).playhead_secs,
                        &final(self).clips@[i],
                    )
                },
            },
    {
        let ghost before = *self;
        proof {
            if let Some(id) = before.selected_clip_id {
                lemma_index_of(before.clips@, id);
            }
        }
        let playhead = self.playhead_secs;
        match self.selected_clip_mut() {
            None => {},
            Some(clip) => {
                trim_clip_after_playhead(m, clip, playhead);
            },
        }
        proof {
            if let Some(i) = before.selected_index() {
                lemma_replaced(&before, i, self.clips@[i], self);
            }
        }
    }

    /// Starts to play when the clock reads `now`.
    pub fn play(&mut self, now: u64)
        requires
            old(self).wf(),
        ensures
            final(self).wf(),
            *final(self) == (TimelineState {
                is_playing: true,
                last_tick: Some(now),
                ..*old(self)
            }),
    {
        self.is_playing = true;
        self.last_tick = Some(now);
    }

    /// Stops playing.
    pub fn stop(&mut self)
        requires
            old(self).wf(),
        ensures
            final(self).wf(),
            *final(self) == (TimelineState { is_playing: false, last_tick: None, ..*old(self) }),
    {
        self.is_playing = false;
        self.last_tick = None;
    }

    /// Moves the playhead on to where it is when the clock reads `now`. Gives whether there is
    /// anything to draw anew.
    pub fn tick<A: Arith>(&mut self, m: &A, now: u64) -> (r: bool)
        requires
            old(self).wf(),
        ensures
            final(self).wf(),
            r == old(self).is_playing,
            is_ticked(m, old(self), now, final(self)),
    {
        let ghost before = *self;
        if !self.is_playing {
            return false;
        }
        match self.last_tick {
            None => {},
            Some(last) => {
                let nanos: u64 = if last < now {
                    now - last
                } else {
                    0
                };
                let fraction = from_count(m, nanos % 1_000_000_000).over(from_bits(m, BILLION));
                let passed = from_count(m, nanos / 1_000_000_000).plus(fraction);
                self.playhead_secs = from(m, self.playhead_secs).plus(passed).v;
            },
        }
        self.last_tick = Some(now);
        let duration = self.timeline_duration_secs(m);
        assert(before.is_duration(m, duration));
        if duration.le(self.playhead_secs) {
            self.is_playing = false;
            self.last_tick = None;
        }
        true
    }
}

} // verus!
