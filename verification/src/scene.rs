//! What is drawn of the timeline, and where.
use vstd::prelude::*;

use crate::arith::{
    count, from, from_bits, from_count, from_sample, gives, gives_count, lit, val, Arith, Formula,
};
use crate::clip::{AudioClip, Color};
use crate::mouse::{CLIP_MARGIN_Y, GRIP_HEIGHT};
use crate::num::{Num, Sample, ONE};
use crate::timeline::{
    lemma_index_of, TimelineState, HEADER_WIDTH, RULER_HEIGHT, TRACK_HEIGHT,
};

verus! {

/// The bits of 35: below so many pixels per second only every fifth second is marked.
pub const COARSE_ZOOM: u64 = 0x4041_8000_0000_0000;

/// The bits of 10: how many seconds past its end the timeline is marked.
pub const MARKS_PAST_END: u64 = 0x4024_0000_0000_0000;

/// The bits of 30: how far down its lane the name of a lane stands.
pub const LANE_LABEL_Y: u64 = 0x403e_0000_0000_0000;

/// The bits of 62: the height of a clip.
pub const CLIP_HEIGHT: u64 = 0x404f_0000_0000_0000;

/// The bits of 8: the least width of a clip.
pub const LEAST_CLIP_WIDTH: u64 = 0x4020_0000_0000_0000;

/// The bits of 8: how far in the name of a clip stands.
pub const NAME_X: u64 = 0x4020_0000_0000_0000;

/// The bits of 17: how far down a clip its name stands.
pub const NAME_Y: u64 = 0x4031_0000_0000_0000;

/// The bits of 34: the height of a clip's waveform.
pub const WAVE_HEIGHT: u64 = 0x4041_0000_0000_0000;

/// The bits of 17: half the height of a clip's waveform.
pub const HALF_WAVE_HEIGHT: u64 = 0x4031_0000_0000_0000;

/// The bits of 4: how far in the background of a waveform starts.
pub const BACK_X: u64 = 0x4010_0000_0000_0000;

/// The bits of 8: how much narrower than the clip the background of a waveform is.
pub const BACK_NARROWING: u64 = 0x4020_0000_0000_0000;

/// The bits of 5: how far in the bars of a waveform start.
pub const BARS_X: u64 = 0x4014_0000_0000_0000;

/// The bits of 10: how much narrower than the clip the bars of a waveform are together.
pub const BARS_NARROWING: u64 = 0x4024_0000_0000_0000;

/// The bits of 0.48: the share of the waveform's height that the loudest bar takes up or down.
pub const BAR_SHARE: u64 = 0x3fde_b851_eb85_1eb8;

/// The bits of 100: what the whole of a clip is in percent.
pub const PERCENT: u64 = 0x4059_0000_0000_0000;

/// A second that is marked on the timeline.
#[derive(Clone, Copy, Debug, PartialEq, Eq, Structural)]
pub struct Mark {
    pub x: Num,
    pub second: i32,
    /// Whether the second is a multiple of five.
    pub major: bool,
}

/// A lane.
#[derive(Clone, Copy, Debug, PartialEq, Eq, Structural)]
pub struct LaneBand {
    pub top: Num,
    pub bottom: Num,
    pub label_y: Num,
    pub even: bool,
    pub number: usize,
}

/// A part of a clip from its upper to its lower edge.
#[derive(Clone, Copy, Debug, PartialEq, Eq, Structural)]
pub struct Strip {
    pub x: Num,
    pub width: Num,
}

/// A bar of a waveform.
#[derive(Clone, Copy, Debug, PartialEq, Eq, Structural)]
pub struct Bar {
    pub x: Num,
    pub top: Num,
    pub bottom: Num,
}

/// The waveform of a clip.
#[derive(Debug)]
pub struct Waveform {
    pub back: Strip,
    pub bars: Vec<Bar>,
}

/// A clip.
#[derive(Debug)]
pub struct ClipBox {
    pub x: Num,
    pub y: Num,
    pub width: Num,
    pub selected: bool,
    pub zones: Vec<(Strip, Color)>,
    pub selection: Option<Strip>,
    pub name_x: Num,
    pub name_y: Num,
    pub wave_y: Num,
    pub wave: Option<Waveform>,
}

/// What is said of the selection.
#[derive(Debug)]
pub enum Caption {
    /// The name of the selected clip, its start, the number of its lane, and what part of it is
    /// selected in percent.
    Clip { name: String, start: Num, lane_number: usize, percent: Option<(Num, Num)> },
    /// Where the playhead is.
    Playhead { secs: Num },
}

/// The horizontal position of a time.
pub open spec fn x_formula(secs: Formula, pixels_per_second: Num) -> Formula {
    lit(HEADER_WIDTH) + secs * val(pixels_per_second)
}

/// The vertical position of a lane, or of the lower edge of so many lanes.
pub open spec fn lane_y_formula(lane: usize) -> Formula {
    lit(RULER_HEIGHT) + count(lane as u64) * lit(TRACK_HEIGHT)
}

/// The `k`-th second that is marked: every second, or every fifth.
pub open spec fn marked_second(coarse: bool, k: int) -> int {
    if coarse {
        5 * k
    } else {
        k
    }
}

/// Whether `mark` marks the given second.
pub open spec fn is_mark<A: Arith>(
    m: &A,
    pixels_per_second: Num,
    second: int,
    mark: Mark,
) -> bool {
    &&& gives(m, x_formula(count(second as u64), pixels_per_second), mark.x)
    &&& mark.second == (if second < i32::MAX {
        second
    } else {
        i32::MAX as int
    })
    &&& mark.major == (mark.second as int % 5 == 0)
}

/// Whether `marks` mark the seconds from 0 to 10 past the end of the timeline, all of them or every
/// fifth.
pub open spec fn are_marks<A: Arith>(
    m: &A,
    state: &TimelineState,
    coarse: bool,
    marks: Seq<Mark>,
) -> bool {
    exists|duration: Num, last: usize|
        {
            &&& #[trigger] state.is_duration(m, duration)
            &&& #[trigger] gives_count(m, val(duration) + lit(MARKS_PAST_END), last)
            &&& marks.len() == 1 + (if coarse {
                last / 5
            } else {
                last
            })
            &&& forall|k: int|
                0 <= k < marks.len() ==> is_mark(
                    m,
                    state.pixels_per_second,
                    marked_second(coarse, k),
                    #[trigger] marks[k],
                )
        }
}

/// Whether `band` is where the given lane is drawn.
pub open spec fn is_lane_band<A: Arith>(m: &A, lane: usize, band: LaneBand) -> bool {
    &&& gives(m, lane_y_formula(lane), band.top)
    &&& gives(m, val(band.top) + lit(TRACK_HEIGHT), band.bottom)
    &&& gives(m, val(band.top) + lit(LANE_LABEL_Y), band.label_y)
    &&& band.even == (lane % 2 == 0)
    &&& band.number == lane + 1
}

/// Whether `strip` is the part of a box from one ratio of its width to another.
pub open spec fn is_strip<A: Arith>(
    m: &A,
    x: Num,
    width: Num,
    start: Num,
    end: Num,
    strip: Strip,
) -> bool {
    &&& gives(m, val(x) + val(start) * val(width), strip.x)
    &&& gives(m, (val(end) - val(start)) * val(width), strip.width)
}

/// Whether `bar` is bar `i` of `n` bars of a waveform that lies at `x` and `y`. The bar shows one
/// of the amplitudes: they are spread evenly over the bars.
pub open spec fn is_bar<A: Arith>(
    m: &A,
    amps: Seq<Sample>,
    x: Num,
    y: Num,
    width: Num,
    n: usize,
    i: int,
    bar: Bar,
) -> bool {
    let amp = amps[i * amps.len() / n as int];
    exists|middle: Num, height: Num|
        {
            &&& #[trigger] gives(m, val(y) + lit(HALF_WAVE_HEIGHT), middle)
            &&& #[trigger] gives(
                m,
                (Formula::Widened(amp) * lit(WAVE_HEIGHT) * lit(BAR_SHARE)).max(
                    Num { bits: ONE },
                ),
                height,
            )
            &&& gives(
                m,
                val(x) + lit(BARS_X) + count(i as u64) * ((val(width) - lit(BARS_NARROWING)).max(
                    Num { bits: ONE },
                ) / count(n as u64)),
                bar.x,
            )
            &&& gives(m, val(middle) - val(height), bar.top)
            &&& gives(m, val(middle) + val(height), bar.bottom)
        }
}

/// Whether `bars` are the `n` bars of a waveform that lies at `x` and `y`.
pub open spec fn are_bars<A: Arith>(
    m: &A,
    amps: Seq<Sample>,
    x: Num,
    y: Num,
    width: Num,
    n: usize,
    bars: Seq<Bar>,
) -> bool {
    &&& bars.len() == n
    &&& forall|i: int|
        0 <= i < n ==> is_bar(m, amps, x, y, width, n, i, #[trigger] bars[i])
}

/// Whether `wave` is the waveform of a clip that lies at `x` and `y`: one bar per pixel of the
/// clip's width, at most one per amplitude; nothing where that leaves no bar.
pub open spec fn is_waveform<A: Arith>(
    m: &A,
    clip: &AudioClip,
    x: Num,
    y: Num,
    width: Num,
    wave: Option<Waveform>,
) -> bool {
    let amps = clip.amplitudes@;
    if amps.len() == 0 {
        wave is None
    } else {
        exists|most: Num, n: usize|
            {
                &&& #[trigger] gives(m, count(amps.len() as u64), most)
                &&& #[trigger] gives_count(m, val(width.min(most)), n)
                &&& if n == 0 {
                    wave is None
                } else {
                    wave matches Some(w) && {
                        &&& gives(m, val(x) + lit(BACK_X), w.back.x)
                        &&& gives(
                            m,
                            (val(width) - lit(BACK_NARROWING)).max(Num { bits: ONE }),
                            w.back.width,
                        )
                        &&& are_bars(m, amps, x, y, width, n, w.bars@)
                    }
                }
            }
    }
}

/// Whether `b` is where a clip is drawn.
pub open spec fn is_clip_box<A: Arith>(
    m: &A,
    state: &TimelineState,
    clip: &AudioClip,
    b: &ClipBox,
) -> bool {
    &&& gives(m, x_formula(val(clip.start_time_secs), state.pixels_per_second), b.x)
    &&& gives(m, lane_y_formula(clip.lane) + lit(CLIP_MARGIN_Y), b.y)
    &&& gives(
        m,
        (val(clip.duration_secs) * val(state.pixels_per_second)).max(
            Num { bits: LEAST_CLIP_WIDTH },
        ),
        b.width,
    )
    &&& b.selected == (state.selected_clip_id == Some(clip.id))
    &&& b.zones@.len() == clip.effect_zones@.len()
    &&& forall|i: int|
        0 <= i < b.zones@.len() ==> {
            let zone = clip.effect_zones@[i];
            &&& is_strip(m, b.x, b.width, zone.start, zone.end, (#[trigger] b.zones@[i]).0)
            &&& b.zones@[i].1 == zone.color
        }
    &&& match clip.selection {
        None => b.selection is None,
        Some((start, end)) => b.selection matches Some(strip) && is_strip(
            m,
            b.x,
            b.width,
            start,
            end,
            strip,
        ),
    }
    &&& gives(m, val(b.x) + lit(NAME_X), b.name_x)
    &&& gives(m, val(b.y) + lit(NAME_Y), b.name_y)
    &&& gives(m, val(b.y) + lit(GRIP_HEIGHT), b.wave_y)
    &&& is_waveform(m, clip, b.x, b.wave_y, b.width, b.wave)
}

/// The mark of one second.
fn mark<A: Arith>(m: &A, pixels_per_second: Num, second: usize) -> (r: Mark)
    ensures
        is_mark(m, pixels_per_second, second as int, r),
{
    let shown: i32 = if second < i32::MAX as usize {
        second as i32
    } else {
        i32::MAX
    };
    let x = from_bits(m, HEADER_WIDTH).plus(
        from_count(m, second as u64).times(from(m, pixels_per_second)),
    ).v;
    Mark { x, second: shown, major: shown % 5 == 0 }
}

/// A part of a box from one ratio of its width to another.
fn strip<A: Arith>(m: &A, x: Num, width: Num, start: Num, end: Num) -> (r: Strip)
    ensures
        is_strip(m, x, width, start, end, r),
{
    Strip {
        x: from(m, x).plus(from(m, start).times(from(m, width))).v,
        width: from(m, end).minus(from(m, start)).times(from(m, width)).v,
    }
}

/// A bar of a waveform.
fn bar<A: Arith>(
    m: &A,
    amps: &Vec<Sample>,
    x: Num,
    y: Num,
    width: Num,
    n: usize,
    i: usize,
) -> (r: Bar)
    requires
        i < n,
        amps@.len() > 0,
    ensures
        is_bar(m, amps@, x, y, width, n, i as int, r),
{
    let total: usize = amps.len();
    proof {
        lemma_spread(i as int, total as int, n as int);
    }
    let at: usize = ((i as u128 * total as u128) / n as u128) as usize;
    let middle = from(m, y).plus(from_bits(m, HALF_WAVE_HEIGHT)).v;
    let height = from_sample(m, amps[at]).times(from_bits(m, WAVE_HEIGHT)).times(
        from_bits(m, BAR_SHARE),
    ).max(ONE).v;
    let step = from(m, width).minus(from_bits(m, BARS_NARROWING)).max(ONE).over(
        from_count(m, n as u64),
    );
    let bar_x = from(m, x).plus(from_bits(m, BARS_X)).plus(
        from_count(m, i as u64).times(step),
    ).v;
    Bar {
        x: bar_x,
        top: from(m, middle).minus(from(m, height)).v,
        bottom: from(m, middle).plus(from(m, height)).v,
    }
}

/// Spreading `total` things over `n` places stays within them.
proof fn lemma_spread(i: int, total: int, n: int)
    requires
        0 <= i < n <= usize::MAX,
        0 < total <= usize::MAX,
    ensures
        0 <= i * total <= u128::MAX,
        0 <= i * total / n < total,
{
    assert(0 <= i * total < n * total) by (nonlinear_arith)
        requires
            0 <= i < n,
            0 < total,
    ;
    assert(i * total <= 0xffff_ffff_ffff_ffff * 0xffff_ffff_ffff_ffff) by (nonlinear_arith)
        requires
            0 <= i <= 0xffff_ffff_ffff_ffff,
            0 < total <= 0xffff_ffff_ffff_ffff,
    ;
    assert(0 <= i * total / n < total) by (nonlinear_arith)
        requires
            0 <= i * total < n * total,
            0 < n,
            0 < total,
    ;
}

/// The waveform of a clip that lies at `x` and `y`.
pub fn waveform<A: Arith>(m: &A, clip: &AudioClip, x: Num, y: Num, width: Num) -> (r: Option<
    Waveform,
>)
    ensures
        is_waveform(m, clip, x, y, width, r),
{
    let total: usize = clip.amplitudes.len();
    if total == 0 {
        return None;
    }
    let most = from_count(m, total as u64).v;
    let n: usize = from(m, width.min(most)).count();
    if n == 0 {
        return None;
    }
    let back = Strip {
        x: from(m, x).plus(from_bits(m, BACK_X)).v,
        width: from(m, width).minus(from_bits(m, BACK_NARROWING)).max(ONE).v,
    };
    let mut bars: Vec<Bar> = Vec::new();
    let mut i: usize = 0;
    while i < n
        invariant
            i <= n,
            clip.amplitudes@.len() > 0,
            bars@.len() == i,
            forall|j: int|
                0 <= j < i ==> is_bar(
                    m,
                    clip.amplitudes@,
                    x,
                    y,
                    width,
                    n,
                    j,
                    #[trigger] bars@[j],
                ),
        decreases n - i,
    {
        bars.push(bar(m, &clip.amplitudes, x, y, width, n, i));
        i += 1;
    }
    Some(Waveform { back, bars })
}

impl TimelineState {
    /// The marks of seconds, all of them or every fifth.
    fn marks<A: Arith>(&self, m: &A, coarse: bool) -> (r: Vec<Mark>)
        ensures
            are_marks(m, self, coarse, r@),
    {
        let duration = self.timeline_duration_secs(m);
        let last: usize = from(m, duration).plus(from_bits(m, MARKS_PAST_END)).count();
        let n: usize = if coarse {
            last / 5
        } else {
            last
        };
        let mut r: Vec<Mark> = Vec::new();
        let mut k: usize = 0;
        while k < n
            invariant
                k <= n,
                marked_second(coarse, n as int) <= last,
                r@.len() == k,
                forall|j: int|
                    0 <= j < k ==> is_mark(
                        m,
                        self.pixels_per_second,
                        marked_second(coarse, j),
                        #[trigger] r@[j],
                    ),
            decreases n - k,
        {
            let second: usize = if coarse {
                5 * k
            } else {
                k
            };
            r.push(mark(m, self.pixels_per_second, second));
            k += 1;
        }
        let second: usize = if coarse {
            5 * n
        } else {
            n
        };
        r.push(mark(m, self.pixels_per_second, second));
        r
    }

    /// The marks of the ruler: every second, or every fifth where a second is narrow.
    pub fn ruler<A: Arith>(&self, m: &A) -> (r: Vec<Mark>)
        ensures
            are_marks(
                m,
                self,
                self.pixels_per_second.lt(Num { bits: COARSE_ZOOM }),
                r@,
            ),
    {
        self.marks(m, self.pixels_per_second.lt(Num { bits: COARSE_ZOOM }))
    }

    /// The lines of the grid: every second.
    pub fn grid<A: Arith>(&self, m: &A) -> (r: Vec<Mark>)
        ensures
            are_marks(m, self, false, r@),
    {
        self.marks(m, false)
    }

    /// The lower edge of the lanes.
    pub fn lanes_bottom<A: Arith>(&self, m: &A) -> (r: Num)
        ensures
            gives(m, lane_y_formula(self.lanes), r),
    {
        from_bits(m, RULER_HEIGHT).plus(
            from_count(m, self.lanes as u64).times(from_bits(m, TRACK_HEIGHT)),
        ).v
    }

    /// Where the lanes are drawn.
    pub fn lane_bands<A: Arith>(&self, m: &A) -> (r: Vec<LaneBand>)
        ensures
            r@.len() == self.lanes,
            forall|i: int| 0 <= i < self.lanes ==> is_lane_band(m, i as usize, #[trigger] r@[i]),
    {
        let mut r: Vec<LaneBand> = Vec::new();
        let mut lane: usize = 0;
        while lane < self.lanes
            invariant
                lane <= self.lanes,
                r@.len() == lane,
                forall|i: int| 0 <= i < lane ==> is_lane_band(m, i as usize, #[trigger] r@[i]),
            decreases self.lanes - lane,
        {
            let top = from_bits(m, RULER_HEIGHT).plus(
                from_count(m, lane as u64).times(from_bits(m, TRACK_HEIGHT)),
            ).v;
            r.push(
                LaneBand {
                    top,
                    bottom: from(m, top).plus(from_bits(m, TRACK_HEIGHT)).v,
                    label_y: from(m, top).plus(from_bits(m, LANE_LABEL_Y)).v,
                    even: lane % 2 == 0,
                    number: lane + 1,
                },
            );
            lane += 1;
        }
        r
    }

    /// Where a clip is drawn.
    pub fn clip_box<A: Arith>(&self, m: &A, clip: &AudioClip) -> (r: ClipBox)
        ensures
            is_clip_box(m, self, clip, &r),
    {
        let x = from_bits(m, HEADER_WIDTH).plus(
            from(m, clip.start_time_secs).times(from(m, self.pixels_per_second)),
        ).v;
        let y = from_bits(m, RULER_HEIGHT).plus(
            from_count(m, clip.lane as u64).times(from_bits(m, TRACK_HEIGHT)),
        ).plus(from_bits(m, CLIP_MARGIN_Y)).v;
        let width = from(m, clip.duration_secs).times(from(m, self.pixels_per_second)).max(
            LEAST_CLIP_WIDTH,
        ).v;
        let selected = match self.selected_clip_id {
            None => false,
            Some(id) => id == clip.id,
        };
        let mut zones: Vec<(Strip, Color)> = Vec::new();
        let mut i: usize = 0;
        while i < clip.effect_zones.len()
            invariant
                i <= clip.effect_zones@.len(),
                zones@.len() == i,
                forall|j: int|
                    0 <= j < i ==> {
                        let zone = clip.effect_zones@[j];
                        &&& is_strip(m, x, width, zone.start, zone.end, (#[trigger] zones@[j]).0)
                        &&& zones@[j].1 == zone.color
                    },
            decreases clip.effect_zones@.len() - i,
        {
            let zone = clip.effect_zones[i];
            zones.push((strip(m, x, width, zone.start, zone.end), zone.color));
            i += 1;
        }
        let selection = match clip.selection {
            None => None,
            Some((start, end)) => Some(strip(m, x, width, start, end)),
        };
        let wave_y = from(m, y).plus(from_bits(m, GRIP_HEIGHT)).v;
        ClipBox {
            x,
            y,
            width,
            selected,
            zones,
            selection,
            name_x: from(m, x).plus(from_bits(m, NAME_X)).v,
            name_y: from(m, y).plus(from_bits(m, NAME_Y)).v,
            wave_y,
            wave: waveform(m, clip, x, wave_y, width),
        }
    }

    /// Where the clips are drawn, one over the other in this order.
    pub fn clip_boxes<A: Arith>(&self, m: &A) -> (r: Vec<ClipBox>)
        ensures
            r@.len() == self.clips@.len(),
            forall|i: int|
                0 <= i < r@.len() ==> is_clip_box(m, self, &self.clips@[i], &#[trigger] r@[i]),
    {
        let mut r: Vec<ClipBox> = Vec::new();
        let mut i: usize = 0;
        while i < self.clips.len()
            invariant
                i <= self.clips@.len(),
                r@.len() == i,
                forall|j: int|
                    0 <= j < i ==> is_clip_box(m, self, &self.clips@[j], &#[trigger] r@[j]),
            decreases self.clips@.len() - i,
        {
            r.push(self.clip_box(m, &self.clips[i]));
            i += 1;
        }
        r
    }

    /// The horizontal position of the playhead.
    pub fn playhead_x<A: Arith>(&self, m: &A) -> (r: Num)
        ensures
            gives(m, x_formula(val(self.playhead_secs), self.pixels_per_second), r),
    {
        from_bits(m, HEADER_WIDTH).plus(
            from(m, self.playhead_secs).times(from(m, self.pixels_per_second)),
        ).v
    }

    /// What is said of the selection.
    pub fn caption<A: Arith>(&self, m: &A) -> (r: Caption)
        requires
            self.wf(),
        ensures
            match self.selected_index() {
                None => r matches Caption::Playhead { secs } && secs == self.playhead_secs,
                Some(i) => r matches Caption::Clip { name, start, lane_number, percent } && {
                    let clip = self.clips@[i];
                    &&& name@ == clip.name@
                    &&& start == clip.start_time_secs
                    &&& lane_number == clip.lane + 1
                    &&& match clip.selection {
                        None => percent is None,
                        Some((a, b)) => percent matches Some((p, q)) && gives(
                            m,
                            val(a) * lit(PERCENT),
                            p,
                        ) && gives(m, val(b) * lit(PERCENT), q),
                    }
                },
            },
    {
        proof {
            if let Some(id) = self.selected_clip_id {
                lemma_index_of(self.clips@, id);
            }
        }
        match self.selected_clip() {
            None => Caption::Playhead { secs: self.playhead_secs },
            Some(clip) => {
                let percent = match clip.selection {
                    None => None,
                    Some((a, b)) => Some(
                        (
                            from(m, a).times(from_bits(m, PERCENT)).v,
                            from(m, b).times(from_bits(m, PERCENT)).v,
                        ),
                    ),
                };
                Caption::Clip {
                    name: clip.name.clone(),
                    start: clip.start_time_secs,
                    lane_number: clip.lane + 1,
                    percent,
                }
            },
        }
    }
}

} // verus!
