use mixrust::arith::Arith;
use mixrust::clip::{
    add_effect_zone, compute_amplitudes, duration_of, selected_or_full_range,
    selection_sample_range, AudioClip, Color, Zone,
};
use mixrust::edit::{cut_selection, trim_clip_after_playhead};
use mixrust::effects::{apply_effect_to_clip, Effect};
use mixrust::num::{Num, Sample};
use mixrust::playback::{make_clip_source, ExportError};
use mixrust::scene::Caption;
use mixrust::timeline::{snap_time, AddClipError, DecodedAudio, MouseMode, TimelineState};
use mixrust::welcome::Welcome;

fn num(x: f64) -> Num {
    Num { bits: x.to_bits() }
}

fn value(n: Num) -> f64 {
    f64::from_bits(n.bits)
}

fn smp(x: f32) -> Sample {
    Sample { bits: x.to_bits() }
}

fn level(s: Sample) -> f32 {
    f32::from_bits(s.bits)
}

fn result(x: f64) -> Num {
    num(if x.is_nan() { f64::NAN } else { x })
}

fn sample_result(x: f32) -> Sample {
    smp(if x.is_nan() { f32::NAN } else { x })
}

struct Ieee;

impl Arith for Ieee {
    fn plus(&self, a: Num, b: Num) -> Num {
        result(value(a) + value(b))
    }
    fn minus(&self, a: Num, b: Num) -> Num {
        result(value(a) - value(b))
    }
    fn times(&self, a: Num, b: Num) -> Num {
        result(value(a) * value(b))
    }
    fn over(&self, a: Num, b: Num) -> Num {
        result(value(a) / value(b))
    }
    fn round(&self, a: Num) -> Num {
        result(value(a).round())
    }
    fn of_count(&self, n: u64) -> Num {
        result(n as f64)
    }
    fn to_count(&self, a: Num) -> usize {
        value(a) as usize
    }
    fn to_pixels(&self, a: Num) -> i32 {
        value(a) as i32
    }
    fn widen(&self, s: Sample) -> Num {
        result(level(s) as f64)
    }
    fn sample_plus(&self, a: Sample, b: Sample) -> Sample {
        sample_result(level(a) + level(b))
    }
    fn sample_minus(&self, a: Sample, b: Sample) -> Sample {
        sample_result(level(a) - level(b))
    }
    fn sample_times(&self, a: Sample, b: Sample) -> Sample {
        sample_result(level(a) * level(b))
    }
    fn sample_over(&self, a: Sample, b: Sample) -> Sample {
        sample_result(level(a) / level(b))
    }
    fn sample_tanh(&self, a: Sample) -> Sample {
        sample_result(level(a).tanh())
    }
    fn to_pcm(&self, a: Sample) -> i16 {
        level(a) as i16
    }
}

fn samples(levels: &[f32]) -> Vec<Sample> {
    levels.iter().map(|x| smp(*x)).collect()
}

fn levels(samples: &[Sample]) -> Vec<f32> {
    samples.iter().map(|s| level(*s)).collect()
}

fn audio(levels: &[f32], channels: u16, sample_rate: u32) -> DecodedAudio {
    DecodedAudio { buffer: samples(levels), channels, sample_rate }
}

fn clip_of(levels: &[f32], channels: u16, sample_rate: u32) -> AudioClip {
    let mut state = TimelineState::new();
    state
        .add_clip_from_file(
            &Ieee,
            Some("a.wav".to_string()),
            b"/tmp/a.wav".to_vec(),
            audio(levels, channels, sample_rate),
        )
        .unwrap();
    state.clips.remove(0)
}

fn add(state: &mut TimelineState, levels: &[f32], channels: u16, sample_rate: u32) {
    state
        .add_clip_from_file(&Ieee, None, Vec::new(), audio(levels, channels, sample_rate))
        .unwrap();
}

fn zone(start: f64, end: f64) -> Zone {
    Zone { start: num(start), end: num(end), color: Color { red: 1, green: 2, blue: 3 } }
}

fn bounds(zones: &[Zone]) -> Vec<(f64, f64)> {
    zones.iter().map(|z| (value(z.start), value(z.end))).collect()
}

// ---------------------------------------------------------------- numbers

#[test]
fn bits_order_as_the_values_do() {
    let values = [
        f64::NEG_INFINITY,
        -3.5,
        -1.0,
        -0.0,
        0.0,
        1e-300,
        0.25,
        1.0,
        30.0,
        f64::INFINITY,
        f64::NAN,
    ];
    for a in values {
        for b in values {
            assert_eq!(num(a).lt(num(b)), a < b);
            assert_eq!(num(a).le(num(b)), a <= b);
            let least = value(num(a).min(num(b)));
            assert!(least == a.min(b) || least.is_nan() && a.min(b).is_nan());
            let greatest = value(num(a).max(num(b)));
            assert!(greatest == a.max(b) || greatest.is_nan() && a.max(b).is_nan());
        }
        let clamped = value(num(a).clamp(num(0.0), num(1.0)));
        assert!(clamped == a.clamp(0.0, 1.0) || a.is_nan() && clamped.is_nan());
        let magnitude = value(num(a).abs());
        assert!(magnitude == a.abs() || a.is_nan() && magnitude.is_nan());
    }
}

#[test]
fn sample_bits_order_as_the_samples_do() {
    let values = [f32::NEG_INFINITY, -1.5, -1.0, -0.0, 0.0, 0.001, 0.7, 1.0, 2.0, f32::NAN];
    for a in values {
        for b in values {
            assert_eq!(smp(a).lt(smp(b)), a < b);
            assert_eq!(smp(a).le(smp(b)), a <= b);
            let greatest = level(smp(a).max(smp(b)));
            assert!(greatest == a.max(b) || greatest.is_nan() && a.max(b).is_nan());
        }
        let clamped = level(smp(a).clamp(smp(-1.0), smp(1.0)));
        assert!(clamped == a.clamp(-1.0, 1.0) || a.is_nan() && clamped.is_nan());
        let magnitude = level(smp(a).abs());
        assert!(magnitude == a.abs() || a.is_nan() && magnitude.is_nan());
    }
}

#[test]
fn constants_are_the_bits_of_their_values() {
    let pairs = [
        (mixrust::num::ZERO, 0.0),
        (mixrust::num::ONE, 1.0),
        (mixrust::clip::THOUSANDTH, 0.001),
        (mixrust::effects::HUNDREDTH, 0.01),
        (mixrust::timeline::TRACK_HEIGHT, 86.0),
        (mixrust::timeline::HEADER_WIDTH, 170.0),
        (mixrust::timeline::RULER_HEIGHT, 28.0),
        (mixrust::timeline::DEFAULT_PIXELS_PER_SECOND, 90.0),
        (mixrust::timeline::SHORTEST_TIMELINE, 30.0),
        (mixrust::timeline::GRID, 0.25),
        (mixrust::mouse::CLIP_MARGIN_Y, 12.0),
        (mixrust::mouse::GRIP_HEIGHT, 22.0),
        (mixrust::mouse::ZOOM_STEP, 1.25),
        (mixrust::mouse::CLOSEST_ZOOM, 500.0),
        (mixrust::mouse::WIDEST_ZOOM, 20.0),
        (mixrust::mouse::RIGHT_MARGIN, 300.0),
        (mixrust::mouse::BOTTOM_MARGIN, 80.0),
        (mixrust::mouse::BILLION, 1_000_000_000.0),
        (mixrust::scene::COARSE_ZOOM, 35.0),
        (mixrust::scene::MARKS_PAST_END, 10.0),
        (mixrust::scene::LANE_LABEL_Y, 30.0),
        (mixrust::scene::CLIP_HEIGHT, 86.0 - 12.0 * 2.0),
        (mixrust::scene::LEAST_CLIP_WIDTH, 8.0),
        (mixrust::scene::NAME_X, 8.0),
        (mixrust::scene::NAME_Y, 17.0),
        (mixrust::scene::WAVE_HEIGHT, 86.0 - 12.0 * 2.0 - 28.0),
        (mixrust::scene::HALF_WAVE_HEIGHT, (86.0 - 12.0 * 2.0 - 28.0) / 2.0),
        (mixrust::scene::BACK_X, 4.0),
        (mixrust::scene::BACK_NARROWING, 8.0),
        (mixrust::scene::BARS_X, 5.0),
        (mixrust::scene::BARS_NARROWING, 10.0),
        (mixrust::scene::BAR_SHARE, 0.48),
        (mixrust::scene::PERCENT, 100.0),
    ];
    for (bits, known) in pairs {
        assert_eq!(bits, num(known).bits, "{}", known);
    }
    let sample_pairs = [
        (mixrust::num::SAMPLE_ZERO, 0.0f32),
        (mixrust::num::SAMPLE_ONE, 1.0),
        (mixrust::clip::SAMPLE_THOUSANDTH, 0.001),
        (mixrust::effects::SAMPLE_TWENTIETH, 0.05),
        (mixrust::effects::SAMPLE_TWO_FIFTHS, 0.4),
        (mixrust::effects::SAMPLE_HALF, 0.5),
        (mixrust::effects::SAMPLE_SEVEN_TENTHS, 0.7),
        (mixrust::effects::SAMPLE_NINETEEN_TWENTIETHS, 0.95),
        (mixrust::effects::SAMPLE_FIVE, 5.0),
        (mixrust::playback::SAMPLE_PCM_MAX, i16::MAX as f32),
    ];
    for (bits, known) in sample_pairs {
        assert_eq!(bits, smp(known).bits, "{}", known);
    }
}

fn is_from_zero_on(n: Num) -> bool {
    value(n) >= 0.0
}

fn patterns() -> Vec<Num> {
    let mut bits: Vec<u64> = [
        0.0, 5e-324, 1e-310, 1e-9, 0.25, 0.8, 1.0, 1.25, 3.0, 170.0, 1e9, 1e300, f64::MAX,
        f64::INFINITY,
    ]
    .iter()
    .map(|x| num(*x).bits)
    .collect();
    bits.extend([0x7ff0_0000_0000_0001, 0x7ff8_0000_0000_0000, 0x7fff_ffff_ffff_ffff]);
    let negative: Vec<u64> = bits.iter().map(|b| b | mixrust::num::SIGN).collect();
    bits.extend(negative);
    bits.into_iter().map(|bits| Num { bits }).collect()
}

#[test]
fn arithmetic_keeps_the_order() {
    for a in patterns() {
        assert!(!is_from_zero_on(a) || is_from_zero_on(Ieee.round(a)));
        for b in patterns() {
            let sum = Ieee.plus(a, b);
            let product = Ieee.times(a, b);
            let quotient = Ieee.over(a, b);
            if is_from_zero_on(a) && is_from_zero_on(b) {
                assert!(a.le(sum) && b.le(sum));
            }
            if is_from_zero_on(a) && 0.0 < value(b) && value(b) < f64::INFINITY {
                assert!(is_from_zero_on(product) && is_from_zero_on(quotient));
                if value(b) >= 1.0 {
                    assert!(a.le(product) && quotient.le(a));
                }
            }
            assert_eq!(Ieee.minus(a, b).abs(), Ieee.minus(b, a).abs());
        }
    }
    for n in [0, 1, 900, u64::MAX] {
        assert!(is_from_zero_on(Ieee.of_count(n)));
    }
}

#[test]
fn sample_arithmetic_keeps_the_order() {
    let (one, infinity) = (mixrust::num::SAMPLE_ONE, mixrust::num::SAMPLE_INFINITY);
    let (binade, top) = (mixrust::num::SAMPLE_BINADE, mixrust::num::SAMPLE_TOP_BINADE);
    let sign = mixrust::num::SAMPLE_SIGN;
    let magnitudes = [
        0, 1, 77, binade - 1, binade, binade + 5, smp(0.0009).bits, smp(0.001).bits,
        smp(0.3).bits, smp(0.30000004).bits, one - 1, one, smp(1e30).bits, top - 1, top,
        infinity - 1, infinity, infinity + 1, 0x7fff_ffff,
    ];
    assert_eq!(infinity, smp(f32::INFINITY).bits);
    assert_eq!(binade, smp(f32::MIN_POSITIVE).bits);
    assert_eq!(top, smp(2.0f32.powi(127)).bits);
    assert_eq!(mixrust::num::SAMPLE_MINUS_ONE, smp(-1.0).bits);
    let tenths = mixrust::effects::SAMPLE_SEVEN_TENTHS;
    let twice = |b: u32| if b < binade { 2 * b } else { b + binade };
    for a in magnitudes {
        for s in [Sample { bits: a }, Sample { bits: a | sign }] {
            let same = Ieee.sample_times(s, smp(1.0));
            assert!(if a <= infinity { same == s } else { level(same).is_nan() });
            if a <= infinity {
                assert!(!level(Ieee.sample_times(s, smp(5.0))).is_nan());
                assert!(Ieee.sample_tanh(s).abs().bits <= one);
            }
            if a <= one {
                assert!(Ieee.sample_times(s, smp(0.7)).abs().bits <= tenths);
            }
            if a <= one || a > infinity {
                let pcm = Ieee.to_pcm(Ieee.sample_times(s, smp(32767.0)));
                assert!((-32767..=32767).contains(&pcm));
            }
            if a < top {
                assert_eq!(smp(2.0 * level(s)).bits, twice(a) | (s.bits & sign));
            }
        }
        for b in magnitudes {
            let share = Ieee.sample_over(Sample { bits: a }, Sample { bits: b });
            if a <= b && 0 < b {
                assert!(level(share).is_nan() || share.bits <= one);
            }
            if a == b && 0 < b && b < infinity {
                assert_eq!(share.bits, one);
            }
            if a < b && b <= infinity {
                assert!(share.bits < one);
            }
            if 0 < b && a < top && b < top {
                let (p, q) = (Sample { bits: twice(a) }, Sample { bits: twice(b) });
                assert_eq!(Ieee.sample_over(p, q), share);
            }
        }
    }
}

#[test]
fn negative_zero_keeps_its_sign() {
    let clip = clip_of(&[-0.0, 0.0, -0.0, 0.5], 1, 4);
    assert_eq!(clip.buffer[0].bits, 0x8000_0000);
    assert_eq!(clip.buffer[1].bits, 0);
    let source = make_clip_source(&Ieee, &clip, num(0.0), num(0.0));
    assert_eq!(source.samples, clip.buffer);
    let mut louder = clip.clone();
    louder.volume = smp(2.0);
    apply_effect_to_clip(&Ieee, &mut louder, "volume");
    let expected: Vec<u32> =
        [-0.0f32, 0.0, -0.0, 0.5].iter().map(|x| (x * 2.0).clamp(-1.0, 1.0).to_bits()).collect();
    assert_eq!(louder.buffer.iter().map(|s| s.bits).collect::<Vec<u32>>(), expected);
    assert!(num(-0.0).le(num(0.0)) && num(0.0).le(num(-0.0)) && !num(-0.0).lt(num(0.0)));
    assert_eq!(num(-0.0).clamp(num(0.0), num(1.0)).bits, (-0.0f64).clamp(0.0, 1.0).to_bits());
    assert_eq!(num(-0.0).abs().bits, 0);
}

#[test]
fn some_amplitude_is_one_where_some_chunk_is_heard() {
    let loudest = |levels: &[f32], n: usize| {
        let amps = compute_amplitudes(&Ieee, &samples(levels), n);
        amps.iter().any(|a| level(*a) == 1.0)
    };
    assert!(loudest(&[0.0, 0.001, 0.0], 3));
    assert!(loudest(&[0.3, -0.7, f32::NAN, 0.1], 2));
    assert!(!loudest(&[0.0, 0.0009999, -0.0001], 3));
    assert!(!loudest(&[], 4));
    assert!(!loudest(&[0.0, 0.0, 0.0, 0.0, 0.5], 2));
}

/// What a normal value from 16 on and below 1024 is worth, in multiples of the spacing at 16.
fn worth(n: Num) -> i128 {
    let (exponent, fraction) = (n.bits >> 52, n.bits & ((1 << 52) - 1));
    assert!((1027..1033).contains(&exponent));
    ((1i128 << 52) + fraction as i128) << (exponent - 1027)
}

#[test]
fn zoom_steps_are_rounded_to_the_nearest_value() {
    let step = num(1.25);
    let mut p = 20.0f64;
    while p < 400.0 {
        let closer = Ieee.times(num(p), step);
        let off = |r: Num| (4 * worth(r) - 5 * worth(num(p))).abs();
        for near in [closer.bits - 1, closer.bits + 1] {
            assert!(off(closer) <= off(Num { bits: near }));
        }
        let back = Ieee.over(closer, step);
        let off = |r: Num| (5 * worth(r) - 4 * worth(closer)).abs();
        for near in [back.bits - 1, back.bits + 1] {
            assert!(off(back) <= off(Num { bits: near }));
        }
        p = p * 1.003 + 0.017;
    }
}

// ---------------------------------------------------------------- clips

#[test]
fn new_timeline_is_empty() {
    let state = TimelineState::new();
    assert_eq!(state.clips.len(), 0);
    assert_eq!(state.lanes, 3);
    assert_eq!(state.next_clip_id, 1);
    assert_eq!(value(state.pixels_per_second), 90.0);
    assert_eq!(state.mouse_mode, MouseMode::Idle);
    assert_eq!(value(state.timeline_duration_secs(&Ieee)), 30.0);
}

#[test]
fn unplayable_audio_is_refused() {
    let mut state = TimelineState::new();
    for bad in [audio(&[], 2, 44100), audio(&[0.5], 0, 44100), audio(&[0.5], 1, 0)] {
        let refused = state.add_clip_from_file(&Ieee, None, Vec::new(), bad);
        assert_eq!(refused, Err(AddClipError::Unplayable));
    }
    assert_eq!(state.clips.len(), 0);
    assert_eq!(state.next_clip_id, 1);
    assert_eq!(AddClipError::Unplayable.message(), "Fichier audio vide ou invalide");
}

#[test]
fn added_clip_starts_at_the_playhead() {
    let mut state = TimelineState::new();
    state.playhead_secs = num(4.5);
    state
        .add_clip_from_file(
            &Ieee,
            Some("voix.wav".to_string()),
            b"/son/voix.wav".to_vec(),
            audio(&[0.5, -0.25, 0.125, 0.0, 0.0, 0.0], 2, 3),
        )
        .unwrap();
    let clip = &state.clips[0];
    assert_eq!(clip.id, 1);
    assert_eq!(clip.lane, 0);
    assert_eq!(clip.name, "voix.wav");
    assert_eq!(clip.path, b"/son/voix.wav".to_vec());
    assert_eq!(value(clip.start_time_secs), 4.5);
    assert_eq!(value(clip.duration_secs), 1.0);
    assert_eq!(value(clip.offset_in_audio_secs), 0.0);
    assert_eq!(level(clip.volume), 1.0);
    assert_eq!(value(clip.speed), 1.0);
    assert_eq!(level(clip.bass_gain), 1.0);
    assert_eq!(clip.selection, None);
    assert_eq!(clip.color, Color { red: 20, green: 74, blue: 95 });
    assert_eq!(clip.amplitudes.len(), 900);
    assert_eq!(level(clip.amplitudes[0]), 1.0);
    assert_eq!(level(clip.amplitudes[1]), 0.5);
    assert_eq!(level(clip.amplitudes[6]), 0.0);
    assert_eq!(state.selected_clip_id, Some(1));
    assert_eq!(state.next_clip_id, 2);
    assert_eq!(value(clip.end_time_secs(&Ieee)), 5.5);
}

#[test]
fn clips_without_a_name_and_colors_in_turn() {
    let mut state = TimelineState::new();
    for _ in 0..7 {
        add(&mut state, &[0.5; 4], 1, 4);
    }
    assert_eq!(state.clips[0].name, "clip");
    assert_eq!(state.clips[1].color, Color { red: 100, green: 55, blue: 18 });
    assert_eq!(state.clips[2].color, Color { red: 60, green: 82, blue: 20 });
    assert_eq!(state.clips[3].color, Color { red: 94, green: 27, blue: 38 });
    assert_eq!(state.clips[4].color, Color { red: 70, green: 45, blue: 95 });
    assert_eq!(state.clips[5].color, Color { red: 95, green: 80, blue: 20 });
    assert_eq!(state.clips[6].color, state.clips[0].color);
}

#[test]
fn new_clips_go_to_the_first_free_lane() {
    let mut state = TimelineState::new();
    for lane in 0..4 {
        add(&mut state, &[0.5; 4], 1, 4);
        assert_eq!(state.clips[lane].lane, lane);
    }
    assert_eq!(state.lanes, 4);
    state.playhead_secs = num(1.0);
    assert_eq!(state.first_free_lane_at_playhead(&Ieee, num(2.0)), 0);
    state.playhead_secs = num(0.5);
    assert_eq!(state.first_free_lane_at_playhead(&Ieee, num(2.0)), 4);
}

#[test]
fn timeline_is_as_long_as_its_last_clip() {
    let mut state = TimelineState::new();
    state.playhead_secs = num(40.0);
    add(&mut state, &[0.5; 8], 1, 4);
    assert_eq!(value(state.timeline_duration_secs(&Ieee)), 42.0);
}

#[test]
fn durations_count_frames() {
    assert_eq!(value(duration_of(&Ieee, 88200, 44100, 2)), 1.0);
    let mut clip = clip_of(&[0.1; 12], 2, 4);
    clip.buffer.truncate(6);
    clip.refresh_duration(&Ieee);
    assert_eq!(value(clip.duration_secs), 6.0 / (4.0 * 2.0));
}

#[test]
fn amplitudes_are_peaks_of_chunks() {
    let flat = compute_amplitudes(&Ieee, &Vec::new(), 4);
    assert_eq!(levels(&flat), vec![0.0; 4]);
    assert_eq!(compute_amplitudes(&Ieee, &Vec::new(), 0).len(), 0);
    let few = compute_amplitudes(&Ieee, &samples(&[0.5, -1.0, 0.25]), 5);
    assert_eq!(levels(&few), vec![0.5, 1.0, 0.25, 0.0, 0.0]);
    let many = compute_amplitudes(&Ieee, &samples(&[0.1, -0.2, 0.3, 0.4, -0.8, 0.0, 0.9]), 3);
    assert_eq!(levels(&many), vec![0.2f32 / 0.8, 0.4f32 / 0.8, 1.0]);
    let quiet = compute_amplitudes(&Ieee, &samples(&[0.0005, 0.0]), 2);
    assert_eq!(levels(&quiet), vec![0.0005f32 / 0.001, 0.0]);
}

#[test]
fn negated_and_doubled_samples_look_alike() {
    let samples_of = |factor: f32| -> Vec<Sample> {
        (0..2000).map(|i| smp(factor * ((i * 37 % 401) as f32 / 401.0 - 0.45))).collect()
    };
    for n in [1, 3, 900, 2500] {
        let plain = compute_amplitudes(&Ieee, &samples_of(1.0), n);
        assert_eq!(compute_amplitudes(&Ieee, &samples_of(-1.0), n), plain);
        assert_eq!(compute_amplitudes(&Ieee, &samples_of(2.0), n), plain);
    }
    let quiet = compute_amplitudes(&Ieee, &samples(&[0.0004, 0.0001]), 2);
    let double = compute_amplitudes(&Ieee, &samples(&[0.0008, 0.0002]), 2);
    assert!(quiet != double);
    assert_eq!(compute_amplitudes(&Ieee, &samples(&[-0.0004, 0.0001]), 2), quiet);
}

#[test]
fn either_end_of_a_selection_may_come_first() {
    let mut clip = clip_of(&[0.1; 30], 3, 4);
    for (a, b) in [(0.1, 0.9), (0.33, 0.34), (0.5, 0.5), (0.0, 1.0), (f64::NAN, 0.5)] {
        clip.selection = Some((num(a), num(b)));
        let range = selection_sample_range(&Ieee, &clip);
        clip.selection = Some((num(b), num(a)));
        assert_eq!(selection_sample_range(&Ieee, &clip), range);
    }
}

#[test]
fn selection_covers_whole_frames() {
    let mut clip = clip_of(&[0.1; 20], 2, 4);
    assert_eq!(selection_sample_range(&Ieee, &clip), None);
    assert_eq!(selected_or_full_range(&Ieee, &clip), Some((0, 20)));
    clip.selection = Some((num(0.26), num(0.79)));
    assert_eq!(selection_sample_range(&Ieee, &clip), Some((4, 14)));
    assert_eq!(selected_or_full_range(&Ieee, &clip), Some((4, 14)));
    clip.selection = Some((num(0.79), num(0.26)));
    assert_eq!(selection_sample_range(&Ieee, &clip), Some((4, 14)));
    clip.selection = Some((num(0.5), num(0.5005)));
    assert_eq!(selection_sample_range(&Ieee, &clip), None);
    clip.selection = Some((num(0.51), num(0.54)));
    assert_eq!(selection_sample_range(&Ieee, &clip), None);
    clip.selection = Some((num(0.0), num(1.0)));
    assert_eq!(selection_sample_range(&Ieee, &clip), Some((0, 20)));
    let odd = clip_of(&[0.1; 21], 2, 4);
    assert_eq!(selected_or_full_range(&Ieee, &odd), Some((0, 20)));
    let lone = clip_of(&[0.1], 2, 4);
    assert_eq!(selected_or_full_range(&Ieee, &lone), None);
}

#[test]
fn zones_mark_the_selection_or_the_whole_clip() {
    let mut clip = clip_of(&[0.1; 4], 1, 4);
    let color = Color { red: 9, green: 8, blue: 7 };
    add_effect_zone(&mut clip, color);
    clip.selection = Some((num(0.25), num(0.5)));
    add_effect_zone(&mut clip, color);
    assert_eq!(bounds(&clip.effect_zones), vec![(0.0, 1.0), (0.25, 0.5)]);
    assert_eq!(clip.effect_zones[1].color, color);
}

// ---------------------------------------------------------------- effects

#[test]
fn effects_are_known_by_name() {
    assert_eq!(Effect::named("disto"), Some(Effect::Distortion));
    assert_eq!(Effect::named("reverb"), Some(Effect::Reverb));
    assert_eq!(Effect::named("bass"), Some(Effect::Bass));
    assert_eq!(Effect::named("volume"), Some(Effect::Volume));
    assert_eq!(Effect::named("speed"), Some(Effect::Speed));
    assert_eq!(Effect::named("Speed"), None);
    assert_eq!(Effect::Reverb.color(), Color { red: 61, green: 15, blue: 69 });
    assert_eq!(Effect::Bass.color(), Color { red: 0, green: 67, blue: 75 });
    assert_eq!(Effect::Volume.color(), Color { red: 30, green: 69, blue: 30 });
    assert_eq!(Effect::Speed.color(), Color { red: 95, green: 26, blue: 21 });
}

#[test]
fn distortion_works_on_the_selection_alone() {
    let before = [0.1f32, 0.2, 0.3, 0.4];
    let mut clip = clip_of(&before, 1, 4);
    clip.selection = Some((num(0.25), num(0.75)));
    apply_effect_to_clip(&Ieee, &mut clip, "disto");
    let expected = vec![
        0.1,
        (0.2f32 * 5.0).tanh() * 0.7,
        (0.3f32 * 5.0).tanh() * 0.7,
        0.4,
    ];
    assert_eq!(levels(&clip.buffer), expected);
    assert_eq!(bounds(&clip.effect_zones), vec![(0.25, 0.75)]);
    assert_eq!(clip.effect_zones[0].color, Color { red: 100, green: 55, blue: 0 });
    assert_eq!(clip.selection, Some((num(0.25), num(0.75))));
    let loudest = expected[2];
    assert_eq!(level(clip.amplitudes[0]), 0.1 / loudest);
    let mut driven = clip_of(&[50.0, -50.0, 1.0, -0.0, f32::INFINITY], 1, 4);
    apply_effect_to_clip(&Ieee, &mut driven, "disto");
    assert!(levels(&driven.buffer).iter().all(|x| x.abs() <= 0.7));
}

#[test]
fn reverb_repeats_after_its_delay() {
    let mut before = vec![0.0f32; 16002];
    before[0] = 1.0;
    before[8001] = 0.5;
    let mut clip = clip_of(&before, 1, 8000);
    apply_effect_to_clip(&Ieee, &mut clip, "reverb");
    let after = levels(&clip.buffer);
    assert_eq!(after[0], 0.7);
    assert_eq!(after[1], 0.0);
    assert_eq!(after[7999], 0.0);
    assert_eq!(after[8000], 1.0 * 0.5);
    assert_eq!(after[8001], 0.5f32 * 0.7);
    assert_eq!(after[16000], (1.0f32 * 0.4) * 0.5);
    assert_eq!(after[16001], 0.5f32 * 0.5);
    assert_eq!(bounds(&clip.effect_zones), vec![(0.0, 1.0)]);
}

#[test]
fn bass_amplifies_the_low_part() {
    let before = [0.5f32, -0.5, 1.0];
    let mut clip = clip_of(&before, 1, 4);
    clip.bass_gain = smp(3.0);
    apply_effect_to_clip(&Ieee, &mut clip, "bass");
    let mut previous = 0.0f32;
    let mut expected = Vec::new();
    for sample in before {
        let low = 0.05 * sample + 0.95 * previous;
        previous = low;
        let high = sample - low;
        expected.push(((low * 3.0) + high).clamp(-1.0, 1.0));
    }
    assert_eq!(levels(&clip.buffer), expected);
    assert_eq!(expected[2], 1.0);
    assert_eq!(level(clip.bass_gain), 3.0);
}

#[test]
fn volume_is_clipped_and_reset() {
    let mut clip = clip_of(&[0.25, -0.75, 0.5, -0.5], 1, 4);
    clip.volume = smp(2.0);
    apply_effect_to_clip(&Ieee, &mut clip, "volume");
    assert_eq!(levels(&clip.buffer), vec![0.5, -1.0, 1.0, -1.0]);
    assert_eq!(level(clip.volume), 1.0);
    assert_eq!(clip.effect_zones.len(), 1);
}

#[test]
fn second_volume_changes_no_sample() {
    let mut clip = clip_of(&[0.25, -0.75, 0.3, f32::NAN, 0.1, 0.9], 2, 4);
    clip.volume = smp(1.7);
    clip.selection = Some((num(0.0), num(0.7)));
    apply_effect_to_clip(&Ieee, &mut clip, "volume");
    let once = clip.clone();
    apply_effect_to_clip(&Ieee, &mut clip, "volume");
    assert_eq!(clip.buffer, once.buffer);
    assert_eq!(clip.amplitudes, once.amplitudes);
    assert_eq!(clip.volume, once.volume);
    assert_eq!(clip.effect_zones.len(), 2);
    assert_eq!(clip.effect_zones[0], clip.effect_zones[1]);
}

#[test]
fn speed_skips_or_repeats_frames() {
    let before: Vec<f32> = (0..12).map(|i| i as f32 / 100.0).collect();
    let mut fast = clip_of(&before, 2, 6);
    fast.speed = num(2.0);
    fast.selection = Some((num(0.0), num(0.7)));
    apply_effect_to_clip(&Ieee, &mut fast, "speed");
    assert_eq!(levels(&fast.buffer), vec![0.0, 0.01, 0.04, 0.05, 0.08, 0.09, 0.10, 0.11]);
    assert_eq!(value(fast.speed), 1.0);
    assert_eq!(value(fast.duration_secs), 8.0 / 12.0);
    assert_eq!(fast.selection, None);
    assert_eq!(bounds(&fast.effect_zones), vec![(0.0, 1.0)]);

    let mut slow = clip_of(&before[0..4], 2, 6);
    slow.speed = num(0.5);
    apply_effect_to_clip(&Ieee, &mut slow, "speed");
    assert_eq!(levels(&slow.buffer), vec![0.0, 0.01, 0.0, 0.01, 0.02, 0.03, 0.02, 0.03]);
}

#[test]
fn speed_near_one_changes_nothing() {
    let mut clip = clip_of(&[0.1, 0.2, 0.3], 1, 4);
    clip.speed = num(1.005);
    clip.selection = Some((num(0.0), num(1.0)));
    apply_effect_to_clip(&Ieee, &mut clip, "speed");
    assert_eq!(levels(&clip.buffer), vec![0.1, 0.2, 0.3]);
    assert_eq!(value(clip.speed), 1.005);
    assert_eq!(clip.effect_zones.len(), 0);
    assert_eq!(clip.selection, Some((num(0.0), num(1.0))));
}

#[test]
fn the_same_effect_has_the_same_outcome() {
    let before: Vec<f32> = (0..9000).map(|i| (i % 17) as f32 / 17.0 - 0.4).collect();
    for effect in ["disto", "reverb", "bass", "volume", "speed"] {
        let mut once = clip_of(&before, 2, 100);
        once.speed = num(0.75);
        once.volume = smp(1.5);
        once.bass_gain = smp(2.5);
        once.selection = Some((num(0.1), num(0.95)));
        let mut again = once.clone();
        apply_effect_to_clip(&Ieee, &mut once, effect);
        apply_effect_to_clip(&Ieee, &mut again, effect);
        assert_eq!(once.buffer, again.buffer);
        assert_eq!(once.amplitudes, again.amplitudes);
        assert_eq!(once.effect_zones, again.effect_zones);
        assert_eq!(once.duration_secs, again.duration_secs);
        assert_eq!(once.buffer.len() % 2, 0);
        let all = [smp(0.0), smp(1.0)];
        assert!(once.amplitudes.iter().all(|a| all[0].le(*a) && a.le(all[1])));
    }
}

#[test]
fn unknown_effect_only_redraws_the_waveform() {
    let mut clip = clip_of(&[0.1, 0.2], 1, 4);
    clip.amplitudes.clear();
    apply_effect_to_clip(&Ieee, &mut clip, "echo");
    assert_eq!(levels(&clip.buffer), vec![0.1, 0.2]);
    assert_eq!(clip.effect_zones.len(), 0);
    assert_eq!(clip.amplitudes.len(), 900);
}

#[test]
fn effect_without_a_whole_frame_changes_nothing() {
    let mut clip = clip_of(&[0.5], 2, 4);
    clip.amplitudes.clear();
    clip.volume = smp(2.0);
    apply_effect_to_clip(&Ieee, &mut clip, "volume");
    assert_eq!(levels(&clip.buffer), vec![0.5]);
    assert_eq!(level(clip.volume), 2.0);
    assert_eq!(clip.amplitudes.len(), 0);
}

// ---------------------------------------------------------------- cuts

#[test]
fn cut_removes_the_selection_and_moves_zones() {
    let before: Vec<f32> = (0..8).map(|i| i as f32 / 10.0).collect();
    let mut clip = clip_of(&before, 1, 4);
    clip.effect_zones =
        vec![zone(0.0, 0.25), zone(0.1, 0.3), zone(0.5, 1.0), zone(0.3, 0.4), zone(0.75, 0.875)];
    clip.selection = Some((num(0.25), num(0.5)));
    cut_selection(&Ieee, &mut clip);
    assert_eq!(levels(&clip.buffer), vec![0.0, 0.1, 0.4, 0.5, 0.6, 0.7]);
    assert_eq!(value(clip.duration_secs), 1.5);
    assert_eq!(clip.selection, None);
    assert_eq!(
        bounds(&clip.effect_zones),
        vec![
            (0.0 / 0.75, 0.25 / 0.75),
            ((0.5 - 0.25) / 0.75, (1.0 - 0.25) / 0.75),
            ((0.75 - 0.25) / 0.75, (0.875 - 0.25) / 0.75),
        ]
    );
    let once = levels(&clip.buffer);
    cut_selection(&Ieee, &mut clip);
    assert_eq!(levels(&clip.buffer), once);
}

#[test]
fn cutting_everything_drops_the_zones() {
    let mut clip = clip_of(&[0.1; 4], 2, 4);
    clip.effect_zones = vec![zone(0.0, 1.0)];
    clip.selection = Some((num(0.0), num(1.0)));
    cut_selection(&Ieee, &mut clip);
    assert_eq!(clip.buffer.len(), 0);
    assert_eq!(value(clip.duration_secs), 0.0);
    assert_eq!(clip.effect_zones.len(), 0);
    assert_eq!(levels(&clip.amplitudes), vec![0.0; 900]);
}

#[test]
fn cut_without_a_selection_changes_nothing() {
    let mut clip = clip_of(&[0.1; 4], 1, 4);
    clip.effect_zones = vec![zone(0.0, 1.0)];
    cut_selection(&Ieee, &mut clip);
    assert_eq!(clip.buffer.len(), 4);
    assert_eq!(clip.effect_zones.len(), 1);
}

#[test]
fn trim_cuts_off_what_lies_behind_the_playhead() {
    let before: Vec<f32> = (0..16).map(|i| i as f32 / 100.0).collect();
    let mut clip = clip_of(&before, 2, 4);
    clip.start_time_secs = num(10.0);
    clip.selection = Some((num(0.0), num(0.5)));
    clip.effect_zones = vec![zone(0.0, 0.25), zone(0.25, 1.0), zone(0.5, 0.75), zone(0.2, 0.2)];
    trim_clip_after_playhead(&Ieee, &mut clip, num(11.1));
    assert_eq!(levels(&clip.buffer), before[0..8].to_vec());
    assert_eq!(value(clip.duration_secs), 1.0);
    assert_eq!(clip.selection, None);
    assert_eq!(bounds(&clip.effect_zones), vec![(0.0, 0.5), (0.5, 1.0)]);
    let mut long = clip_of(&before, 2, 4);
    trim_clip_after_playhead(&Ieee, &mut long, num(1.9));
    assert_eq!(long.buffer.len(), 14);
}

#[test]
fn trim_outside_the_clip_changes_nothing() {
    for playhead in [9.0, 10.0, 12.0, 13.0] {
        let mut clip = clip_of(&[0.5; 16], 2, 4);
        clip.start_time_secs = num(10.0);
        trim_clip_after_playhead(&Ieee, &mut clip, num(playhead));
        assert_eq!(clip.buffer.len(), 16);
    }
}

#[test]
fn trimmed_zones_stay_in_the_clip() {
    let mut clip = clip_of(&[0.5; 16], 2, 4);
    clip.effect_zones = vec![zone(-0.5, 0.25), zone(0.25, 4.0), zone(-0.5, -0.25), zone(0.9, 1.0)];
    trim_clip_after_playhead(&Ieee, &mut clip, num(1.0));
    assert_eq!(bounds(&clip.effect_zones), vec![(0.0, 0.5), (0.5, 1.0)]);
    assert_eq!(clip.effect_zones[0].color, zone(0.0, 1.0).color);
}

#[test]
fn cutting_keeps_whole_frames_and_the_place() {
    let mut clip = clip_of(&[0.5; 18], 3, 4);
    clip.start_time_secs = num(2.5);
    clip.volume = smp(0.5);
    clip.selection = Some((num(0.2), num(0.6)));
    cut_selection(&Ieee, &mut clip);
    assert_eq!(clip.buffer.len(), 18 - (9 - 3));
    assert_eq!(value(clip.start_time_secs), 2.5);
    assert_eq!(level(clip.volume), 0.5);
    clip.selection = Some((num(0.5), num(0.5001)));
    cut_selection(&Ieee, &mut clip);
    cut_selection(&Ieee, &mut clip);
    assert_eq!(clip.buffer.len(), 12);
    assert_eq!(clip.selection, Some((num(0.5), num(0.5001))));
}

// ---------------------------------------------------------------- mouse

fn three_clips() -> TimelineState {
    let mut state = TimelineState::new();
    add(&mut state, &[0.5; 8], 1, 4);
    add(&mut state, &[0.5; 8], 1, 4);
    add(&mut state, &[0.5; 8], 1, 4);
    state
}

fn x_at(secs: f64) -> Num {
    num(170.0 + secs * 90.0)
}

fn y_in(lane: f64, offset: f64) -> Num {
    num(28.0 + lane * 86.0 + offset)
}

#[test]
fn clips_are_hit_where_they_are_drawn() {
    let mut state = three_clips();
    assert_eq!(state.hit_test_clip(&Ieee, x_at(1.0), y_in(1.0, 40.0)), Some(2));
    assert_eq!(state.hit_test_clip(&Ieee, x_at(0.0), y_in(0.0, 0.0)), Some(1));
    assert_eq!(state.hit_test_clip(&Ieee, x_at(2.0), y_in(2.0, 85.0)), Some(3));
    assert_eq!(state.hit_test_clip(&Ieee, x_at(2.1), y_in(2.0, 85.0)), None);
    assert_eq!(state.hit_test_clip(&Ieee, num(169.0), y_in(1.0, 40.0)), None);
    assert_eq!(state.hit_test_clip(&Ieee, x_at(1.0), num(27.0)), None);
    state.clips[2].lane = 0;
    assert_eq!(state.hit_test_clip(&Ieee, x_at(1.0), y_in(0.0, 40.0)), Some(3));
}

#[test]
fn ratios_stay_in_the_clip() {
    let state = three_clips();
    assert_eq!(state.clip_ratio_at_mouse(&Ieee, 2, x_at(0.5)), Some(num(0.25)));
    assert_eq!(state.clip_ratio_at_mouse(&Ieee, 2, num(0.0)), Some(num(0.0)));
    assert_eq!(state.clip_ratio_at_mouse(&Ieee, 2, x_at(9.0)), Some(num(1.0)));
    assert_eq!(state.clip_ratio_at_mouse(&Ieee, 9, x_at(0.5)), None);
}

#[test]
fn times_snap_to_the_grid() {
    assert_eq!(value(snap_time(&Ieee, num(1.37), num(0.25))), 1.25);
    assert_eq!(value(snap_time(&Ieee, num(1.375), num(0.25))), 1.5);
    assert_eq!(value(snap_time(&Ieee, num(0.1), num(0.25))), 0.0);
}

#[test]
fn snapping_lands_on_the_grid_and_stays_there() {
    let quarter = num(0.25);
    for (v, s) in [(0.125, 0.25), (-0.125, -0.25), (0.12, 0.0), (1e9, 1e9), (-3.3, -3.25)] {
        assert_eq!(value(snap_time(&Ieee, num(v), quarter)), s);
    }
    let mut last = f64::NEG_INFINITY;
    for i in -4000..4000 {
        let v = i as f64 * 0.0137 + (i % 7) as f64 * 1e-12;
        let s = snap_time(&Ieee, num(v), quarter);
        let snapped = value(s);
        assert_eq!((4.0 * snapped).fract(), 0.0);
        assert!((snapped - v).abs() <= 0.125);
        assert_eq!(value(snap_time(&Ieee, s, quarter)), snapped);
        assert!(last <= snapped);
        last = snapped;
    }
}

#[test]
fn dragging_moves_a_clip_and_makes_lanes() {
    let mut state = three_clips();
    state.drag_offset_secs = num(0.5);
    state.set_clip_position_from_mouse(&Ieee, 2, x_at(5.6), y_in(6.0, 10.0));
    assert_eq!(value(state.clips[1].start_time_secs), 5.0);
    assert_eq!(state.clips[1].lane, 6);
    assert_eq!(state.lanes, 7);
    state.set_clip_position_from_mouse(&Ieee, 2, num(0.0), num(5.0));
    assert_eq!(value(state.clips[1].start_time_secs), 0.0);
    assert_eq!(state.clips[1].lane, 0);
    assert_eq!(state.lanes, 7);
    state.set_clip_position_from_mouse(&Ieee, 2, x_at(1.0), num(100000.0));
    assert_eq!(state.clips[1].lane, 63);
    assert_eq!(state.lanes, 64);
    state.set_clip_position_from_mouse(&Ieee, 99, x_at(1.0), y_in(1.0, 1.0));
    assert_eq!(value(state.clips[0].start_time_secs), 0.0);
    assert_eq!(state.clips[0].lane, 0);
}

#[test]
fn grip_moves_and_body_selects() {
    let mut state = three_clips();
    state.press(&Ieee, 1, x_at(0.5), y_in(1.0, 20.0));
    assert_eq!(state.selected_clip_id, Some(2));
    assert_eq!(state.mouse_mode, MouseMode::MoveClip);
    assert_eq!(state.drag_clip_id, Some(2));
    assert_eq!(value(state.drag_offset_secs), 0.5);
    let size = state.move_mouse(&Ieee, x_at(40.5), y_in(2.0, 20.0));
    assert_eq!(value(state.clips[1].start_time_secs), 40.0);
    assert_eq!(state.clips[1].lane, 2);
    assert_eq!(size, Some((170 + 42 * 90 + 300, 28 + 3 * 86 + 80)));
    state.release();
    assert_eq!(state.mouse_mode, MouseMode::Idle);
    assert_eq!(state.move_mouse(&Ieee, x_at(1.0), y_in(0.0, 20.0)), None);
    assert_eq!(value(state.clips[1].start_time_secs), 40.0);

    state.press(&Ieee, 1, x_at(1.5), y_in(0.0, 40.0));
    assert_eq!(state.mouse_mode, MouseMode::SelectInClip);
    assert_eq!(state.selected_clip().unwrap().id, 1);
    assert_eq!(state.clips[0].selection, Some((num(0.75), num(0.75))));
    assert_eq!(state.move_mouse(&Ieee, x_at(0.5), y_in(0.0, 40.0)), None);
    assert_eq!(state.clips[0].selection, Some((num(0.25), num(0.75))));
    assert_eq!(state.move_mouse(&Ieee, x_at(7.0), y_in(0.0, 40.0)), None);
    assert_eq!(state.clips[0].selection, Some((num(0.75), num(1.0))));
    state.press(&Ieee, 3, x_at(1.0), y_in(0.0, 40.0));
    assert_eq!(state.clips[0].selection, None);
    assert_eq!(state.mouse_mode, MouseMode::Idle);
    assert_eq!(state.drag_clip_id, None);
    assert_eq!(state.selected_clip_id, Some(1));
}

#[test]
fn strip_ends_where_the_waveform_starts() {
    let mut state = three_clips();
    state.press(&Ieee, 1, x_at(0.5), y_in(0.0, 33.5));
    assert_eq!(state.mouse_mode, MouseMode::MoveClip);
    state.press(&Ieee, 1, x_at(0.5), y_in(0.0, 34.0));
    assert_eq!(state.mouse_mode, MouseMode::SelectInClip);
}

#[test]
fn press_beside_the_clips_moves_the_playhead() {
    let mut state = three_clips();
    state.press(&Ieee, 1, x_at(12.0), y_in(1.0, 40.0));
    assert_eq!(state.selected_clip_id, None);
    assert!(state.selected_clip().is_none());
    assert!(state.selected_clip_mut().is_none());
    assert_eq!(value(state.playhead_secs), 12.0);
    state.press(&Ieee, 1, num(20.0), y_in(1.0, 40.0));
    assert_eq!(value(state.playhead_secs), 12.0);
    state.press(&Ieee, 1, x_at(3.0), num(10.0));
    assert_eq!(value(state.playhead_secs), 12.0);
}

#[test]
fn nothing_starts_before_zero() {
    let mut state = three_clips();
    state.press(&Ieee, 1, x_at(1.5), y_in(1.0, 20.0));
    assert_eq!(value(state.clips[1].start_time_secs), 0.0);
    state.move_mouse(&Ieee, x_at(0.5), y_in(1.0, 20.0));
    assert_eq!(value(state.clips[1].start_time_secs), 0.0);
    state.move_mouse(&Ieee, num(-1000.0), y_in(1.0, 20.0));
    assert_eq!(value(state.clips[1].start_time_secs), 0.0);
    state.move_mouse(&Ieee, x_at(2.0), y_in(1.0, 20.0));
    assert_eq!(value(state.clips[1].start_time_secs), 0.5);
    state.release();
    state.press(&Ieee, 1, num(170.0), y_in(1.0, 40.0));
    assert_eq!(value(state.playhead_secs), 0.0);
}

#[test]
fn zoom_stays_between_its_limits() {
    let mut state = TimelineState::new();
    assert_eq!(state.zoom_in(&Ieee), (170 + 3375 + 300, 28 + 258 + 80));
    assert_eq!(value(state.pixels_per_second), 112.5);
    for _ in 0..20 {
        state.zoom_in(&Ieee);
    }
    assert_eq!(value(state.pixels_per_second), 500.0);
    assert_eq!(state.zoom_out(&Ieee), (170 + 12000 + 300, 366));
    for _ in 0..40 {
        state.zoom_out(&Ieee);
    }
    assert_eq!(value(state.pixels_per_second), 20.0);
}

#[test]
fn zooming_out_undoes_zooming_in() {
    let mut neighbours = 0;
    let mut p = 20.0;
    while p <= 400.0 {
        let mut state = TimelineState::new();
        state.pixels_per_second = num(p);
        state.zoom_in(&Ieee);
        state.zoom_out(&Ieee);
        let off = state.pixels_per_second.bits.abs_diff(num(p).bits);
        assert!(off <= 1);
        neighbours += off;
        p = p * 1.0007 + 0.003;
    }
    assert!(neighbours > 0);
    let mut state = TimelineState::new();
    state.zoom_in(&Ieee);
    state.zoom_out(&Ieee);
    assert_eq!(value(state.pixels_per_second), 90.0);
}

#[test]
fn controls_change_the_selected_clip() {
    let mut state = three_clips();
    state.selected_clip_id = Some(2);
    state.set_volume(smp(1.5));
    state.set_speed(num(0.5));
    state.set_bass_gain(smp(2.5));
    assert_eq!(level(state.clips[1].volume), 1.5);
    assert_eq!(value(state.clips[1].speed), 0.5);
    assert_eq!(level(state.clips[1].bass_gain), 2.5);
    assert_eq!(level(state.clips[0].volume), 1.0);
    state.apply_effect(&Ieee, "volume");
    assert_eq!(levels(&state.clips[1].buffer), vec![0.75; 8]);
    assert_eq!(levels(&state.clips[2].buffer), vec![0.5; 8]);
    state.clips[1].selection = Some((num(0.0), num(0.5)));
    state.cut(&Ieee);
    assert_eq!(state.clips[1].buffer.len(), 4);
    state.playhead_secs = num(0.5);
    state.delete_after_playhead(&Ieee);
    assert_eq!(state.clips[1].buffer.len(), 2);
    state.selected_clip_id = None;
    state.set_volume(smp(0.0));
    state.cut(&Ieee);
    state.apply_effect(&Ieee, "disto");
    state.delete_after_playhead(&Ieee);
    assert_eq!(level(state.clips[0].volume), 1.0);
    assert_eq!(levels(&state.clips[0].buffer), vec![0.5; 8]);
}

// ---------------------------------------------------------------- playing

#[test]
fn playhead_follows_the_clock() {
    let mut state = TimelineState::new();
    assert!(!state.tick(&Ieee, 5));
    assert_eq!(value(state.playhead_secs), 0.0);
    state.play(1_000);
    assert!(state.tick(&Ieee, 1_000 + 2_500_000_000));
    assert_eq!(value(state.playhead_secs), 2.5);
    assert!(state.tick(&Ieee, 1_000));
    assert_eq!(value(state.playhead_secs), 2.5);
    state.stop();
    assert!(!state.is_playing);
    assert_eq!(state.last_tick, None);
    state.play(0);
    assert!(state.tick(&Ieee, 27_500_000_000));
    assert_eq!(value(state.playhead_secs), 30.0);
    assert!(!state.is_playing);
    assert_eq!(state.last_tick, None);
}

#[test]
fn clips_are_heard_from_the_playhead_on() {
    let mut state = TimelineState::new();
    let ramp: Vec<f32> = (0..8).map(|i| i as f32 / 10.0).collect();
    add(&mut state, &ramp, 2, 2);
    add(&mut state, &ramp, 2, 2);
    add(&mut state, &ramp, 2, 2);
    state.clips[0].start_time_secs = num(0.0);
    state.clips[1].start_time_secs = num(1.25);
    state.clips[2].start_time_secs = num(5.0);
    state.playhead_secs = num(2.0);
    let heard = state.sources(&Ieee);
    assert_eq!(heard.len(), 2);
    assert_eq!(levels(&heard[0].samples), ramp[2..6].to_vec());
    assert_eq!(value(heard[0].delay_secs), 0.0);
    assert_eq!(levels(&heard[1].samples), ramp);
    assert_eq!(value(heard[1].delay_secs), 3.0);
    assert_eq!((heard[1].channels, heard[1].sample_rate), (2, 2));
}

#[test]
fn source_past_the_end_is_silent() {
    let clip = clip_of(&[0.5; 8], 2, 2);
    let source = make_clip_source(&Ieee, &clip, num(50.0), num(1.5));
    assert_eq!(source.samples.len(), 0);
    assert_eq!(value(source.delay_secs), 1.5);
}

#[test]
fn nothing_is_exported_without_clips() {
    let state = TimelineState::new();
    let refused = state.export_timeline_mix(&Ieee);
    assert_eq!(refused.err(), Some(ExportError::NoClips));
    assert_eq!(ExportError::NoClips.message(), "Aucun clip à exporter");
}

#[test]
fn exported_samples_lie_in_range() {
    let mut state = TimelineState::new();
    add(&mut state, &[1.0, -1.0, 0.9, -0.9, f32::NAN, f32::INFINITY, -5.0], 1, 7);
    add(&mut state, &[1.0, -1.0, 0.9, -0.9, 0.1, 0.1, 0.1], 1, 7);
    let mixdown = state.export_timeline_mix(&Ieee).unwrap();
    assert!(mixdown.samples.iter().all(|n| (-32767..=32767).contains(n)));
    assert_eq!(mixdown.samples[0..7].to_vec(), vec![32767, -32767, 32767, -32767, 0, 32767, -32767]);
}

#[test]
fn full_counter_still_refuses_unplayable_audio() {
    let mut state = TimelineState::new();
    state.next_clip_id = u32::MAX;
    let refused = state.add_clip_from_file(&Ieee, None, Vec::new(), audio(&[], 1, 44100));
    assert_eq!(refused, Err(AddClipError::Unplayable));
}

#[test]
fn export_adds_and_clips() {
    let mut state = TimelineState::new();
    add(&mut state, &[0.5, 0.5, -0.75, 0.25], 1, 4);
    add(&mut state, &[0.25, 0.75, -0.75, 0.25], 1, 4);
    add(&mut state, &[1.0; 8], 2, 4);
    state.clips[1].start_time_secs = num(0.5);
    let mixdown = state.export_timeline_mix(&Ieee).unwrap();
    assert_eq!((mixdown.channels, mixdown.sample_rate, mixdown.bits_per_sample), (1, 4, 16));
    assert_eq!(mixdown.samples.len(), 120);
    assert_eq!(mixdown.ignored, vec![2]);
    let scale = i16::MAX as f32;
    let expected = vec![
        (0.5 * scale) as i16,
        (0.5 * scale) as i16,
        (-0.5 * scale) as i16,
        (1.0 * scale) as i16,
        (-0.75 * scale) as i16,
        (0.25 * scale) as i16,
        0,
    ];
    assert_eq!(mixdown.samples[0..7].to_vec(), expected);
    assert_eq!(expected[3], 32767);
    state.clips[1].start_time_secs = num(0.0);
    let mixdown = state.export_timeline_mix(&Ieee).unwrap();
    assert_eq!(mixdown.samples[2], -32767);
}

// ---------------------------------------------------------------- drawing

#[test]
fn ruler_marks_seconds() {
    let mut state = TimelineState::new();
    let marks = state.ruler(&Ieee);
    assert_eq!(marks.len(), 41);
    assert_eq!((value(marks[7].x), marks[7].second, marks[7].major), (170.0 + 630.0, 7, false));
    assert!(marks[40].major);
    state.pixels_per_second = num(34.0);
    let coarse = state.ruler(&Ieee);
    assert_eq!(coarse.len(), 9);
    assert_eq!((value(coarse[8].x), coarse[8].second), (170.0 + 40.0 * 34.0, 40));
    assert_eq!(state.grid(&Ieee).len(), 41);
}

#[test]
fn lanes_are_drawn_below_the_ruler() {
    let state = TimelineState::new();
    let bands = state.lane_bands(&Ieee);
    assert_eq!(bands.len(), 3);
    assert_eq!((value(bands[1].top), value(bands[1].bottom)), (114.0, 200.0));
    assert_eq!((value(bands[1].label_y), bands[1].even, bands[1].number), (144.0, false, 2));
    assert!(bands[2].even);
    assert_eq!(value(state.lanes_bottom(&Ieee)), 28.0 + 3.0 * 86.0);
    assert_eq!(value(state.playhead_x(&Ieee)), 170.0);
}

#[test]
fn clips_are_drawn_to_scale() {
    let mut state = three_clips();
    state.clips[1].start_time_secs = num(4.0);
    state.clips[1].selection = Some((num(0.25), num(0.5)));
    state.clips[1].effect_zones = vec![zone(0.5, 1.0)];
    state.selected_clip_id = Some(2);
    let boxes = state.clip_boxes(&Ieee);
    assert_eq!(boxes.len(), 3);
    let b = &boxes[1];
    assert_eq!((value(b.x), value(b.y), value(b.width)), (530.0, 126.0, 180.0));
    assert!(b.selected && !boxes[0].selected);
    assert_eq!(value(b.zones[0].0.x), 530.0 + 90.0);
    assert_eq!(value(b.zones[0].0.width), 90.0);
    let selection = b.selection.unwrap();
    assert_eq!((value(selection.x), value(selection.width)), (575.0, 45.0));
    assert_eq!((value(b.name_x), value(b.name_y), value(b.wave_y)), (538.0, 143.0, 148.0));
    let wave = b.wave.as_ref().unwrap();
    assert_eq!((value(wave.back.x), value(wave.back.width)), (534.0, 172.0));
    assert_eq!(wave.bars.len(), 180);
    let middle = 148.0 + 34.0 / 2.0;
    let height = 1.0 * 34.0 * 0.48;
    assert_eq!(value(wave.bars[0].x), 535.0);
    assert_eq!(value(wave.bars[0].top), middle - height);
    assert_eq!(value(wave.bars[0].bottom), middle + height);
    assert_eq!(value(wave.bars[9].x), 530.0 + 5.0 + 9.0 * (170.0 / 180.0));
    assert_eq!(value(wave.bars[9].top), middle - 1.0);
}

#[test]
fn narrow_clips_keep_a_least_width() {
    let mut state = TimelineState::new();
    add(&mut state, &[0.5], 1, 1000);
    let b = state.clip_boxes(&Ieee).remove(0);
    assert_eq!(value(b.width), 8.0);
    assert_eq!(b.wave.unwrap().bars.len(), 8);
    state.clips[0].amplitudes.clear();
    assert!(state.clip_boxes(&Ieee)[0].wave.is_none());
}

#[test]
fn caption_names_the_selected_clip() {
    let mut state = three_clips();
    state.clips[2].selection = Some((num(0.25), num(0.5)));
    match state.caption(&Ieee) {
        Caption::Clip { name, start, lane_number, percent } => {
            assert_eq!(name, "clip");
            assert_eq!(value(start), 0.0);
            assert_eq!(lane_number, 3);
            assert_eq!(percent, Some((num(25.0), num(50.0))));
        }
        Caption::Playhead { .. } => panic!("no clip"),
    }
    state.selected_clip_id = None;
    state.playhead_secs = num(1.5);
    match state.caption(&Ieee) {
        Caption::Playhead { secs } => assert_eq!(value(secs), 1.5),
        Caption::Clip { .. } => panic!("a clip"),
    }
}

#[test]
fn welcome_window_quits_unless_the_editor_was_opened() {
    let mut welcome = Welcome::new();
    assert!(welcome.close_quits());
    welcome.launch();
    assert!(!welcome.close_quits());
}
