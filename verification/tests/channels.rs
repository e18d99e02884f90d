use splitstream::channel::{fold_targets, ChannelMatrix, Level};
use splitstream::float::Float32;
use splitstream::sample::{ChannelLayout, BC, BL, FC, FL, FR, LFE};
use splitstream::spatial::fold_azimuth;

const FOLD_3DB: f32 = std::f32::consts::FRAC_1_SQRT_2;

fn number(value: f32) -> Float32 {
    Float32::from_bits(value.to_bits())
}

fn value(number: Float32) -> f32 {
    f32::from_bits(number.to_bits())
}

fn factors(m: &ChannelMatrix) -> Vec<f32> {
    m.coefficients(
        &|a: Float32, b: Float32| number(value(a) + value(b)),
        &|a: Float32, b: Float32| number(value(a) / value(b)),
    )
    .into_iter()
    .map(value)
    .collect()
}

/// Converts with the factors of the matrix.
fn convert(m: &ChannelMatrix, input: &[f32], output: &mut Vec<f32>) -> usize {
    let coef = factors(m);
    m.process(0.0f32, &|acc: f32, k: usize, s: f32| acc + coef[k] * s, input, output)
}

#[test]
fn identical_layouts_are_identity_and_skip_the_matrix() {
    let m = ChannelMatrix::new(ChannelLayout::stereo(), ChannelLayout::stereo());
    assert!(m.is_identity());
    let input = [0.1f32, 0.2, 0.3, 0.4];
    let mut output = vec![0.0f32; 4];
    assert_eq!(convert(&m, &input, &mut output), 4);
    assert_eq!(output, input);
}

#[test]
fn two_different_six_channel_layouts_are_not_treated_as_identity() {
    let six_ch_other = ChannelLayout::from_mask(0x0000_007E, 6); // FR..BC, no FL
    assert_ne!(ChannelLayout::surround_5_1(), six_ch_other);
    let m = ChannelMatrix::new(ChannelLayout::surround_5_1(), six_ch_other);
    assert!(!m.is_identity());
}

#[test]
fn mono_to_stereo_center_channel_folds_at_minus_3db_into_both_sides() {
    let m = ChannelMatrix::new(ChannelLayout::mono(), ChannelLayout::stereo());
    let input = [1.0f32]; // one frame, FC only
    let mut output = vec![0.0f32; 2];
    convert(&m, &input, &mut output);
    assert!((output[0] - FOLD_3DB).abs() < 1e-6, "L = {}", output[0]);
    assert!((output[1] - FOLD_3DB).abs() < 1e-6, "R = {}", output[1]);
}

#[test]
fn stereo_to_mono_is_half_sum_after_normalization() {
    let m = ChannelMatrix::new(ChannelLayout::stereo(), ChannelLayout::mono());
    let input = [1.0f32, 1.0]; // one frame, L=1, R=1
    let mut output = vec![0.0f32; 1];
    convert(&m, &input, &mut output);
    assert!((output[0] - 1.0).abs() < 1e-6, "expected normalized 0.5+0.5=1.0, got {}", output[0]);
}

#[test]
fn five_one_to_stereo_center_only_input_lands_equal_on_both_outputs() {
    let m = ChannelMatrix::new(ChannelLayout::surround_5_1(), ChannelLayout::stereo());
    // order: FL FR FC LFE BL BR — only FC hot.
    let input = [0.0f32, 0.0, 1.0, 0.0, 0.0, 0.0];
    let mut output = vec![0.0f32; 2];
    convert(&m, &input, &mut output);
    assert!((output[0] - output[1]).abs() < 1e-6, "L={} R={}", output[0], output[1]);
    assert!(output[0] > 0.0, "center must reach the stereo output");
}

#[test]
fn five_one_to_stereo_left_surround_only_input_never_leaks_to_the_right() {
    let m = ChannelMatrix::new(ChannelLayout::surround_5_1(), ChannelLayout::stereo());
    // order: FL FR FC LFE BL BR — only BL (left surround) hot.
    let input = [0.0f32, 0.0, 0.0, 0.0, 1.0, 0.0];
    let mut output = vec![0.0f32; 2];
    convert(&m, &input, &mut output);
    assert!(output[0] > 0.0, "left surround must reach L");
    assert_eq!(output[1], 0.0, "left surround must never leak into R");
}

#[test]
fn five_one_to_stereo_lfe_is_dropped_entirely() {
    let m = ChannelMatrix::new(ChannelLayout::surround_5_1(), ChannelLayout::stereo());
    // order: FL FR FC LFE BL BR — only LFE hot.
    let input = [0.0f32, 0.0, 0.0, 1.0, 0.0, 0.0];
    let mut output = vec![0.0f32; 2];
    convert(&m, &input, &mut output);
    assert_eq!(output, [0.0, 0.0], "LFE must never reach stereo mains");
}

#[test]
fn matrix_never_clips_a_full_scale_5_1_signal_downmixed_to_stereo() {
    let m = ChannelMatrix::new(ChannelLayout::surround_5_1(), ChannelLayout::stereo());
    let input = [1.0f32; 6]; // every channel at full scale simultaneously
    let mut output = vec![0.0f32; 2];
    convert(&m, &input, &mut output);
    for &s in &output {
        assert!(s <= 1.0 + 1e-6, "row not normalized against clipping: {s}");
    }
}

#[test]
fn quad_and_five_one_place_back_left_at_different_columns() {
    // BL (0x10) is column 4 in 5.1 (mask 0x3F, speakers FL,FR,FC,LFE,BL,BR)
    // but column 2 in quad (mask 0x33, speakers FL,FR,BL,BR).
    let quad_speakers = ChannelLayout::quad().speakers();
    let five_one_speakers = ChannelLayout::surround_5_1().speakers();
    assert_eq!(quad_speakers[2], 0x10, "BL should be column 2 in quad");
    assert_eq!(five_one_speakers[4], 0x10, "BL should be column 4 in 5.1");
}

#[test]
fn upmix_stereo_to_quad_passes_front_through_and_leaves_rear_silent() {
    let m = ChannelMatrix::new(ChannelLayout::stereo(), ChannelLayout::quad());
    let input = [0.5f32, 0.7]; // one frame: L=0.5, R=0.7
    let mut output = vec![9.0f32; 4]; // pre-fill non-zero to prove overwrite
    convert(&m, &input, &mut output);
    // QUAD speaker order: FL, FR, BL, BR
    assert!((output[0] - 0.5).abs() < 1e-6, "FL");
    assert!((output[1] - 0.7).abs() < 1e-6, "FR");
    assert_eq!(output[2], 0.0, "BL must be silent, not synthesized");
    assert_eq!(output[3], 0.0, "BR must be silent, not synthesized");
}

#[test]
fn unknown_position_input_channel_folds_into_every_output_not_dropped() {
    // An input mask bit this crate has no named rule for (e.g. a height
    // channel) must still reach every output channel — construction and
    // processing must never silently lose audio.
    let weird_in = ChannelLayout::from_mask(0x1 | 0x2 | 0x1000, 3); // FL, FR, + one unknown bit
    let m = ChannelMatrix::new(weird_in, ChannelLayout::stereo());
    let input = [0.0f32, 0.0, 1.0]; // only the unknown channel hot
    let mut output = vec![0.0f32; 2];
    convert(&m, &input, &mut output);
    assert!(output[0] > 0.0 && output[1] > 0.0, "unknown channel must reach both outputs");
}

#[test]
fn center_channel_reaches_output_even_when_layout_has_no_front_speakers_at_all() {
    // Where the speakers that a front channel folds into are absent as well, it
    // still goes somewhere.
    let side_only = ChannelLayout::from_mask(0x200 | 0x400, 2); // SL|SR, no FC/FL/FR
    let m = ChannelMatrix::new(ChannelLayout::mono(), side_only);
    let input = [1.0f32]; // FC only
    let mut output = vec![0.0f32; 2];
    convert(&m, &input, &mut output);
    assert!(
        output[0] > 0.0 && output[1] > 0.0,
        "center must still reach every output channel via the catch-all, got {output:?}"
    );
}

#[test]
fn process_never_accumulates_into_a_dirty_output_buffer() {
    let m = ChannelMatrix::new(ChannelLayout::surround_5_1(), ChannelLayout::stereo());
    let input = [0.0f32; 6]; // silence in
    let mut output = vec![1.0f32; 2]; // dirty scratch, not zeroed by caller
    convert(&m, &input, &mut output);
    assert_eq!(output, [0.0, 0.0], "process must overwrite, never += into stale scratch");
}

#[test]
fn a_back_center_folds_to_the_nearest_pair() {
    let sides = vec![0x200, 0x400];
    assert_eq!(
        fold_targets(BC, &sides),
        vec![(0x200, Level::Fold), (0x400, Level::Fold)]
    );
    let fronts = vec![FL, FR];
    assert_eq!(fold_targets(BC, &fronts), vec![(FL, Level::Fold), (FR, Level::Fold)]);
    let rears = vec![FL, FR, BL, 0x20];
    assert_eq!(fold_targets(BC, &rears), vec![(BL, Level::Fold), (0x20, Level::Fold)]);
}

#[test]
fn only_the_low_frequency_channel_is_dropped() {
    let out = vec![FL, FR];
    assert!(fold_targets(LFE, &out).is_empty());
    for bit in 0..29 {
        let spk = 1u32 << bit;
        if spk != LFE {
            assert!(fold_targets(spk, &out).iter().any(|(s, _)| out.contains(s)), "{spk:#x}");
        }
    }
}

#[test]
fn a_shared_speaker_passes_through_alone() {
    let out = ChannelLayout::surround_7_1().speakers();
    for spk in out.iter() {
        assert_eq!(fold_targets(*spk, &out), vec![(*spk, Level::Unity)]);
    }
    assert_eq!(fold_targets(FC, &vec![FC]), vec![(FC, Level::Unity)]);
}

#[test]
fn frames_that_do_not_fit_are_left_out() {
    let m = ChannelMatrix::new(ChannelLayout::stereo(), ChannelLayout::mono());
    let input = [1.0f32, 0.0, 0.5, 0.5, 0.0, 1.0];
    let mut output = vec![9.0f32; 2];
    assert_eq!(convert(&m, &input, &mut output), 2);
    assert_eq!(output, vec![0.5, 0.5]);
    let mut roomy = vec![9.0f32; 5];
    assert_eq!(convert(&m, &input, &mut roomy), 3);
    assert_eq!(roomy, vec![0.5, 0.5, 0.5, 9.0, 9.0]);
}

#[test]
fn one_divisor_serves_the_whole_matrix() {
    // FL and FR of 5.1 get three channels each, at 1 and twice the square root
    // of one half; BL, BR, FC are folded, LFE is dropped.
    let m = ChannelMatrix::new(ChannelLayout::surround_5_1(), ChannelLayout::stereo());
    let loudest = 1.0 + FOLD_3DB + FOLD_3DB;
    let expected = [1.0, 0.0, FOLD_3DB, 0.0, FOLD_3DB, 0.0, 0.0, 1.0, FOLD_3DB, 0.0, 0.0, FOLD_3DB];
    for (factor, level) in factors(&m).iter().zip(expected) {
        assert_eq!(*factor, level / loudest);
    }
    // Nothing adds up to more than one here.
    let m = ChannelMatrix::new(ChannelLayout::mono(), ChannelLayout::stereo());
    assert_eq!(factors(&m), vec![FOLD_3DB, FOLD_3DB]);
}

#[test]
fn azimuths_behind_fold_to_the_front() {
    for (azimuth, heard) in
        [(0, 0), (30, 30), (90, 90), (91, 89), (135, 45), (180, 0), (-30, -30), (-135, -45), (-180, 0), (270, -90)]
    {
        assert_eq!(fold_azimuth(azimuth), heard);
    }
}
