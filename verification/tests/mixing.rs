use rustfft::num_complex::Complex;
use std::sync::Arc;
use rubato::{Resampler as _, SincFixedIn, SincInterpolationParameters, SincInterpolationType, WindowFunction};
use rustfft::{Fft, FftPlanner};
use splitstream::chain::{DspChain, validate_eq_band};
use splitstream::channel::ChannelMatrix;
use splitstream::command::MixerCommand;
use splitstream::convolve::{PartitionedConvolver, Transform};
use splitstream::desk::{Desk, Machine};
use splitstream::dsp::{DspParam, DspSpec, EqBandSpec};
use splitstream::dynamics::{DuckTargetGain, EnvFollower, Fader, Limiter};
use splitstream::equalizer::ParametricEq;
use splitstream::float::{Float32, Float64};
use splitstream::meter::{MeterLevel, PeakMeter};
use splitstream::mixer::{Mixer, Render};
use splitstream::model::DspStageConfig;
use splitstream::ramp::{Arithmetic, BypassRamp, Coefficients, Memory, Smoothed};
use splitstream::resample::{Resampler, Src, SrcProgress, max_output_block_frames};
use splitstream::sample::{BC, ChannelLayout, DomainError, DuckSpec, FC, FL, FLC, FR, Format, Gain, GroupId, GroupSpec, OutputId, OutputSpec, ResampleRatio, Topology};
use splitstream::spatial::{HrirSet, Position, Spatializer, ear_pair, fold_azimuth, position_for, shadow_taps};
use splitstream::stages::{DspStage, Rack};

fn value(number: Float32) -> f32 {
    f32::from_bits(number.to_bits())
}

fn number(value: f32) -> Float32 {
    Float32::from_bits(value.to_bits())
}

fn values(block: &[Float32]) -> Vec<f32> {
    block.iter().map(|s| value(*s)).collect()
}

fn numbers(block: &[f32]) -> Vec<Float32> {
    block.iter().map(|s| number(*s)).collect()
}

fn db_to_linear(db: f32) -> f32 {
    10f32.powf(db / 20.0)
}

/// The arithmetic of IEEE 754.
struct Ieee;

impl Arithmetic for Ieee {
    fn glide(&self, current: Float32, target: Float32, coeff: Float32) -> Float32 {
        number(value(target) + value(coeff) * (value(current) - value(target)))
    }

    fn plus(&self, a: Float32, b: Float32) -> Float32 {
        number(value(a) + value(b))
    }

    fn minus(&self, a: Float32, b: Float32) -> Float32 {
        number(value(a) - value(b))
    }

    fn times(&self, a: Float32, b: Float32) -> Float32 {
        number(value(a) * value(b))
    }

    fn over(&self, a: Float32, b: Float32) -> Float32 {
        number(value(a) / value(b))
    }

    fn blend(&self, dry: Float32, wet: Float32, mix: Float32) -> Float32 {
        number(value(dry) + value(mix) * (value(wet) - value(dry)))
    }

    fn settling(&self, seconds: Float32, sample_rate: u32) -> Float32 {
        number((-1.0 / (value(seconds) * sample_rate as f32)).exp())
    }

    fn decay(&self, level: Float32, coeff: Float32, frames: usize) -> Float32 {
        number(value(level) * value(coeff).powi(frames as i32))
    }

    fn linear(&self, decibels: Float32) -> Float32 {
        number(db_to_linear(value(decibels)))
    }

    fn decibels(&self, linear: Float32) -> Float32 {
        number(20.0 * value(linear).log10())
    }

    /// From the audio equaliser cookbook, in double precision.
    fn peaking(&self, freq_hz: Float32, gain_db: Float32, q: Float32, sample_rate: u32) -> Coefficients {
        let w0 = 2.0 * std::f64::consts::PI * value(freq_hz) as f64 / sample_rate as f64;
        let alpha = w0.sin() / (2.0 * value(q) as f64);
        let a = 10f64.powf(value(gain_db) as f64 / 40.0);
        let a0 = 1.0 + alpha / a;
        Coefficients {
            b0: number(((1.0 + alpha * a) / a0) as f32),
            b1: number((-2.0 * w0.cos() / a0) as f32),
            b2: number(((1.0 - alpha * a) / a0) as f32),
            a1: number((-2.0 * w0.cos() / a0) as f32),
            a2: number(((1.0 - alpha / a) / a0) as f32),
        }
    }

    /// Transposed direct form II.
    fn filter(&self, c: Coefficients, memory: Memory, x: Float32) -> (Memory, Float32) {
        let x = value(x);
        let y = value(c.b0) * x + value(memory.z1);
        let z1 = value(c.b1) * x - value(c.a1) * y + value(memory.z2);
        let z2 = value(c.b2) * x - value(c.a2) * y;
        (Memory { z1: number(z1), z2: number(z2) }, number(y))
    }
}

const LFE_GAIN_DB: f32 = -6.0;
const HEAD_RADIUS_M: f32 = 0.0875;
const SPEED_OF_SOUND_MPS: f32 = 343.0;
/// How much quieter the far ear is for a source right at the side.
const HEAD_SHADOW_MAX_DB: f32 = 12.0;
const IMPULSE_DURATION_S: f32 = 128.0 / 44_100.0;

fn taps_for(sample_rate: u32) -> usize {
    (sample_rate as f32 * IMPULSE_DURATION_S).round().max(1.0) as usize
}

/// The impulses of an azimuth at the left and the right ear: a unit impulse at
/// the near one, a later and fainter one at the far one.
fn synth_pair(azimuth: i32, sample_rate: u32, taps: usize) -> (Vec<f32>, Vec<f32>) {
    let theta = (fold_azimuth(azimuth) as f32).to_radians().abs();
    let itd_s = (HEAD_RADIUS_M / SPEED_OF_SOUND_MPS) * (theta + theta.sin());
    let delay = (itd_s * sample_rate as f32).round() as usize;
    let shadow = (theta / std::f32::consts::FRAC_PI_2).min(1.0);
    let decay = (0.85 - 0.5 * shadow).max(0.1);
    let mut kernel = vec![db_to_linear(-HEAD_SHADOW_MAX_DB * shadow)];
    while kernel.len() < shadow_taps(azimuth) {
        kernel.push(kernel[kernel.len() - 1] * decay);
    }
    ear_pair(taps.max(1), 0.0, 1.0, &kernel, delay, azimuth >= 0)
}

fn hrirs(sample_rate: u32) -> HrirSet<f32> {
    HrirSet::embedded(sample_rate, taps_for(sample_rate), &synth_pair)
}

/// The discrete Fourier transform of windows of one length.
struct Fourier {
    fft: Arc<dyn Fft<f32>>,
    ifft: Arc<dyn Fft<f32>>,
    norm: f32,
}

impl Fourier {
    fn new(len: usize) -> Fourier {
        let mut planner = FftPlanner::new();
        Fourier {
            fft: planner.plan_fft_forward(len),
            ifft: planner.plan_fft_inverse(len),
            norm: 1.0 / len as f32,
        }
    }
}

impl Transform<f32, Complex<f32>> for Fourier {
    fn forward(&self, window: Vec<f32>) -> Vec<Complex<f32>> {
        let mut bins: Vec<Complex<f32>> = window.into_iter().map(|s| Complex::new(s, 0.0)).collect();
        self.fft.process(&mut bins);
        bins
    }

    fn gather(&self, sum: Complex<f32>, x: Complex<f32>, h: Complex<f32>) -> Complex<f32> {
        sum + x * h
    }

    fn inverse(&self, mut spectrum: Vec<Complex<f32>>) -> Vec<f32> {
        self.ifft.process(&mut spectrum);
        spectrum.into_iter().map(|c| c.re * self.norm).collect()
    }
}

type Convolver = PartitionedConvolver<f32, Complex<f32>, Fourier>;

fn convolver(impulse: &[f32], partition: usize) -> Convolver {
    let partition = partition.max(1);
    PartitionedConvolver::new(
        Fourier::new(partition * 2),
        Complex::new(0.0, 0.0),
        0.0,
        impulse,
        partition,
    )
}

/// The convolvers of one group, a pair for each channel with a direction.
type Ears = Vec<(Convolver, Convolver)>;

fn ears(plan: &Spatializer, sample_rate: u32) -> Ears {
    plan.equip(&hrirs(sample_rate), &|impulse: &Vec<f32>, partition: usize| convolver(impulse, partition))
}

/// The level at which the low-frequency channel goes to both ears.
fn low_level() -> f32 {
    db_to_linear(LFE_GAIN_DB)
}

const SINC_LEN: usize = 64;
const F_CUTOFF: f32 = 0.95;
const OVERSAMPLING_FACTOR: usize = 32;
/// Share of the way to the target ratio that is gone per chunk.
const RATIO_GLIDE_RATE: f64 = 0.05;
/// The widest ratio that is ever asked for, either way.
const MAX_RELATIVE_RATIO: f64 = 1.0 / 0.9;

/// The factors of a matrix.
fn coefficients(matrix: &ChannelMatrix) -> Vec<f32> {
    values(&matrix.coefficients(
        &|a: Float32, b: Float32| Ieee.plus(a, b),
        &|a: Float32, b: Float32| Ieee.over(a, b),
    ))
}

/// One group's resampler, with the ratio on its way to its target.
struct Line {
    resampler: SincFixedIn<f32>,
    current_ratio: f64,
}

impl Line {
    fn new(from_rate: u32, to: Format, chunk_frames: usize) -> Result<Line, DomainError> {
        let params = SincInterpolationParameters {
            sinc_len: SINC_LEN,
            f_cutoff: F_CUTOFF,
            oversampling_factor: OVERSAMPLING_FACTOR,
            interpolation: SincInterpolationType::Linear,
            window: WindowFunction::BlackmanHarris2,
        };
        let base = to.sample_rate as f64 / from_rate as f64;
        let channels = to.channels as usize;
        let resampler = SincFixedIn::new(base, MAX_RELATIVE_RATIO, params, chunk_frames, channels)
            .map_err(|e| DomainError::ResamplerInit(e.to_string()))?;
        Ok(Line { resampler, current_ratio: 1.0 })
    }

    fn resample(&mut self, channels: &[Vec<f32>], target: f64) -> Vec<Vec<f32>> {
        self.current_ratio += RATIO_GLIDE_RATE * (target - self.current_ratio);
        self.resampler
            .set_resample_ratio_relative(self.current_ratio, true)
            .expect("the ratio is between the bounds that the resampler was made with");
        self.resampler
            .process(channels, None)
            .expect("a chunk has as many frames as the resampler was made for")
    }
}

struct GroupLine {
    rate: u32,
    /// Made when a spatial rendering is first asked for.
    ears: Option<Ears>,
    line: Line,
}

/// The machine under the desk of a mixer.
struct Engine {
    groups: Vec<GroupLine>,
}

impl Engine {
    /// The machine for a mixer that was just made.
    fn new(mixer: &Mixer<Float32>) -> Result<Engine, DomainError> {
        let mut groups = Vec::new();
        for g in &mixer.groups {
            let rate = g.input_format.sample_rate;
            let to = match mixer.outputs.iter().find(|o| o.id == g.output) {
                Some(out) => out.format,
                None => return Err(DomainError::DanglingOutputRef { group: g.id, output: g.output }),
            };
            let line = Line::new(rate, to, mixer.max_block_frames)?;
            groups.push(GroupLine { rate, ears: None, line });
        }
        Ok(Engine { groups })
    }

}

impl Arithmetic for Engine {
    fn glide(&self, current: Float32, target: Float32, coeff: Float32) -> Float32 {
        Ieee.glide(current, target, coeff)
    }

    fn plus(&self, a: Float32, b: Float32) -> Float32 {
        Ieee.plus(a, b)
    }

    fn minus(&self, a: Float32, b: Float32) -> Float32 {
        Ieee.minus(a, b)
    }

    fn times(&self, a: Float32, b: Float32) -> Float32 {
        Ieee.times(a, b)
    }

    fn over(&self, a: Float32, b: Float32) -> Float32 {
        Ieee.over(a, b)
    }

    fn blend(&self, dry: Float32, wet: Float32, mix: Float32) -> Float32 {
        Ieee.blend(dry, wet, mix)
    }

    fn settling(&self, seconds: Float32, sample_rate: u32) -> Float32 {
        Ieee.settling(seconds, sample_rate)
    }

    fn decay(&self, level: Float32, coeff: Float32, frames: usize) -> Float32 {
        Ieee.decay(level, coeff, frames)
    }

    fn linear(&self, decibels: Float32) -> Float32 {
        Ieee.linear(decibels)
    }

    fn decibels(&self, linear: Float32) -> Float32 {
        Ieee.decibels(linear)
    }

    fn peaking(&self, freq_hz: Float32, gain_db: Float32, q: Float32, sample_rate: u32) -> Coefficients {
        Ieee.peaking(freq_hz, gain_db, q, sample_rate)
    }

    fn filter(&self, coefficients: Coefficients, memory: Memory, x: Float32) -> (Memory, Float32) {
        Ieee.filter(coefficients, memory, x)
    }
}

impl Resampler<Float32> for Engine {
    fn resample(
        mut self,
        line: usize,
        channels: Vec<Vec<Float32>>,
        ratio: ResampleRatio,
    ) -> (Self, Vec<Vec<Float32>>) {
        let target = f64::from_bits(ratio.value().to_bits());
        let channels: Vec<Vec<f32>> = channels.iter().map(|c| values(c)).collect();
        let out = self.groups[line].line.resample(&channels, target);
        (self, out.iter().map(|c| numbers(c)).collect())
    }
}

impl Machine for Engine {
    fn render(mut self, group: usize, render: &Render, block: &Vec<Float32>) -> (Self, Vec<Float32>) {
        let g = &mut self.groups[group];
        let input = values(block);
        let (frames, channels, coef) = match render {
            Render::Matrix(matrix) => {
                g.ears = None;
                (input.len() / matrix.in_ch.max(1), matrix.out_ch, coefficients(matrix))
            }
            Render::Spatial(plan) => {
                let rate = g.rate;
                g.ears.get_or_insert_with(|| ears(plan, rate));
                (input.len() / plan.in_ch.max(1), 2, Vec::new())
            }
        };
        let low = low_level();
        let mut out = vec![0.0f32; frames * channels];
        let mut none = Ears::new();
        render.process(
            g.ears.as_mut().unwrap_or(&mut none),
            0.0f32,
            &|acc: f32, k: usize, s: f32| acc + coef[k] * s,
            &|a: f32, b: f32| a + b,
            &|x: f32| x * low,
            &input,
            &mut out,
        );
        (self, numbers(&out))
    }
}

fn level(value: f32) -> Gain {
    Gain::new(number(value)).unwrap()
}

fn ratio(value: f64) -> ResampleRatio {
    ResampleRatio::new(Float64::from_bits(value.to_bits())).unwrap()
}

fn sum(a: Float32, b: Float32) -> Float32 {
    Ieee.plus(a, b)
}

/// The arithmetic alone.
fn machine() -> Engine {
    Engine { groups: Vec::new() }
}

/// A mixer and its desk.
struct Rig {
    mixer: Mixer<Float32>,
    desk: Option<Desk<Engine>>,
}

impl Rig {
    fn new(topology: &Topology, max_block_frames: usize) -> Result<Rig, DomainError> {
        let mixer = Mixer::new(topology, max_block_frames, number(0.0))?;
        let engine = Engine::new(&mixer)?;
        let desk = Desk::new(engine, &mixer);
        Ok(Rig { mixer, desk: Some(desk) })
    }

    fn desk(&self) -> &Desk<Engine> {
        self.desk.as_ref().unwrap()
    }

    fn apply(&mut self, command: MixerCommand) {
        self.mixer.give(self.desk.as_mut().unwrap(), command);
    }

    /// Whether a command leaves every group as it was.
    fn refuses(&mut self, command: MixerCommand) -> bool {
        let before = format!("{:?}", self.mixer);
        self.mixer.apply(command);
        before == format!("{:?}", self.mixer)
    }

    fn push_group(&mut self, group: GroupId, frames: &[f32]) {
        let desk = self.desk.take().unwrap();
        self.desk = Some(self.mixer.push_group(desk, group, &numbers(frames)));
    }

    fn mix_tick(&mut self) {
        let desk = self.desk.take().unwrap();
        self.desk = Some(self.mixer.mix_tick(desk, &sum));
    }

    fn mix_tick_gated(&mut self, blocked: &[OutputId]) {
        let desk = self.desk.take().unwrap();
        self.desk = Some(self.mixer.mix_tick_gated(desk, &sum, blocked));
    }

    fn take_output(&mut self, output: OutputId, buf: &mut [f32]) -> usize {
        let mut samples = numbers(buf);
        let n = self.mixer.take_output(output, &mut samples);
        buf.copy_from_slice(&values(&samples));
        n
    }

    fn output_capacity(&self, output: OutputId) -> usize {
        self.mixer.output_capacity(output)
    }

    fn discard_group_partial_input(&mut self, group: GroupId) {
        self.mixer.discard_group_partial_input(group);
    }

    fn group_peak(&self, group: GroupId) -> MeterLevel {
        self.mixer.group_peak(self.desk(), group)
    }

    fn output_peak(&self, output: OutputId) -> MeterLevel {
        self.mixer.output_peak(self.desk(), output)
    }

    fn group_peak_value(&self, group: GroupId) -> f32 {
        value(self.group_peak(group).peak)
    }

    fn output_peak_value(&self, output: OutputId) -> f32 {
        value(self.output_peak(output).peak)
    }

    fn group_duck_depth_db(&self, group: GroupId) -> f32 {
        value(self.mixer.group_duck_depth_db(self.desk(), group))
    }

    fn output_limiter_engaged(&self, output: OutputId) -> bool {
        self.mixer.output_limiter_engaged(self.desk(), output)
    }
}

fn stereo(rate: u32) -> Format {
    Format {
        sample_rate: rate,
        channels: 2,
        layout: ChannelLayout::stereo(),
    }
}

#[test]
fn a_faster_output_device_than_the_capture_loses_no_frames() {
    let block = 512;
    let topology = Topology {
        master: Gain::unity(),
        groups: vec![GroupSpec {
            id: GroupId(0),
            gain: Gain::unity(),
            follow_master: false,
            output: OutputId(0),
            input_format: stereo(48_000),
            dsp: Vec::new(),
            duck: None,
            spatial: false,
            mute: false,
        }],
        outputs: vec![OutputSpec { id: OutputId(0), format: stereo(96_000) }],
    };
    let mut mixer = Rig::new(&topology, block).unwrap();

    let capacity = mixer.output_capacity(OutputId(0));
    assert!(
        capacity >= block * 2 * 2,
        "the accumulator must hold a whole block at the OUTPUT rate (2x here), \
         got {capacity} samples for a {block}-frame input block"
    );

    let input = vec![0.5f32; block * 2];
    let mut out = vec![0.0f32; capacity];
    let mut total_out = 0usize;
    let blocks = 40;
    for _ in 0..blocks {
        mixer.push_group(GroupId(0), &input);
        mixer.mix_tick();
        total_out += mixer.take_output(OutputId(0), &mut out);
    }

    let total_in = blocks * block * 2;
    let ratio = total_out as f64 / total_in as f64;
    assert!(
        ratio > 1.9,
        "a 48k -> 96k path must emit ~2 output samples per input sample; got {ratio:.3} \
         ({total_out} out / {total_in} in) — the surplus is being truncated"
    );
}

#[test]
fn every_device_rate_conserves_frames_against_the_fixed_48k_capture() {
    let block = 512;
    for &out_rate in &[24_000u32, 44_100, 48_000, 88_200, 96_000, 128_000, 176_400, 192_000] {
        let topology = Topology {
            master: Gain::unity(),
            groups: vec![GroupSpec {
                id: GroupId(0),
                gain: Gain::unity(),
                follow_master: false,
                output: OutputId(0),
                input_format: stereo(48_000),
                dsp: Vec::new(),
                duck: None,
                spatial: false,
                mute: false,
            }],
            outputs: vec![OutputSpec { id: OutputId(0), format: stereo(out_rate) }],
        };
        let mut mixer = Rig::new(&topology, block).unwrap();
        let capacity = mixer.output_capacity(OutputId(0));

        let input = vec![0.5f32; block * 2];
        let mut out = vec![0.0f32; capacity];
        let mut total_out = 0usize;
        let blocks = 60;
        for _ in 0..blocks {
            mixer.push_group(GroupId(0), &input);
            mixer.mix_tick();
            let n = mixer.take_output(OutputId(0), &mut out);
            // The decisive check: a tick that filled the accumulator to
            // its brim is one the SRC may have overflowed. `take_output`
            // clears the accumulator either way, so a short buffer here is
            // unrecoverable loss, not backpressure.
            assert!(
                n < capacity,
                "{out_rate} Hz: a tick produced {n} samples into a {capacity}-sample \
                 accumulator — at the brim, so the SRC's surplus was truncated"
            );
            total_out += n;
        }

        let expected = out_rate as f64 / 48_000.0;
        let actual = total_out as f64 / (blocks * block * 2) as f64;
        assert!(
            (actual - expected).abs() < 0.02,
            "{out_rate} Hz: expected ~{expected:.3} output samples per input sample, \
             got {actual:.3} — frames are being lost or fabricated"
        );
    }
}

fn five_one(rate: u32) -> Format {
    Format {
        sample_rate: rate,
        channels: 6,
        layout: ChannelLayout::surround_5_1(),
    }
}

fn single_group_topology(gain: f32, follow_master: bool, master: f32) -> Topology {
    Topology {
        master: level(master),
        groups: vec![GroupSpec {
            id: GroupId(1),
            gain: level(gain),
            follow_master,
            output: OutputId(1),
            input_format: stereo(48_000),
            dsp: Vec::new(),
            duck: None,
            spatial: false,
            mute: false,
        }],
        outputs: vec![OutputSpec {
            id: OutputId(1),
            format: stereo(48_000),
        }],
    }
}

fn run_ticks(
    mixer: &mut Rig,
    group: GroupId,
    output: OutputId,
    frames: &[f32],
    ticks: usize,
) -> Vec<f32> {
    let mut collected = Vec::new();
    for _ in 0..ticks {
        mixer.push_group(group, frames);
        mixer.mix_tick();
        let mut out = vec![0.0f32; frames.len()];
        let n = mixer.take_output(output, &mut out);
        collected.extend_from_slice(&out[..n]);
    }
    collected
}

fn n_groups_one_output_at(n: u16, out_rate: u32) -> Topology {
    let mut t = n_groups_one_output(n);
    t.outputs[0].format = stereo(out_rate);
    t
}

fn n_groups_one_output(n: u16) -> Topology {
    Topology {
        master: level(1.0),
        groups: (1..=n)
            .map(|id| GroupSpec {
                id: GroupId(id),
                gain: level(1.0),
                follow_master: false,
                output: OutputId(1),
                input_format: stereo(48_000),
                dsp: Vec::new(),
                duck: None,
                spatial: false,
                mute: false,
            })
            .collect(),
        outputs: vec![OutputSpec { id: OutputId(1), format: stereo(48_000) }],
    }
}

fn two_groups_one_output() -> Topology {
    let group = |id: u16| GroupSpec {
        id: GroupId(id),
        gain: level(1.0),
        follow_master: false,
        output: OutputId(1),
        input_format: stereo(48_000),
        dsp: Vec::new(),
        duck: None,
        spatial: false,
        mute: false,
    };
    Topology {
        master: level(1.0),
        groups: vec![group(1), group(2)],
        outputs: vec![OutputSpec { id: OutputId(1), format: stereo(48_000) }],
    }
}

#[test]
fn groups_sharing_an_output_never_emit_a_span_another_group_owes() {
    let block = 304;
    let mut mixer = Rig::new(&two_groups_one_output(), block).unwrap();
    let mut collected = Vec::new();
    for t in 0..900 {
        // Partial blocks every tick — both groups always have input in
        // flight, which is what makes each of them gate the shared span.
        mixer.push_group(GroupId(1), &vec![0.5f32; (block / 3) * 2]);
        // Primed half a block ahead, so its chunk boundaries never line up
        // with group 1's.
        let n = if t == 0 { block / 2 + block / 3 } else { block / 3 };
        mixer.push_group(GroupId(2), &vec![0.0f32; n * 2]);
        mixer.mix_tick();
        let mut out = vec![0.0f32; mixer.output_capacity(OutputId(1))];
        let n = mixer.take_output(OutputId(1), &mut out);
        collected.extend_from_slice(&out[..n]);
    }

    let tail = &collected[collected.len() / 2..];
    let near_zero = tail.iter().filter(|s| s.abs() < 0.05).count();
    assert_eq!(
        near_zero,
        0,
        "{near_zero} of {} settled output samples are near silence — group 1 feeds              continuous audio, so any silence in the span is group 2's chunk timing              being emitted in its place",
        tail.len()
    );
}

#[test]
fn a_group_with_nothing_in_flight_does_not_stall_its_output() {
    let block = 304;
    let mut mixer = Rig::new(&two_groups_one_output(), block).unwrap();
    let mut collected = Vec::new();
    for _ in 0..200 {
        // Group 2 is never fed at all: no pids, nothing in its resampler.
        mixer.push_group(GroupId(1), &vec![0.5f32; block * 2]);
        mixer.mix_tick();
        let mut out = vec![0.0f32; mixer.output_capacity(OutputId(1))];
        let n = mixer.take_output(OutputId(1), &mut out);
        collected.extend_from_slice(&out[..n]);
    }

    assert!(
        !collected.is_empty(),
        "an output whose second group is idle must still emit — gating on a group              that has no audio at all would stall it permanently"
    );
    let tail = &collected[collected.len() / 2..];
    for &s in tail {
        assert!((s - 0.5).abs() < 1e-2, "expected the live group's ~0.5, got {s}");
    }
}

/// Feeds group 1 continuously and group 2 exactly one short block (half a
/// chunk — `chunk_in` is `max_block_frames`, so it can never complete),
/// then stops feeding group 2 the way the engine does: an empty push every
/// tick. Returns, per tick, how many output samples came out.
fn ticks_after_a_group_stops_being_fed(
    block: usize,
    ticks: usize,
    on_stop: impl FnOnce(&mut Rig),
) -> Vec<usize> {
    let mut mixer = Rig::new(&two_groups_one_output(), block).unwrap();
    // The partial only reaches the resampler when a tick runs, and the
    // stop loop below pushes group 2 an empty block that would overwrite
    // `valid_len` first — so prime with a tick of its own.
    mixer.push_group(GroupId(1), &vec![0.5f32; block * 2]);
    mixer.push_group(GroupId(2), &vec![0.5f32; (block / 2) * 2]);
    mixer.mix_tick();
    let mut prime = vec![0.0f32; mixer.output_capacity(OutputId(1))];
    mixer.take_output(OutputId(1), &mut prime);
    on_stop(&mut mixer);

    let mut per_tick = Vec::new();
    for _ in 0..ticks {
        mixer.push_group(GroupId(1), &vec![0.5f32; block * 2]);
        mixer.push_group(GroupId(2), &[]);
        mixer.mix_tick();
        let mut out = vec![0.0f32; mixer.output_capacity(OutputId(1))];
        per_tick.push(mixer.take_output(OutputId(1), &mut out));
    }
    per_tick
}

#[test]
fn a_group_that_stops_being_fed_stops_gating_its_output() {
    let per_tick = ticks_after_a_group_stops_being_fed(304, 20, |_| {});

    assert!(
        per_tick.iter().any(|&n| n > 0),
        "the output never resumed — a group that will never be fed again is still \
         gating its span"
    );
}

#[test]
fn unassigning_a_groups_last_pid_frees_its_outputs_span() {
    // The grace above is the backstop; this is the mechanism. The engine
    // calls `discard_group_partial_input` the tick a group's pids go
    // empty, so the other groups on that output never hear the gap the
    // grace would cost them.
    let per_tick =
        ticks_after_a_group_stops_being_fed(304, 8, |m| m.discard_group_partial_input(GroupId(2)));

    assert!(
        per_tick[..4].iter().any(|&n| n > 0),
        "output stalled after the discard — it should free the span immediately, \
         not wait for the parking capacity to fill"
    );
}

#[test]
fn a_blocked_output_parks_its_audio_instead_of_emitting_it() {
    let block = 304;
    let mut mixer = Rig::new(&two_groups_one_output(), block).unwrap();

    mixer.push_group(GroupId(1), &vec![0.5f32; block * 2]);
    mixer.push_group(GroupId(2), &vec![0.5f32; (block / 3) * 2]);
    mixer.mix_tick();
    let mut out = vec![0.0f32; mixer.output_capacity(OutputId(1))];
    assert_eq!(
        mixer.take_output(OutputId(1), &mut out),
        0,
        "group 2 is mid-chunk, so nothing should be emitted yet — without this the \
         rest of the test proves nothing"
    );

    // Blocked. Input is withheld by the SAME predicate in the engine
    // (`group_may_push` decides both), so the groups are pushed empty —
    // that coupling is load-bearing, not incidental: blocking emission
    // while input still flowed would overrun `resampled` and the surplus
    // would become unconsumed input, silently dropped in release.
    let mut emitted_while_blocked = 0;
    for _ in 0..40 {
        mixer.push_group(GroupId(1), &[]);
        mixer.push_group(GroupId(2), &[]);
        mixer.mix_tick_gated(&[OutputId(1)]);
        let mut out = vec![0.0f32; mixer.output_capacity(OutputId(1))];
        emitted_while_blocked += mixer.take_output(OutputId(1), &mut out);
    }
    assert_eq!(emitted_while_blocked, 0, "a blocked output must not emit");

    // Unblocked, with input resumed as the engine resumes pulling it: the
    // parked audio comes out. It was held, not dropped.
    let mut recovered = 0;
    for _ in 0..20 {
        mixer.push_group(GroupId(1), &vec![0.5f32; block * 2]);
        mixer.push_group(GroupId(2), &vec![0.5f32; block * 2]);
        mixer.mix_tick();
        let mut out = vec![0.0f32; mixer.output_capacity(OutputId(1))];
        recovered += mixer.take_output(OutputId(1), &mut out);
    }
    assert!(recovered > 0, "audio parked during the block must still be delivered");
}

#[test]
fn groups_sharing_an_output_stay_frame_aligned() {
    let block = 304;
    let mut mixer = Rig::new(&two_groups_one_output(), block).unwrap();
    mixer.apply(MixerCommand::SetOutputRatio(
        OutputId(1),
        ratio(1.005),
    ));

    let frames = vec![0.25f32; block * 2];
    let mut collected = Vec::new();
    for _ in 0..200 {
        mixer.push_group(GroupId(1), &frames);
        mixer.push_group(GroupId(2), &frames);
        mixer.mix_tick();
        let mut out = vec![0.0f32; mixer.output_capacity(OutputId(1))];
        let n = mixer.take_output(OutputId(1), &mut out);
        collected.extend_from_slice(&out[..n]);
    }

    // Settled tail only — the resampler's start-up transient is not what
    // this pins.
    let tail = &collected[collected.len() / 2..];
    let notched = tail.iter().filter(|s| **s < 0.4).count();
    assert_eq!(
        notched, 0,
        "{notched} of {} output samples dropped below 0.4 — one group's contribution is \
         missing from part of the span, which is the frame-misalignment notch",
        tail.len()
    );
}

#[test]
fn unity_gain_same_format_passes_samples_through() {
    let topo = single_group_topology(1.0, false, 1.0);
    let mut mixer = Rig::new(&topo, 256).unwrap();
    let frames = vec![0.5f32; 64 * 2];

    let collected = run_ticks(&mut mixer, GroupId(1), OutputId(1), &frames, 80);

    assert!(
        !collected.is_empty(),
        "resampler never produced output across 80 ticks"
    );
    let tail = &collected[collected.len().saturating_sub(64)..];
    for &s in tail {
        assert!((s - 0.5).abs() < 1e-3, "expected ~0.5, got {s}");
    }
}

#[test]
fn zero_gain_settles_to_silence() {
    let topo = single_group_topology(0.0, false, 1.0);
    let mut mixer = Rig::new(&topo, 256).unwrap();
    let frames = vec![1.0f32; 64 * 2];

    let collected = run_ticks(&mut mixer, GroupId(1), OutputId(1), &frames, 80);

    assert!(
        !collected.is_empty(),
        "resampler never produced output across 80 ticks"
    );
    let tail = &collected[collected.len().saturating_sub(64)..];
    for &s in tail {
        assert!(s.abs() < 1e-2, "expected ~0.0, got {s}");
    }
}

#[test]
fn take_output_resets_accumulator_between_ticks() {
    let topo = single_group_topology(1.0, false, 1.0);
    let mut mixer = Rig::new(&topo, 256).unwrap();
    let frames = vec![0.3f32; 32 * 2];

    // Push several ticks so the resampler has definitely produced at
    // least one chunk of output at some point.
    run_ticks(&mut mixer, GroupId(1), OutputId(1), &frames, 32);

    // No push_group this tick — accumulator must read back empty, not stale.
    let mut out = vec![9.0f32; 32 * 2];
    let n = mixer.take_output(OutputId(1), &mut out);
    assert_eq!(n, 0);
}

#[test]
fn group_peak_reflects_the_post_fader_signal() {
    let topo = single_group_topology(1.0, false, 1.0);
    let mut mixer = Rig::new(&topo, 256).unwrap();
    let frames = vec![0.5f32; 64 * 2];

    mixer.push_group(GroupId(1), &frames);
    mixer.mix_tick();

    // Sampled pre-SRC, so one tick is enough (no resampler warm-up).
    assert!((mixer.group_peak_value(GroupId(1)) - 0.5).abs() < 1e-3);
}

#[test]
fn group_peak_scales_with_the_fader() {
    let topo = single_group_topology(0.5, false, 1.0);
    let mut mixer = Rig::new(&topo, 256).unwrap();
    let frames = vec![0.8f32; 64 * 2];

    mixer.push_group(GroupId(1), &frames);
    mixer.mix_tick();

    // 0.8 signal * 0.5 fader = 0.4.
    assert!((mixer.group_peak_value(GroupId(1)) - 0.4).abs() < 1e-3);
}

#[test]
fn group_peak_decays_when_the_group_goes_idle() {
    let topo = single_group_topology(1.0, false, 1.0);
    let mut mixer = Rig::new(&topo, 256).unwrap();

    mixer.push_group(GroupId(1), &vec![0.5f32; 64 * 2]);
    mixer.mix_tick();
    let loud = mixer.group_peak_value(GroupId(1));

    // Ticks with nothing pushed — the idle-decay path must lower the bar.
    for _ in 0..50 {
        mixer.push_group(GroupId(1), &[]);
        mixer.mix_tick();
    }
    assert!(mixer.group_peak_value(GroupId(1)) < loud);
}

#[test]
fn output_peak_reflects_the_summed_output() {
    let topo = single_group_topology(1.0, false, 1.0);
    let mut mixer = Rig::new(&topo, 256).unwrap();
    let frames = vec![0.5f32; 64 * 2];

    // Settle the resampler so the output accumulator is actually filled.
    run_ticks(&mut mixer, GroupId(1), OutputId(1), &frames, 80);

    assert!(mixer.output_peak_value(OutputId(1)) > 0.4);
}

#[test]
fn unknown_meter_ids_report_silent() {
    let topo = single_group_topology(1.0, false, 1.0);
    let mixer = Rig::new(&topo, 256).unwrap();
    assert_eq!(mixer.group_peak(GroupId(99)), MeterLevel::silent());
    assert_eq!(mixer.output_peak(OutputId(99)), MeterLevel::silent());
}

#[test]
fn unknown_group_and_output_ids_are_ignored_not_panicking() {
    let topo = single_group_topology(1.0, false, 1.0);
    let mut mixer = Rig::new(&topo, 256).unwrap();
    assert!(mixer.refuses(MixerCommand::SetGroupGain(GroupId(99), Gain::unity())));
    mixer.push_group(GroupId(99), &[0.0; 4]);
    mixer.mix_tick();
    let mut out = [0.0f32; 4];
    assert_eq!(mixer.take_output(OutputId(99), &mut out), 0);
}

#[test]
fn dangling_output_ref_is_rejected_at_construction() {
    let topo = Topology {
        master: Gain::unity(),
        groups: vec![GroupSpec {
            id: GroupId(1),
            gain: Gain::unity(),
            follow_master: false,
            output: OutputId(404),
            input_format: stereo(48_000),
            dsp: Vec::new(),
            duck: None,
            spatial: false,
            mute: false,
        }],
        outputs: vec![],
    };
    assert!(matches!(
        Rig::new(&topo, 256),
        Err(DomainError::DanglingOutputRef { .. })
    ));
}

#[test]
fn a_bus_output_channel_mismatch_no_longer_hard_fails_construction() {
    let topo = Topology {
        master: Gain::unity(),
        groups: vec![GroupSpec {
            id: GroupId(1),
            gain: Gain::unity(),
            follow_master: false,
            output: OutputId(1),
            input_format: five_one(48_000),
            dsp: Vec::new(),
            duck: None,
            spatial: false,
            mute: false,
        }],
        outputs: vec![OutputSpec {
            id: OutputId(1),
            format: stereo(48_000),
        }],
    };
    assert!(Rig::new(&topo, 256).is_ok());
}

#[test]
fn five_one_bus_downmixed_to_stereo_output_produces_nonzero_audio() {
    let topo = Topology {
        master: Gain::unity(),
        groups: vec![GroupSpec {
            id: GroupId(1),
            gain: Gain::unity(),
            follow_master: false,
            output: OutputId(1),
            input_format: five_one(48_000),
            dsp: Vec::new(),
            duck: None,
            spatial: false,
            mute: false,
        }],
        outputs: vec![OutputSpec {
            id: OutputId(1),
            format: stereo(48_000),
        }],
    };
    let mut mixer = Rig::new(&topo, 256).unwrap();
    // Interleaved 5.1 frames, every channel at 0.5.
    let frames = vec![0.5f32; 64 * 6];

    let collected = run_ticks(&mut mixer, GroupId(1), OutputId(1), &frames, 80);

    assert!(!collected.is_empty(), "downmixed output never produced any samples");
    assert!(collected.iter().any(|&s| s.abs() > 1e-3), "downmixed output is silent");
}

#[test]
fn set_muted_true_produces_no_output_samples() {
    let topo = single_group_topology(1.0, false, 1.0);
    let mut mixer = Rig::new(&topo, 256).unwrap();
    mixer.apply(MixerCommand::SetMuted(true));
    let frames = vec![0.5f32; 64 * 2];

    let collected = run_ticks(&mut mixer, GroupId(1), OutputId(1), &frames, 80);

    assert!(
        collected.is_empty(),
        "muted mixer must produce zero output samples, got {} samples",
        collected.len()
    );
}

#[test]
fn unmuting_restores_output_at_the_original_gain() {
    let topo = single_group_topology(1.0, false, 1.0);
    let mut mixer = Rig::new(&topo, 256).unwrap();
    let frames = vec![0.5f32; 64 * 2];

    mixer.apply(MixerCommand::SetMuted(true));
    run_ticks(&mut mixer, GroupId(1), OutputId(1), &frames, 40);
    mixer.apply(MixerCommand::SetMuted(false));
    let collected = run_ticks(&mut mixer, GroupId(1), OutputId(1), &frames, 80);

    assert!(!collected.is_empty(), "unmuted mixer produced no output");
    let tail = &collected[collected.len().saturating_sub(64)..];
    for &s in tail {
        assert!((s - 0.5).abs() < 1e-3, "expected ~0.5 after unmute, got {s}");
    }
}

#[test]
fn a_muted_group_contributes_nothing_while_other_groups_still_sum() {
    let topo = Topology {
        master: Gain::unity(),
        groups: vec![
            GroupSpec {
                id: GroupId(1),
                gain: Gain::unity(),
                follow_master: false,
                output: OutputId(1),
                input_format: stereo(48_000),
                dsp: Vec::new(),
                duck: None,
                spatial: false,
                mute: true,
            },
            GroupSpec {
                id: GroupId(2),
                gain: Gain::unity(),
                follow_master: false,
                output: OutputId(1),
                input_format: stereo(48_000),
                dsp: Vec::new(),
                duck: None,
                spatial: false,
                mute: false,
            },
        ],
        outputs: vec![OutputSpec {
            id: OutputId(1),
            format: stereo(48_000),
        }],
    };
    let mut mixer = Rig::new(&topo, 256).unwrap();
    let frames = vec![0.5f32; 64 * 2];

    let mut settled = Vec::new();
    for _ in 0..80 {
        mixer.push_group(GroupId(1), &frames);
        mixer.push_group(GroupId(2), &frames);
        mixer.mix_tick();
        let mut out = vec![0.0f32; 128 * 2];
        let n = mixer.take_output(OutputId(1), &mut out);
        settled = out[..n].to_vec();
    }

    assert!(!settled.is_empty());
    for &s in &settled {
        assert!(
            (s - 0.5).abs() < 1e-2,
            "expected only group 2's 0.5 to sum (group 1 muted), got {s}"
        );
    }
}

#[test]
fn solo_silences_every_non_soloed_group_across_outputs() {
    let topo = Topology {
        master: Gain::unity(),
        groups: vec![
            GroupSpec {
                id: GroupId(1),
                gain: Gain::unity(),
                follow_master: false,
                output: OutputId(1),
                input_format: stereo(48_000),
                dsp: Vec::new(),
                duck: None,
                spatial: false,
                mute: false,
            },
            GroupSpec {
                id: GroupId(2),
                gain: Gain::unity(),
                follow_master: false,
                output: OutputId(2),
                input_format: stereo(48_000),
                dsp: Vec::new(),
                duck: None,
                spatial: false,
                mute: false,
            },
        ],
        outputs: vec![
            OutputSpec { id: OutputId(1), format: stereo(48_000) },
            OutputSpec { id: OutputId(2), format: stereo(48_000) },
        ],
    };
    let mut mixer = Rig::new(&topo, 256).unwrap();
    mixer.apply(MixerCommand::SetGroupSolo(GroupId(1), true));
    let frames = vec![0.5f32; 64 * 2];

    let mut soloed_output_produced_audio = false;
    let mut non_soloed_output_ever_produced_samples = false;
    for _ in 0..80 {
        mixer.push_group(GroupId(1), &frames);
        mixer.push_group(GroupId(2), &frames);
        mixer.mix_tick();
        let mut out1 = vec![0.0f32; 128 * 2];
        let n1 = mixer.take_output(OutputId(1), &mut out1);
        if n1 > 0 {
            soloed_output_produced_audio = true;
        }
        let mut out2 = vec![0.0f32; 128 * 2];
        let n2 = mixer.take_output(OutputId(2), &mut out2);
        if n2 > 0 {
            non_soloed_output_ever_produced_samples = true;
        }
    }

    assert!(soloed_output_produced_audio, "soloed group's output should produce audio");
    assert!(
        !non_soloed_output_ever_produced_samples,
        "non-soloed group's output must never sum any samples across all outputs"
    );
}

#[test]
fn an_explicitly_muted_group_stays_silent_while_soloed() {
    let topo = Topology {
        master: Gain::unity(),
        groups: vec![GroupSpec {
            id: GroupId(1),
            gain: Gain::unity(),
            follow_master: false,
            output: OutputId(1),
            input_format: stereo(48_000),
            dsp: Vec::new(),
            duck: None,
            spatial: false,
            mute: true,
        }],
        outputs: vec![OutputSpec {
            id: OutputId(1),
            format: stereo(48_000),
        }],
    };
    let mut mixer = Rig::new(&topo, 256).unwrap();
    mixer.apply(MixerCommand::SetGroupSolo(GroupId(1), true));
    let frames = vec![0.5f32; 64 * 2];

    let collected = run_ticks(&mut mixer, GroupId(1), OutputId(1), &frames, 80);

    assert!(
        collected.is_empty(),
        "an explicitly muted group must stay silent even while soloed, got {} samples",
        collected.len()
    );
}

#[test]
fn a_silenced_group_stops_triggering_its_duck_target() {
    let topo = two_group_topology(); // GroupId(1) trigger, GroupId(2) ducks under it
    let mut mixer = Rig::new(&topo, 256).unwrap();
    mixer.apply(MixerCommand::SetGroupMute(GroupId(1), true));
    let loud_trigger = vec![0.8f32; 64 * 2];
    let target = vec![0.5f32; 64 * 2];

    for _ in 0..80 {
        mixer.push_group(GroupId(1), &loud_trigger);
        mixer.push_group(GroupId(2), &target);
        mixer.mix_tick();
        let mut out = vec![0.0f32; 128 * 2];
        mixer.take_output(OutputId(1), &mut out);
    }

    assert!(
        mixer.group_duck_depth_db(GroupId(2)) < 0.5,
        "a silenced (muted) trigger must not duck its target, got {} dB",
        mixer.group_duck_depth_db(GroupId(2))
    );
}

#[test]
fn a_muted_groups_own_meter_stays_live() {
    let topo = single_group_topology(1.0, false, 1.0);
    let mut mixer = Rig::new(&topo, 256).unwrap();
    mixer.apply(MixerCommand::SetGroupMute(GroupId(1), true));
    let frames = vec![0.5f32; 64 * 2];

    mixer.push_group(GroupId(1), &frames);
    mixer.mix_tick();

    // Sampled pre-skip (mixer.rs meter tap), so a muted group's own bar
    // must keep reading its unrouted signal — same invariant as master mute.
    assert!(
        (mixer.group_peak_value(GroupId(1)) - 0.5).abs() < 1e-3,
        "a muted group's own meter must stay live"
    );
}

#[test]
fn format_layout_disagreeing_with_channel_count_is_rejected() {
    let bad_format = Format {
        sample_rate: 48_000,
        channels: 2,
        layout: ChannelLayout::surround_5_1(), // 6 speakers, claims 2 channels
    };
    let topo = Topology {
        master: Gain::unity(),
        groups: vec![GroupSpec {
            id: GroupId(1),
            gain: Gain::unity(),
            follow_master: false,
            output: OutputId(1),
            input_format: bad_format,
            dsp: Vec::new(),
            duck: None,
            spatial: false,
            mute: false,
        }],
        outputs: vec![OutputSpec {
            id: OutputId(1),
            format: stereo(48_000),
        }],
    };
    assert!(matches!(
        Rig::new(&topo, 256),
        Err(DomainError::InvalidLayout { .. })
    ));
}

#[test]
fn dangling_duck_trigger_is_rejected_at_construction() {
    let topo = Topology {
        master: Gain::unity(),
        groups: vec![GroupSpec {
            id: GroupId(1),
            gain: Gain::unity(),
            follow_master: false,
            output: OutputId(1),
            input_format: stereo(48_000),
            dsp: Vec::new(),
            duck: Some(DuckSpec {
                trigger: GroupId(99), // does not exist in this topology
                amount_db: number(6.0),
                threshold_db: number(-30.0),
                attack_ms: number(5.0),
                release_ms: number(200.0),
            }),
            spatial: false,
            mute: false,
        }],
        outputs: vec![OutputSpec {
            id: OutputId(1),
            format: stereo(48_000),
        }],
    };
    assert!(matches!(
        Rig::new(&topo, 256),
        Err(DomainError::DanglingDuckTrigger { .. })
    ));
}

fn two_group_topology() -> Topology {
    Topology {
        master: Gain::unity(),
        groups: vec![
            GroupSpec {
                id: GroupId(1), // trigger — e.g. voice chat
                gain: Gain::unity(),
                follow_master: false,
                output: OutputId(1),
                input_format: stereo(48_000),
                dsp: Vec::new(),
                duck: None,
                spatial: false,
                mute: false,
            },
            GroupSpec {
                id: GroupId(2), // target — e.g. music, ducks under GroupId(1)
                gain: Gain::unity(),
                follow_master: false,
                output: OutputId(1),
                input_format: stereo(48_000),
                dsp: Vec::new(),
                duck: Some(DuckSpec {
                    trigger: GroupId(1),
                    amount_db: number(12.0),
                    threshold_db: number(-40.0),
                    attack_ms: number(5.0),
                    release_ms: number(200.0),
                }),
                spatial: false,
                mute: false,
            },
        ],
        outputs: vec![OutputSpec {
            id: OutputId(1),
            format: stereo(48_000),
        }],
    }
}

#[test]
fn loud_trigger_ducks_the_target_group_below_its_dry_level() {
    let topo = two_group_topology();
    let mut mixer = Rig::new(&topo, 256).unwrap();
    let loud_trigger = vec![0.8f32; 64 * 2];
    let target = vec![0.5f32; 64 * 2];

    let mut settled = Vec::new();
    for _ in 0..80 {
        mixer.push_group(GroupId(1), &loud_trigger);
        mixer.push_group(GroupId(2), &target);
        mixer.mix_tick();
        let mut out = vec![0.0f32; 128 * 2];
        let n = mixer.take_output(OutputId(1), &mut out);
        settled = out[..n].to_vec();
    }

    assert!(mixer.group_duck_depth_db(GroupId(2)) > 1.0, "target should be ducked");
    // Summed output is trigger + ducked target; the ducked target alone
    // settles below its dry 0.5 — check via the depth accessor above
    // rather than trying to separate it back out of the sum.
    assert!(!settled.is_empty());
}

#[test]
fn quiet_trigger_does_not_duck_the_target() {
    let topo = two_group_topology();
    let mut mixer = Rig::new(&topo, 256).unwrap();
    let quiet_trigger = vec![0.0001f32; 64 * 2]; // well under threshold_db (-40dB)
    let target = vec![0.5f32; 64 * 2];

    for _ in 0..80 {
        mixer.push_group(GroupId(1), &quiet_trigger);
        mixer.push_group(GroupId(2), &target);
        mixer.mix_tick();
        let mut out = vec![0.0f32; 128 * 2];
        mixer.take_output(OutputId(1), &mut out);
    }

    assert!(
        mixer.group_duck_depth_db(GroupId(2)) < 0.5,
        "target should not be ducked by a quiet trigger"
    );
}

#[test]
fn set_duck_command_reconfigures_a_running_group_without_a_rebuild() {
    let topo = single_group_topology(1.0, false, 1.0); // GroupId(1), no duck at construction
    let mut mixer = Rig::new(&topo, 256).unwrap();
    assert_eq!(mixer.group_duck_depth_db(GroupId(1)), 0.0);

    mixer.apply(MixerCommand::SetDuck {
        group: GroupId(1),
        duck: Some(DuckSpec {
            trigger: GroupId(1), // trivial self-trigger just to exercise the command path
            amount_db: number(6.0),
            threshold_db: number(-60.0),
            attack_ms: number(5.0),
            release_ms: number(200.0),
        }),
    });

    let frames = vec![0.5f32; 64 * 2];
    for _ in 0..40 {
        mixer.push_group(GroupId(1), &frames);
        mixer.mix_tick();
        let mut out = vec![0.0f32; 128 * 2];
        mixer.take_output(OutputId(1), &mut out);
    }
    assert!(mixer.group_duck_depth_db(GroupId(1)) > 1.0);
}

#[test]
fn swap_chain_replaces_the_running_chain_and_returns_the_retired_one() {
    let topo = single_group_topology(1.0, false, 1.0);
    let mut mixer = Rig::new(&topo, 256).unwrap();

    let new_chain =
        DspChain::new(&vec![DspSpec::Limiter { ceiling_db: number(-6.0) }], stereo(48_000)).unwrap();
    let retired = mixer.mixer.swap_chain(GroupId(1), new_chain);
    assert!(retired.is_some(), "swap should hand back the previously-installed chain");
}

#[test]
fn swap_chain_on_unknown_group_is_a_no_op_returning_none() {
    let topo = single_group_topology(1.0, false, 1.0);
    let mut mixer = Rig::new(&topo, 256).unwrap();
    let chain = DspChain::new(&vec![], stereo(48_000)).unwrap();
    assert!(mixer.mixer.swap_chain(GroupId(99), chain).is_none());
}

#[test]
fn set_dsp_param_routes_into_the_groups_chain() {
    let topo = Topology {
        master: Gain::unity(),
        groups: vec![GroupSpec {
            id: GroupId(1),
            gain: Gain::unity(),
            follow_master: false,
            output: OutputId(1),
            input_format: stereo(48_000),
            dsp: vec![DspSpec::Limiter { ceiling_db: number(-6.0) }],
            duck: None,
            spatial: false,
            mute: false,
        }],
        outputs: vec![OutputSpec {
            id: OutputId(1),
            format: stereo(48_000),
        }],
    };
    let mut mixer = Rig::new(&topo, 256).unwrap();
    // No panic / unknown-id-style silent success is the assertion here —
    // the per-stage EQ/limiter math itself is covered in dsp.rs's own tests.
    mixer.apply(MixerCommand::SetDspParam {
        group: GroupId(1),
        stage: 0,
        param: DspParam::LimiterCeilingDb(number(-3.0)),
    });
    mixer.apply(MixerCommand::SetDspBypass {
        group: GroupId(1),
        stage: 0,
        bypassed: true,
    });
    let frames = vec![1.0f32; 64 * 2];
    let collected = run_ticks(&mut mixer, GroupId(1), OutputId(1), &frames, 40);
    assert!(!collected.is_empty());
}

#[test]
fn output_headroom_limiter_engages_when_summed_groups_clip() {
    let topo = Topology {
        master: Gain::unity(),
        groups: vec![
            GroupSpec {
                id: GroupId(1),
                gain: Gain::unity(),
                follow_master: false,
                output: OutputId(1),
                input_format: stereo(48_000),
                dsp: Vec::new(),
                duck: None,
                spatial: false,
                mute: false,
            },
            GroupSpec {
                id: GroupId(2),
                gain: Gain::unity(),
                follow_master: false,
                output: OutputId(1),
                input_format: stereo(48_000),
                dsp: Vec::new(),
                duck: None,
                spatial: false,
                mute: false,
            },
        ],
        outputs: vec![OutputSpec {
            id: OutputId(1),
            format: stereo(48_000),
        }],
    };
    let mut mixer = Rig::new(&topo, 256).unwrap();
    let hot = vec![0.9f32; 64 * 2]; // two groups at 0.9 sum to 1.8 — well over full scale

    let mut settled = Vec::new();
    for _ in 0..80 {
        mixer.push_group(GroupId(1), &hot);
        mixer.push_group(GroupId(2), &hot);
        mixer.mix_tick();
        let mut out = vec![0.0f32; 128 * 2];
        let n = mixer.take_output(OutputId(1), &mut out);
        settled = out[..n].to_vec();
    }

    assert!(mixer.output_limiter_engaged(OutputId(1)));
    for &s in &settled {
        assert!(s <= 1.0 + 1e-2, "expected no clipping above full scale, got {s}");
    }
}

#[test]
fn render_build_selects_spatial_when_spatial_and_output_is_stereo() {
    let render = Render::build(true, five_one(48_000), stereo(48_000), 256);
    assert!(matches!(render, Render::Spatial(_)));
    assert!(!render.is_identity(), "Spatial must never report identity");
}

#[test]
fn render_build_falls_back_to_matrix_when_output_is_not_stereo() {
    // spatial=true but the output is 5.1, not stereo -- the design's
    // documented fallback (mixer owns the rule, not a config error).
    let render = Render::build(true, five_one(48_000), five_one(48_000), 256);
    assert!(matches!(render, Render::Matrix(_)));
    assert!(render.is_identity(), "same layout in/out -> the matrix path is identity");
}

#[test]
fn spatial_group_with_stereo_output_produces_binaural_audio_without_panicking() {
    let topo = Topology {
        master: Gain::unity(),
        groups: vec![GroupSpec {
            id: GroupId(1),
            gain: Gain::unity(),
            follow_master: false,
            output: OutputId(1),
            input_format: five_one(48_000),
            dsp: Vec::new(),
            duck: None,
            spatial: true,
            mute: false,
        }],
        outputs: vec![OutputSpec {
            id: OutputId(1),
            format: stereo(48_000),
        }],
    };
    let mut mixer = Rig::new(&topo, 256).unwrap();
    let frames = vec![0.5f32; 64 * 6];

    let collected = run_ticks(&mut mixer, GroupId(1), OutputId(1), &frames, 80);

    assert!(!collected.is_empty(), "spatialized output never produced any samples");
    assert!(collected.iter().any(|&s| s.abs() > 1e-4), "spatialized output is silent");
}

#[test]
fn swap_render_replaces_the_running_render_and_returns_the_retired_one() {
    let topo = single_group_topology(1.0, false, 1.0); // built non-spatial (Matrix, identity)
    let mut mixer = Rig::new(&topo, 256).unwrap();

    let new_render = Render::build(true, stereo(48_000), stereo(48_000), 256);
    let retired = mixer.mixer.swap_render(GroupId(1), new_render);
    assert!(
        matches!(retired, Some(Render::Matrix(_))),
        "swap should hand back the previously-installed render"
    );

    let frames = vec![0.5f32; 64 * 2];
    let collected = run_ticks(&mut mixer, GroupId(1), OutputId(1), &frames, 80);
    assert!(!collected.is_empty(), "post-swap spatial render produced no output");
}

#[test]
fn swap_render_on_unknown_group_is_a_no_op_returning_none() {
    let topo = single_group_topology(1.0, false, 1.0);
    let mut mixer = Rig::new(&topo, 256).unwrap();
    let render = Render::build(false, stereo(48_000), stereo(48_000), 256);
    assert!(mixer.mixer.swap_render(GroupId(99), render).is_none());
}

#[test]
fn a_group_without_a_block_keeps_what_it_has_parked() {
    let mut mixer = Rig::new(&two_groups_one_output(), 64).unwrap();
    mixer.push_group(GroupId(1), &vec![0.5f32; 64 * 2]);
    mixer.push_group(GroupId(2), &vec![0.5f32; 10 * 2]);
    mixer.mix_tick();
    let parked = mixer.mixer.groups[0].parked.len();
    assert!(parked > 0);
    mixer.push_group(GroupId(1), &[]);
    mixer.push_group(GroupId(2), &[]);
    mixer.mix_tick_gated(&[OutputId(1)]);
    assert_eq!(mixer.mixer.groups[0].parked.len(), parked);
    assert_eq!(mixer.mixer.groups[1].src.pending_in.len(), 20);
}

#[test]
fn a_block_is_cut_to_whole_frames_and_to_its_longest() {
    let rig = Rig::new(&two_groups_one_output(), 2).unwrap();
    let accepted = |samples: &[f32]| values(&rig.mixer.accepted(0, &numbers(samples)));
    assert_eq!(accepted(&[1.0, 2.0, 3.0]), vec![1.0, 2.0]);
    assert_eq!(accepted(&[1.0, 2.0, 3.0, 4.0, 5.0, 6.0]), vec![1.0, 2.0, 3.0, 4.0]);
    assert!(rig.mixer.accepted(0, &[]).is_empty());
}

#[test]
fn commands_for_other_groups_change_nothing() {
    let mut rig = Rig::new(&two_groups_one_output(), 64).unwrap();
    assert!(rig.refuses(MixerCommand::SetGroupMute(GroupId(7), true)));
    assert!(rig.refuses(MixerCommand::SetDspBypass { group: GroupId(1), stage: 3, bypassed: true }));
    assert!(!rig.refuses(MixerCommand::SetGroupMute(GroupId(1), true)));
    rig.apply(MixerCommand::SetOutputRatio(OutputId(1), ratio(1.005)));
    for g in &rig.mixer.groups {
        assert_eq!(g.src.ratio.value(), Float64::from_bits(1.005f64.to_bits()));
    }
}

#[test]
fn an_output_with_room_for_less_plays_less() {
    let mut rig = Rig::new(&single_group_topology(1.0, false, 1.0), 64).unwrap();
    rig.push_group(GroupId(1), &vec![0.5f32; 64 * 2]);
    rig.mix_tick();
    let mut out = vec![9.0f32; 4];
    assert_eq!(rig.take_output(OutputId(1), &mut out), 4);
    let mut again = vec![9.0f32; 4];
    assert_eq!(rig.take_output(OutputId(1), &mut again), 0);
    assert_eq!(again, vec![9.0f32; 4]);
}

/// One line of a resampler, on its own.
struct OneLine(Line);

impl Resampler<f32> for OneLine {
    fn resample(
        mut self,
        _line: usize,
        channels: Vec<Vec<f32>>,
        ratio: ResampleRatio,
    ) -> (Self, Vec<Vec<f32>>) {
        let out = self.0.resample(&channels, f64::from_bits(ratio.value().to_bits()));
        (self, out)
    }
}

struct Resampling {
    src: Src<f32>,
    line: Option<OneLine>,
}

impl Resampling {
    fn new(from: Format, to: Format, max_block_frames: usize) -> Result<Resampling, DomainError> {
        let src = Src::new(from, to, max_block_frames)?;
        let line = Line::new(from.sample_rate, to, max_block_frames.max(1))?;
        Ok(Resampling { src, line: Some(OneLine(line)) })
    }

    fn process(&mut self, input: &[f32], output: &mut [f32]) -> SrcProgress {
        let mut made = Vec::new();
        let line = self.line.take().unwrap();
        let (line, progress) = self.src.process(line, 0, input, &mut made, output.len());
        self.line = Some(line);
        output[..made.len()].copy_from_slice(&made);
        progress
    }
}

fn feed_silence_for(src: &mut Resampling, block_frames: usize, channels: usize, blocks: usize) -> usize {
    let input = vec![0.0f32; block_frames * channels];
    let mut output = vec![0.0f32; block_frames * channels * 4];
    let mut total_produced = 0;
    for _ in 0..blocks {
        let progress = src.process(&input, &mut output);
        assert!(progress.consumed <= input.len());
        assert!(progress.produced <= output.len());
        total_produced += progress.produced;
    }
    total_produced
}

#[test]
fn channel_mismatch_is_rejected() {
    let from = stereo(48_000);
    let to = Format { sample_rate: 48_000, channels: 1, layout: ChannelLayout::mono() };
    assert!(matches!(
        Resampling::new(from, to, 256),
        Err(DomainError::ChannelMismatch { from: 2, to: 1 })
    ));
}

#[test]
fn silence_in_produces_silence_out_at_unity_ratio() {
    let fmt = stereo(48_000);
    let mut src = Resampling::new(fmt, fmt, 512).unwrap();
    let input = vec![0.0f32; 512 * 2];
    let mut output = vec![1.0f32; 512 * 2 * 4]; // pre-fill non-zero to prove it gets overwritten
    let mut any_produced = false;
    for _ in 0..8 {
        let progress = src.process(&input, &mut output);
        if progress.produced > 0 {
            any_produced = true;
            assert!(output[..progress.produced].iter().all(|&s| s == 0.0));
        }
    }
    assert!(any_produced, "resampler never produced output across 8 chunks");
}

#[test]
fn never_overruns_caller_buffers_across_a_sample_rate_mismatch() {
    let mut src = Resampling::new(stereo(44_100), stereo(48_000), 512).unwrap();
    feed_silence_for(&mut src, 512, 2, 8);
}

#[test]
fn set_ratio_above_unity_eventually_produces_more_output_than_input() {
    let fmt = stereo(48_000);
    let mut src = Resampling::new(fmt, fmt, 256).unwrap();
    src.src.set_ratio(ratio(1.1));

    let input = vec![0.0f32; 256 * 2];
    let mut output = vec![0.0f32; 256 * 2 * 4];
    let mut total_consumed = 0usize;
    let mut total_produced = 0usize;
    for _ in 0..40 {
        let progress = src.process(&input, &mut output);
        total_consumed += progress.consumed;
        total_produced += progress.produced;
    }

    assert!(
        total_produced > total_consumed,
        "expected ratio > 1.0 to produce more samples than consumed after glide settles \
         (consumed {total_consumed}, produced {total_produced})"
    );
}

#[test]
fn set_ratio_never_steps_the_resampler_ratio_directly() {
    let fmt = stereo(48_000);
    let mut src = Resampling::new(fmt, fmt, 256).unwrap();
    src.src.set_ratio(ratio(1.1));

    feed_silence_for(&mut src, 256, 2, 4);
    let current_ratio = src.line.as_ref().unwrap().0.current_ratio;
    assert!(current_ratio < 1.05, "ratio stepped instead of gliding: {current_ratio}");
}

#[test]
fn input_that_does_not_fill_a_chunk_waits() {
    let fmt = stereo(48_000);
    let mut src = Resampling::new(fmt, fmt, 4).unwrap();
    let mut output = vec![0.0f32; 64];
    let progress = src.process(&[1.0, 2.0, 3.0, 4.0], &mut output);
    assert_eq!(progress, SrcProgress { consumed: 4, produced: 0 });
    assert!(src.src.has_audio_in_flight());
    assert_eq!(src.src.pending_in, vec![1.0, 2.0, 3.0, 4.0]);
    src.src.discard_partial_input();
    assert!(!src.src.has_audio_in_flight());
}

#[test]
fn a_full_output_leaves_input_over() {
    let fmt = stereo(48_000);
    let mut src = Resampling::new(fmt, fmt, 4).unwrap();
    let progress = src.process(&vec![0.5; 8 * 16], &mut [0.0; 4]);
    assert_eq!(progress.produced, 4);
    assert!(progress.consumed < 8 * 16);
}

#[test]
fn blocks_can_become_so_many_frames() {
    assert_eq!(max_output_block_frames(512, 48_000, 96_000), 1148);
    assert_eq!(max_output_block_frames(512, 48_000, 48_000), 579);
    assert_eq!(max_output_block_frames(0, 48_000, 48_000), 10);
}

#[test]
fn eq_rejects_a_band_at_or_above_nyquist() {
    let bad = EqBandSpec { freq_hz: number(24_000.0), gain_db: number(3.0), q: number(0.7) };
    assert!(matches!(
        ParametricEq::new(&machine(), &vec![bad], stereo(48_000)),
        Err(DomainError::InvalidEqBand { .. })
    ));
    let good = EqBandSpec { freq_hz: number(23_999.0), ..bad };
    assert!(validate_eq_band(&good, 48_000).is_ok());
    assert!(validate_eq_band(&good, 44_100).is_err());
}

#[test]
fn eq_rejects_a_non_positive_q() {
    let bad = EqBandSpec { freq_hz: number(1000.0), gain_db: number(3.0), q: number(0.0) };
    assert!(matches!(
        ParametricEq::new(&machine(), &vec![bad], stereo(48_000)),
        Err(DomainError::InvalidEqBand { .. })
    ));
}

#[test]
fn dsp_chain_propagates_invalid_eq_band_as_domain_error() {
    let specs = vec![DspSpec::Eq {
        bands: vec![EqBandSpec { freq_hz: number(-10.0), gain_db: number(0.0), q: number(1.0) }],
    }];
    assert!(matches!(
        DspChain::new(&specs, stereo(48_000)),
        Err(DomainError::InvalidEqBand { .. })
    ));
}

#[test]
fn dsp_chain_set_param_on_unknown_stage_index_is_a_no_op_not_a_panic() {
    let mut chain = DspChain::new(&vec![], stereo(48_000)).unwrap();
    chain.set_param(5, DspParam::LimiterCeilingDb(number(-1.0)));
    chain.set_bypass(5, true);
    assert!(chain.stages.is_empty());
}

#[test]
fn a_stage_takes_only_its_own_parameters() {
    let specs = vec![
        DspSpec::Eq {
            bands: vec![EqBandSpec { freq_hz: number(100.0), gain_db: number(0.0), q: number(1.0) }],
        },
        DspSpec::Limiter { ceiling_db: number(-6.0) },
    ];
    let mut chain = DspChain::new(&specs, stereo(48_000)).unwrap();
    chain.set_param(0, DspParam::LimiterCeilingDb(number(-1.0)));
    assert_eq!(chain.stages[0].spec, specs[0]);
    chain.set_param(1, DspParam::LimiterCeilingDb(number(-1.0)));
    assert_eq!(chain.stages[1].spec, DspSpec::Limiter { ceiling_db: number(-1.0) });
    chain.set_bypass(1, true);
    assert!(chain.stages[1].bypassed && !chain.stages[0].bypassed);
}

#[test]
fn dsp_chain_runs_stages_in_declared_order() {
    let fmt = stereo(48_000);
    let specs = vec![
        DspSpec::Eq {
            bands: vec![EqBandSpec { freq_hz: number(1000.0), gain_db: number(0.0), q: number(0.7) }],
        },
        DspSpec::Limiter { ceiling_db: number(0.0) },
    ];
    let chain = DspChain::new(&specs, fmt).unwrap();
    let rig = Rig::new(&single_group_topology(1.0, false, 1.0), 64).unwrap();
    let (_, buf) = chain.process(rig.desk.unwrap(), 0, numbers(&[0.2f32; 64 * 2]));
    assert_eq!(buf.len(), 64 * 2);
    for &s in &values(&buf) {
        assert!((s - 0.2).abs() < 1e-3, "expected ~0.2, got {s}");
    }
}

#[test]
fn unknown_speaker_position_falls_back_to_front_center() {
    let hrirs = hrirs(48_000);
    assert_eq!(hrirs.pair_for(0x1_0000), hrirs.pair_for(FC)); // no named/folded rule
    assert_eq!(position_for(0x1_0000), position_for(FC));
    assert_eq!(position_for(FC), Position::FrontCenter);
}

#[test]
fn folded_position_resolves_to_its_documented_target() {
    let hrirs = hrirs(48_000);
    assert_eq!(hrirs.pair_for(FLC), hrirs.pair_for(FL));
    assert_ne!(hrirs.pair_for(FL), hrirs.pair_for(FR));
    assert_eq!(position_for(FLC), position_for(FL));
    assert_eq!(position_for(BC), Position::BackLeft);
}

#[test]
fn left_and_right_mirrored_positions_are_symmetric() {
    let hrirs = hrirs(48_000);
    let (fl_left, fl_right) = hrirs.pair_for(FL);
    let (fr_left, fr_right) = hrirs.pair_for(FR);
    assert_eq!(fl_left, fr_right, "FL's near ear must mirror FR's near ear");
    assert_eq!(fl_right, fr_left, "FL's far ear must mirror FR's far ear");
    assert_eq!(position_for(FL).azimuth_deg(), -position_for(FR).azimuth_deg());
}

#[test]
fn partitioned_convolver_with_a_unit_impulse_passes_input_through_delayed_one_partition() {
    let mut conv = convolver(&[1.0], 8);
    let input = vec![1.0f32, 2.0, 3.0, 4.0, 5.0, 6.0, 7.0, 8.0];
    let output = conv.process(&input);
    assert_eq!(output, vec![0.0; 8], "first partition must be primed silence");

    let output2 = conv.process(&input);
    for (got, expected) in output2.iter().zip(input.iter()) {
        assert!((got - expected).abs() < 1e-4, "expected {expected}, got {got}");
    }
}

#[test]
fn partitioned_convolver_matches_a_hand_computed_two_tap_average() {
    let mut conv = convolver(&[0.5, 0.5], 4);
    conv.process(&[1.0f32, 0.0, 0.0, 0.0]); // primed silence

    let out2 = conv.process(&[0.0f32; 4]);
    assert!((out2[0] - 0.5).abs() < 1e-4, "y[0]={}", out2[0]);
    assert!((out2[1] - 0.5).abs() < 1e-4, "y[1]={}", out2[1]);
    assert!(out2[2].abs() < 1e-4);
    assert!(out2[3].abs() < 1e-4);
}

#[test]
fn partitioned_convolver_handles_an_impulse_longer_than_one_partition() {
    let impulse = vec![1.0f32, 0.0, 0.0, 0.0, 0.5, 0.0];
    let mut conv = convolver(&impulse, 4);
    let mut collected = Vec::new();
    let silence = vec![0.0f32; 4];
    let mut impulse_in = vec![0.0f32; 4];
    impulse_in[0] = 1.0;

    collected.extend(conv.process(&impulse_in));
    for _ in 0..3 {
        collected.extend(conv.process(&silence));
    }

    assert!(collected[4..10].iter().zip(impulse.iter()).all(|(&g, &e)| (g - e).abs() < 1e-3));
}

fn to_both_ears(plan: &Spatializer, pairs: &mut Ears, input: &[f32]) -> Vec<f32> {
    let low = low_level();
    let mut output = vec![0.0f32; input.len() / plan.in_ch * 2];
    let written = plan.process(
        pairs,
        0.0f32,
        &|a: f32, b: f32| a + b,
        &|x: f32| x * low,
        input,
        &mut output,
    );
    output.truncate(written);
    output
}

#[test]
fn stereo_widen_of_a_non_silent_signal_produces_non_silent_output() {
    let plan = Spatializer::new(ChannelLayout::stereo(), 64);
    let mut pairs = ears(&plan, 48_000);
    let input = vec![0.5f32; 64 * 2];

    let mut any_nonzero = false;
    for _ in 0..4 {
        let output = to_both_ears(&plan, &mut pairs, &input);
        if output.iter().any(|&s| s.abs() > 1e-4) {
            any_nonzero = true;
        }
    }
    assert!(any_nonzero, "spatialized stereo output stayed silent");
}

#[test]
fn lfe_channel_mixes_flat_into_both_ears_at_minus_six_db_never_convolved() {
    let plan = Spatializer::new(ChannelLayout::surround_5_1(), 4);
    let mut pairs = ears(&plan, 48_000);
    // 5.1 order: FL FR FC LFE BL BR -- only LFE hot.
    let mut input = vec![0.0f32; 4 * 6];
    for f in 0..4 {
        input[f * 6 + 3] = 1.0;
    }
    let output = to_both_ears(&plan, &mut pairs, &input);
    assert_eq!(output.len(), 8);
    let expected = db_to_linear(LFE_GAIN_DB);
    for f in 0..4 {
        assert!((output[f * 2] - expected).abs() < 1e-4, "L[{f}]={}", output[f * 2]);
        assert!((output[f * 2 + 1] - expected).abs() < 1e-4, "R[{f}]={}", output[f * 2 + 1]);
    }
}

#[test]
fn every_channel_but_the_low_one_has_a_position() {
    let plan = Spatializer::new(ChannelLayout::surround_5_1(), 5);
    assert_eq!(plan.lfe_index, Some(3));
    assert_eq!(plan.in_ch, 6);
    assert_eq!(plan.partition, 8);
    let indices: Vec<usize> = plan.channels.iter().map(|c| c.index).collect();
    assert_eq!(indices, vec![0, 1, 2, 4, 5]);
}

/// A transform on numbers that turns the halves of a window around.
struct Swapped;

impl Transform<i32, i32> for Swapped {
    fn forward(&self, mut window: Vec<i32>) -> Vec<i32> {
        let half = window.len() / 2;
        window.rotate_left(half);
        window
    }

    fn gather(&self, sum: i32, x: i32, h: i32) -> i32 {
        sum + x * h
    }

    fn inverse(&self, spectrum: Vec<i32>) -> Vec<i32> {
        spectrum
    }
}

#[test]
fn blocks_come_out_a_partition_later() {
    // Filters: 2 3 9 9 and 4 9 9 9, with their halves turned around.
    let mut conv = PartitionedConvolver::new(Swapped, 0, 9, &[2, 3, 4], 2);
    assert_eq!(conv.process(&[1, 10, 100]), vec![9, 9, 9 * 2]);
    assert_eq!(conv.process(&[1000]), vec![9 * 3]);
    assert_eq!(conv.process(&[0]), vec![1 * 2 + 9 * 4]);
    assert_eq!(conv.process(&[0]), vec![10 * 3 + 9 * 9]);
}

#[test]
fn how_a_signal_is_cut_into_calls_does_not_matter() {
    let signal: Vec<i32> = (1..40).collect();
    let mut whole = PartitionedConvolver::new(Swapped, 0, 0, &[1, 2, 3, 4, 5, 6, 7], 3);
    let expected = whole.process(&signal);
    for size in [1usize, 2, 5, 7, 38] {
        let mut cut = PartitionedConvolver::new(Swapped, 0, 0, &[1, 2, 3, 4, 5, 6, 7], 3);
        let mut out = Vec::new();
        for call in signal.chunks(size) {
            out.extend(cut.process(call));
        }
        assert_eq!(out, expected, "calls of {size}");
    }
}

/// A resampler that tells the channels apart and hands the last frame out twice.
struct Doubling;

impl Resampler<i32> for Doubling {
    fn resample(self, line: usize, mut channels: Vec<Vec<i32>>, _ratio: ResampleRatio) -> (Self, Vec<Vec<i32>>) {
        assert_eq!((line, channels.len()), (3, 2));
        for (c, samples) in channels.iter_mut().enumerate() {
            samples.push(samples[samples.len() - 1] + 1000 * c as i32);
        }
        (self, channels)
    }
}

#[test]
fn a_resampler_works_channel_by_channel() {
    let fmt = stereo(48_000);
    let mut src: Src<i32> = Src::new(fmt, fmt, 2).unwrap();
    let mut out = Vec::new();
    let (_, progress) = src.process(Doubling, 3, &[1, 2, 3, 4, 5, 6], &mut out, 100);
    assert_eq!(progress, SrcProgress { consumed: 6, produced: 6 });
    assert_eq!(out, vec![1, 2, 3, 4, 3, 1004]);
    assert_eq!(src.pending_in, vec![5, 6]);
}

#[test]
fn zero_gain_eq_band_passes_signal_through_unchanged() {
    let fmt = stereo(48_000);
    let band = EqBandSpec { freq_hz: number(1000.0), gain_db: number(0.0), q: number(0.7) };
    let mut eq = ParametricEq::new(&machine(), &vec![band], fmt).unwrap();
    let input = vec![0.3f32, -0.6, 0.1, 0.9, -0.2, 0.4];
    let mut buf = numbers(&input);
    eq.process(&machine(), &mut buf);
    for (out, inp) in values(&buf).iter().zip(input.iter()) {
        assert!((out - inp).abs() < 1e-4, "expected {inp}, got {out}");
    }
}

#[test]
fn biquad_flush_denormals_zeroes_subnormal_state_but_not_normal_state() {
    let mut memory = Memory::silent();
    memory.z1 = number(1e-16);
    memory.z2 = number(0.5);
    memory.flush_denormals();
    assert_eq!(value(memory.z1), 0.0);
    assert_eq!(value(memory.z2), 0.5);
}

/// One block through a limiter.
fn run(limiter: &mut Limiter, block: &[f32]) -> Vec<f32> {
    let mut buf = numbers(block);
    limiter.process(&machine(), &mut buf);
    values(&buf)
}

#[test]
fn limiter_bypass_ramps_back_to_the_unreduced_dry_signal() {
    let fmt = stereo(48_000);
    let mut limiter = Limiter::new(&machine(), number(-6.0), fmt);
    let block = vec![1.0f32; 64 * 2];
    for _ in 0..40 {
        run(&mut limiter, &block);
    }
    assert!(limiter.engaged(), "test setup: limiter should be reducing gain here");

    limiter.set_bypass(true);
    let mut settled = block.clone();
    for _ in 0..60 {
        settled = run(&mut limiter, &block);
    }
    for (out, inp) in settled.iter().zip(block.iter()) {
        assert!((out - inp).abs() < 1e-2, "expected ~dry {inp}, got {out}");
    }
}

#[test]
fn limiter_does_not_engage_below_ceiling() {
    let fmt = stereo(48_000);
    let mut limiter = Limiter::new(&machine(), number(-1.0), fmt); // ceiling well above signal
    let block = vec![0.1f32; 64 * 2];
    let buf = run(&mut limiter, &block);
    assert!(!limiter.engaged());
    for (out, inp) in buf.iter().zip(block.iter()) {
        assert!((out - inp).abs() < 1e-4, "expected passthrough, got {out}");
    }
}

fn progress_after_one_block(channels: u16) -> f32 {
    let fmt = Format {
        sample_rate: 48_000,
        channels,
        layout: ChannelLayout::default_for_count(channels),
    };
    let mut limiter = Limiter::new(&machine(), number(-6.0), fmt);
    let block = vec![1.0f32; 64 * channels as usize];
    for _ in 0..40 {
        run(&mut limiter, &block);
    }
    assert!(limiter.engaged(), "test setup: limiter should be reducing gain here");

    limiter.set_bypass(true);
    let buf = run(&mut limiter, &block);
    buf[0]
}

#[test]
fn bypass_ramp_progress_after_a_fixed_frame_count_is_independent_of_channel_count() {
    let mono = progress_after_one_block(1);
    let seven_one = progress_after_one_block(8);
    assert!(
        (mono - seven_one).abs() < 0.05,
        "ramp progress after the same frame count shouldn't depend on channel count: mono {mono}, 7.1 {seven_one}"
    );
}

#[test]
fn limiter_holds_output_at_or_below_ceiling_once_settled() {
    let fmt = stereo(48_000);
    let ceiling_db = -3.0;
    let mut limiter = Limiter::new(&machine(), number(ceiling_db), fmt);
    let ceiling_linear = db_to_linear(ceiling_db);
    let block = vec![1.0f32; 64 * 2]; // hot signal, well over ceiling

    let mut buf = block.clone();
    for _ in 0..40 {
        buf = run(&mut limiter, &block);
    }

    assert!(limiter.engaged());
    for &s in &buf {
        assert!(s <= ceiling_linear + 1e-3, "expected <= ceiling {ceiling_linear}, got {s}");
    }
}

#[test]
fn hrir_set_taps_scale_with_sample_rate_at_constant_duration() {
    let at_44k = hrirs(44_100);
    let at_48k = hrirs(48_000);
    assert_eq!(at_44k.taps(), 128);
    assert!(at_48k.taps() > at_44k.taps());
    assert_eq!(at_48k.sample_rate(), 48_000);
    assert_eq!(at_48k.pair_for(FL).0.len(), at_48k.taps());
}

#[test]
fn front_center_position_has_no_interaural_delay_or_shadow() {
    let hrirs = hrirs(48_000);
    let (l, r) = hrirs.pair_for(FC);
    assert_eq!(l[0], 1.0);
    assert_eq!(r[0], 1.0);
}

#[test]
fn a_right_side_position_delays_and_attenuates_the_left_ear() {
    let hrirs = hrirs(48_000);
    let (l, r) = hrirs.pair_for(FR);
    assert_eq!(r[0], 1.0, "near (right) ear must be the unity reference");
    assert_eq!(l[0], 0.0, "far (left) ear must be delayed, not instant");
    let far_peak = l.iter().fold(0.0f32, |acc, &s| acc.max(s.abs()));
    assert!(far_peak > 0.0, "far ear must carry some energy");
    assert!(far_peak < 1.0, "far ear's peak must be attenuated relative to the near ear's unity peak");
}

#[test]
fn a_chain_without_stages_changes_nothing() {
    let chain = DspChain::new(&vec![], stereo(48_000)).unwrap();
    let rig = Rig::new(&single_group_topology(1.0, false, 1.0), 64).unwrap();
    let (_, out) = chain.process(rig.desk.unwrap(), 0, numbers(&[0.1f32, -0.2, 0.3, 0.4]));
    assert_eq!(values(&out), vec![0.1f32, -0.2, 0.3, 0.4]);
}

#[test]
fn an_independent_group_sounds_the_same_under_every_master() {
    let play = |follows: bool, master: f32| {
        let mut rig = Rig::new(&single_group_topology(1.0, follows, 1.0), 64).unwrap();
        rig.apply(MixerCommand::SetMaster(level(master)));
        run_ticks(&mut rig, GroupId(1), OutputId(1), &vec![0.5f32; 64 * 2], 20)
    };
    assert_eq!(play(false, 0.0), play(false, 1.0));
    assert_ne!(play(true, 0.0), play(true, 1.0));
}

#[test]
fn the_far_ear_hears_later_and_as_long_as_there_are_taps() {
    assert_eq!(ear_pair(5, 0, 9, &[4, 3, 2], 1, true), (vec![0, 4, 3, 2, 0], vec![9, 0, 0, 0, 0]));
    assert_eq!(ear_pair(3, 0, 9, &[4, 3, 2], 2, false), (vec![9, 0, 0], vec![0, 0, 4]));
    assert_eq!(ear_pair(2, 0, 9, &[4, 3], 70, false), (vec![9, 0], vec![0, 4]));
}

#[test]
fn a_ramp_goes_to_its_target_and_stays_there() {
    let mut ramp = Smoothed::new(&machine(), number(1.0), 48_000);
    assert_eq!(value(ramp.next(&machine())), 1.0);
    ramp.set_target(number(0.0));
    ramp.advance(&machine(), 480);
    // One time constant of 10 ms.
    assert!((value(ramp.current) - (-1.0f32).exp()).abs() < 1e-3, "{}", value(ramp.current));
    ramp.advance(&machine(), 48_000);
    assert!(value(ramp.current) < 1e-6);
}

#[test]
fn a_fader_moves_once_for_each_frame() {
    for channels in [1usize, 2, 8] {
        let mut fader = Fader::new(&machine(), number(1.0), number(1.0), 48_000);
        let mut block = numbers(&vec![1.0f32; 480 * channels + channels - 1]);
        fader.fade(&machine(), number(0.0), None, &mut block, channels);
        let out = values(&block);
        assert!((out[480 * channels - 1] - (-1.0f32).exp()).abs() < 1e-3);
        // Every channel of a frame has the same gain; half a frame is left as it is.
        assert!(out[..480 * channels].chunks(channels).all(|f| f.iter().all(|s| *s == f[0])));
        assert!(out[480 * channels..].iter().all(|s| *s == 1.0));
        assert_eq!(value(fader.master.current), 1.0);
    }
}

#[test]
fn a_fader_lays_the_master_on_the_gain() {
    let mut fader = Fader::new(&machine(), number(0.5), number(0.25), 48_000);
    let mut block = numbers(&[1.0f32, -2.0]);
    fader.fade(&machine(), number(0.5), Some(number(0.25)), &mut block, 2);
    assert_eq!(values(&block), vec![0.125, -0.25]);
    let mut block = numbers(&[1.0f32, -2.0]);
    fader.fade(&machine(), number(0.5), None, &mut block, 2);
    assert_eq!(values(&block), vec![0.5, -1.0]);
}

#[test]
fn a_level_is_found_fast_and_forgotten_slowly() {
    let mut follower = EnvFollower::new(&machine(), 48_000);
    assert_eq!(value(follower.process_block(&machine(), &Vec::new(), 2)), -120.0);
    // 5 ms up to a full-scale right channel.
    let loud = numbers(&[0.0f32, -1.0].repeat(240));
    follower.process_block(&machine(), &loud, 2);
    assert!((value(follower.env) - (1.0 - (-1.0f32).exp())).abs() < 1e-3, "{}", value(follower.env));
    let before = value(follower.env);
    // 100 ms down.
    follower.process_block(&machine(), &numbers(&[0.0f32; 4_800 * 2]), 2);
    assert!((value(follower.env) - before * (-1.0f32).exp()).abs() < 1e-3);
}

#[test]
fn ducking_goes_down_and_up_at_its_own_speeds() {
    let mut gain = DuckTargetGain::new(&machine(), 48_000, number(10.0), number(100.0));
    assert_eq!(value(gain.depth_db(&machine())), 0.0);
    let mut block = numbers(&[1.0f32; 480]);
    gain.apply(&machine(), &mut block, number(0.0), 1);
    assert!((value(gain.current) - (-1.0f32).exp()).abs() < 1e-3);
    assert_eq!(block[479], gain.current);
    assert!((value(gain.depth_db(&machine())) - 8.686).abs() < 0.05);
    let mut block = numbers(&[1.0f32; 480]);
    gain.apply(&machine(), &mut block, number(1.0), 1);
    let expected = 1.0 + (-0.1f32).exp() * ((-1.0f32).exp() - 1.0);
    assert!((value(gain.current) - expected).abs() < 1e-3);
}

#[test]
fn a_limiter_reduces_all_channels_alike() {
    let mut limiter = Limiter::new(&machine(), number(-6.0), stereo(48_000));
    let out = run(&mut limiter, &[1.0f32, 0.5].repeat(64));
    for frame in out.chunks(2) {
        assert_eq!(frame[1], frame[0] * 0.5);
    }
    assert!(limiter.engaged());
    limiter.reset();
    assert!(!limiter.engaged() && value(limiter.envelope) == 1.0);
}

#[test]
fn a_bypass_is_a_fade_between_dry_and_wet() {
    let mut bypass = BypassRamp::new(&machine(), 48_000);
    let dry = numbers(&[4.0f32; 480]);
    let mut block = numbers(&[2.0f32; 480]);
    bypass.crossfade(&machine(), &dry, &mut block, 1);
    assert_eq!(values(&block), vec![2.0; 480]);
    bypass.set_bypassed(true);
    bypass.crossfade(&machine(), &dry, &mut block, 1);
    let expected = 4.0 - 2.0 * (-1.0f32).exp();
    assert!((value(block[479]) - expected).abs() < 1e-2, "{}", value(block[479]));
}

#[test]
fn bands_follow_one_another_whatever_the_stretches() {
    let band = |freq: f32, gain: f32| EqBandSpec { freq_hz: number(freq), gain_db: number(gain), q: number(0.9) };
    let fmt = stereo(48_000);
    let input: Vec<f32> = (0..100 * 2).map(|i| (i as f32 * 0.37).sin()).collect();
    let mut both = ParametricEq::new(&machine(), &vec![band(500.0, 6.0), band(4_000.0, -9.0)], fmt).unwrap();
    let mut first = ParametricEq::new(&machine(), &vec![band(500.0, 6.0)], fmt).unwrap();
    let mut second = ParametricEq::new(&machine(), &vec![band(4_000.0, -9.0)], fmt).unwrap();
    let mut once = numbers(&input);
    both.process(&machine(), &mut once);
    let mut twice = numbers(&input);
    first.process(&machine(), &mut twice);
    second.process(&machine(), &mut twice);
    for (a, b) in values(&once).iter().zip(values(&twice)) {
        assert!((a - b).abs() < 1e-5, "{a} {b}");
    }
    assert_ne!(values(&once), input);

    // A block of 100 frames, or one of 64 and one of 36.
    let mut cut = ParametricEq::new(&machine(), &vec![band(500.0, 6.0), band(4_000.0, -9.0)], fmt).unwrap();
    let mut head = numbers(&input[..64 * 2]);
    let mut tail = numbers(&input[64 * 2..]);
    cut.process(&machine(), &mut head);
    cut.process(&machine(), &mut tail);
    head.extend(tail);
    assert_eq!(values(&head), values(&once));
}

#[test]
fn a_band_moves_to_its_numbers_within_the_ramp() {
    let band = EqBandSpec { freq_hz: number(1000.0), gain_db: number(0.0), q: number(0.7) };
    let mut eq = ParametricEq::new(&machine(), &vec![band], stereo(48_000)).unwrap();
    eq.set_band(0, EqBandSpec { gain_db: number(12.0), ..band });
    eq.set_band(7, band);
    eq.process(&machine(), &mut numbers(&[0.1f32; 480 * 2]));
    let gain = value(eq.bands[0].gain_db.current);
    assert!((gain - 12.0 * (1.0 - (-1.0f32).exp())).abs() < 0.05, "{gain}");
    assert_eq!(value(eq.bands[0].freq.current), 1000.0);
    assert!(value(eq.bands[0].memories[0].z1) != 0.0);
    eq.reset();
    assert!(eq.bands[0].memories.iter().all(|m| value(m.z1) == 0.0 && value(m.z2) == 0.0));
}

#[test]
fn a_stage_hears_only_its_own_parameters() {
    let mut stage = DspStage::at_rest(&machine(), &DspSpec::Limiter { ceiling_db: number(-6.0) }, stereo(48_000));
    let before = format!("{stage:?}");
    let band = EqBandSpec { freq_hz: number(1000.0), gain_db: number(0.0), q: number(0.7) };
    stage.set_param(&machine(), DspParam::EqBand { band: 0, spec: band });
    assert_eq!(format!("{stage:?}"), before);
    stage.set_param(&machine(), DspParam::LimiterCeilingDb(number(0.0)));
    match &stage {
        DspStage::Limiter(l) => assert_eq!(value(l.ceiling.target), 1.0),
        DspStage::Eq(_) => panic!("a limiter"),
    }
    stage.set_bypass(true);
    stage.reset();
}

#[test]
fn a_rack_builds_a_stage_anew_where_its_shape_changes() {
    let band = EqBandSpec { freq_hz: number(1000.0), gain_db: number(3.0), q: number(0.7) };
    let config = |spec: DspSpec| DspStageConfig { spec, bypassed: false };
    let one = config(DspSpec::Eq { bands: vec![band] });
    let two = config(DspSpec::Eq { bands: vec![band, band] });
    let limiter = config(DspSpec::Limiter { ceiling_db: number(-6.0) });
    let mut rack = Rack::new(stereo(48_000));
    let mut block = numbers(&[0.5f32; 64 * 2]);
    rack.process(&machine(), 0, &one, &mut block);
    rack.process(&machine(), 1, &limiter, &mut block);
    assert_eq!(rack.stages.len(), 2);
    let remembered = |rack: &Rack| match &rack.stages[0] {
        DspStage::Eq(eq) => value(eq.bands[0].memories[0].z1),
        DspStage::Limiter(_) => panic!("an equaliser"),
    };
    let before = remembered(&rack);
    // The same shape goes on from what it remembers.
    rack.process(&machine(), 0, &one, &mut Vec::new());
    assert_eq!(remembered(&rack), before);
    assert_eq!(rack.stages.len(), 2);
    // Another shape starts over, and what came after it is gone.
    rack.process(&machine(), 0, &two, &mut Vec::new());
    assert_eq!(remembered(&rack), 0.0);
    assert_eq!(rack.stages.len(), 1);
}

#[test]
fn a_new_ducking_starts_over() {
    let mut rig = Rig::new(&two_group_topology(), 256).unwrap();
    for _ in 0..20 {
        rig.push_group(GroupId(1), &vec![0.9f32; 64 * 2]);
        rig.push_group(GroupId(2), &vec![0.5f32; 64 * 2]);
        rig.mix_tick();
    }
    assert!(rig.group_duck_depth_db(GroupId(2)) > 1.0);
    let duck = rig.mixer.groups[1].duck;
    rig.apply(MixerCommand::SetDuck { group: GroupId(2), duck });
    assert_eq!(rig.group_duck_depth_db(GroupId(2)), 0.0);
    assert_eq!(rig.group_duck_depth_db(GroupId(9)), 0.0);
}

#[test]
fn a_swapped_chain_starts_over() {
    let mut rig = Rig::new(&single_group_topology(1.0, false, 1.0), 64).unwrap();
    let chain = DspChain::new(&vec![DspSpec::Limiter { ceiling_db: number(-12.0) }], stereo(48_000)).unwrap();
    rig.mixer.swap_chain(GroupId(1), chain);
    run_ticks(&mut rig, GroupId(1), OutputId(1), &vec![1.0f32; 64 * 2], 10);
    assert_eq!(rig.desk().strips[0].rack.stages.len(), 1);
    let desk = rig.desk.as_mut().unwrap();
    desk.reset_chain(0);
    desk.reset_chain(5);
    assert!(desk.strips[0].rack.stages.is_empty());
}

#[test]
fn an_installed_chain_takes_the_place_of_the_old_one() {
    let mut rig = Rig::new(&single_group_topology(1.0, false, 1.0), 64).unwrap();
    let limiter = DspSpec::Limiter { ceiling_db: number(-12.0) };
    let desk = rig.desk.as_mut().unwrap();
    assert_eq!(rig.mixer.install_chain(desk, GroupId(1), &vec![limiter.clone()]), Ok(()));
    run_ticks(&mut rig, GroupId(1), OutputId(1), &vec![1.0f32; 64 * 2], 10);
    assert_eq!(rig.desk().strips[0].rack.stages.len(), 1);

    // What cannot be built, or has no group, leaves all as it was.
    let band = EqBandSpec { freq_hz: number(30_000.0), gain_db: number(0.0), q: number(1.0) };
    let desk = rig.desk.as_mut().unwrap();
    let result = rig.mixer.install_chain(desk, GroupId(1), &vec![DspSpec::Eq { bands: vec![band] }]);
    assert!(matches!(result, Err(DomainError::InvalidEqBand { .. })));
    assert_eq!(rig.mixer.install_chain(desk, GroupId(9), &vec![]), Ok(()));
    assert_eq!(desk.strips[0].rack.stages.len(), 1);
    assert_eq!(rig.mixer.groups[0].chain.stages.len(), 1);

    assert_eq!(rig.mixer.install_chain(desk, GroupId(1), &vec![limiter.clone(), limiter]), Ok(()));
    assert!(desk.strips[0].rack.stages.is_empty());
    assert_eq!(rig.mixer.groups[0].chain.stages.len(), 2);
}

#[test]
fn a_limiter_that_is_passed_over_keeps_running() {
    let mut heard = Limiter::new(&machine(), number(-6.0), stereo(48_000));
    let mut passed = heard;
    passed.set_bypass(true);
    for _ in 0..5 {
        run(&mut heard, &[1.0f32; 64 * 2]);
        run(&mut passed, &[1.0f32; 64 * 2]);
    }
    assert_eq!(heard.envelope, passed.envelope);
    assert!(heard.engaged() && passed.engaged());
    assert!(value(passed.bypass.mix.current) < value(heard.bypass.mix.current));
}

#[test]
fn a_group_with_nothing_to_duck_under_keeps_its_gain() {
    let mut gain = DuckTargetGain::new(&machine(), 48_000, number(10.0), number(100.0));
    let mut block = numbers(&[0.25f32; 64 * 2]);
    gain.apply(&machine(), &mut block, number(1.0), 2);
    assert_eq!(values(&block), vec![0.25f32; 64 * 2]);
    assert_eq!(value(gain.current), 1.0);
}

#[test]
fn a_silenced_group_does_not_gate_its_output() {
    let mut rig = Rig::new(&two_groups_one_output(), 304).unwrap();
    rig.apply(MixerCommand::SetGroupMute(GroupId(1), true));
    rig.push_group(GroupId(1), &vec![0.5f32; 101 * 2]);
    rig.push_group(GroupId(2), &vec![0.5f32; 304 * 2]);
    rig.mix_tick();
    let mut out = vec![0.0f32; 304 * 4];
    assert!(rig.take_output(OutputId(1), &mut out) > 0);
    // Unmuted, it is waited for.
    let mut rig = Rig::new(&two_groups_one_output(), 304).unwrap();
    rig.push_group(GroupId(1), &vec![0.5f32; 101 * 2]);
    rig.push_group(GroupId(2), &vec![0.5f32; 304 * 2]);
    rig.mix_tick();
    assert_eq!(rig.take_output(OutputId(1), &mut out), 0);
}

#[test]
fn what_is_parked_outlasts_a_block_and_comes_out_in_order() {
    let mut rig = Rig::new(&single_group_topology(1.0, false, 1.0), 64).unwrap();
    let mut out = vec![0.0f32; rig.output_capacity(OutputId(1))];
    for n in 0..4 {
        rig.push_group(GroupId(1), &vec![0.1 * n as f32; 64 * 2]);
        rig.mix_tick();
        rig.take_output(OutputId(1), &mut out);
    }
    rig.push_group(GroupId(1), &vec![0.9f32; 64 * 2]);
    rig.mix_tick_gated(&[OutputId(1)]);
    let parked = values(&rig.mixer.groups[0].parked);
    assert!(!parked.is_empty());
    for _ in 0..3 {
        rig.push_group(GroupId(1), &[]);
        rig.mix_tick_gated(&[OutputId(1)]);
        let before = out.clone();
        assert_eq!(rig.take_output(OutputId(1), &mut out), 0);
        assert_eq!(out, before);
        assert_eq!(values(&rig.mixer.groups[0].parked)[..parked.len()], parked[..]);
    }
    rig.push_group(GroupId(1), &[]);
    rig.mix_tick();
    let n = rig.take_output(OutputId(1), &mut out);
    assert!(n >= parked.len());
    for (heard, held) in out.iter().zip(&parked) {
        assert!((heard - held).abs() < 1e-4);
    }
}

#[test]
fn a_short_take_leaves_nothing_behind() {
    let mut rig = Rig::new(&single_group_topology(1.0, false, 1.0), 64).unwrap();
    let mut out = vec![0.0f32; 3];
    let mut taken = 0;
    for _ in 0..6 {
        rig.push_group(GroupId(1), &vec![0.5f32; 64 * 2]);
        rig.mix_tick();
        taken += rig.take_output(OutputId(1), &mut out);
        assert!(rig.mixer.outputs[0].accum.iter().all(|s| value(*s) == 0.0));
        assert_eq!(rig.take_output(OutputId(1), &mut out), 0);
    }
    assert!(taken > 0);
}

#[test]
fn a_silenced_group_is_metered_but_not_heard() {
    let mut rig = Rig::new(&two_groups_one_output(), 64).unwrap();
    let mut alone = Rig::new(&two_groups_one_output(), 64).unwrap();
    rig.apply(MixerCommand::SetGroupMute(GroupId(1), true));
    let mut out = vec![0.0f32; rig.output_capacity(OutputId(1))];
    let mut other = out.clone();
    for _ in 0..8 {
        rig.push_group(GroupId(1), &vec![0.9f32; 64 * 2]);
        rig.push_group(GroupId(2), &vec![0.25f32; 64 * 2]);
        rig.mix_tick();
        alone.push_group(GroupId(2), &vec![0.25f32; 64 * 2]);
        alone.mix_tick();
        let n = rig.take_output(OutputId(1), &mut out);
        assert_eq!(alone.take_output(OutputId(1), &mut other), n);
        assert_eq!(out, other);
    }
    assert!(rig.group_peak_value(GroupId(1)) > 0.5);
}

#[test]
fn both_ears_hear_the_same_of_what_is_straight_ahead() {
    for rate in [44_100, 48_000, 96_000] {
        let hrirs = hrirs(rate);
        let (l, r) = hrirs.pair_for(FC);
        assert_eq!(l, r);
        let (l, r) = hrirs.pair_for(FR);
        assert_ne!(l, r);
    }
    assert_eq!(shadow_taps(0), 1);
    assert_eq!(shadow_taps(180), 1);
    assert_eq!(shadow_taps(-180), 1);
    assert_eq!(shadow_taps(30), 4);
    assert_eq!(shadow_taps(-135), 4);
}

#[test]
fn each_channel_is_heard_through_the_impulses_of_its_position() {
    let plan = Spatializer::new(ChannelLayout::surround_5_1(), 5);
    let hrirs = hrirs(48_000);
    let pairs = plan.equip(&hrirs, &|impulse: &Vec<f32>, partition: usize| (impulse.clone(), partition));
    assert_eq!(pairs.len(), plan.channels.len());
    for (pair, channel) in pairs.iter().zip(&plan.channels) {
        let (left, right) = hrirs.pair_at(channel.position);
        assert_eq!(pair.0, (left.clone(), 8));
        assert_eq!(pair.1, (right.clone(), 8));
    }
}

#[test]
fn a_rendering_does_what_its_kind_does() {
    let wide = Format { sample_rate: 48_000, channels: 6, layout: ChannelLayout::surround_5_1() };
    let input: Vec<f32> = (0..4 * 6).map(|i| (i % 7) as f32 / 8.0).collect();
    let low = low_level();
    for spatial in [false, true] {
        let render = Render::build(spatial, wide, stereo(48_000), 4);
        let (coef, mut pairs) = match &render {
            Render::Matrix(m) => (coefficients(m), Ears::new()),
            Render::Spatial(s) => (Vec::new(), ears(s, 48_000)),
        };
        let mut output = vec![9.0f32; 4 * 2 + 1];
        let written = render.process(
            &mut pairs,
            0.0f32,
            &|acc: f32, k: usize, s: f32| acc + coef[k] * s,
            &|a: f32, b: f32| a + b,
            &|x: f32| x * low,
            &input,
            &mut output,
        );
        assert_eq!(written, 8);
        assert_eq!(output[8], 9.0);
        let expected = match &render {
            Render::Matrix(m) => {
                let mut out = vec![0.0f32; 8];
                m.process(0.0f32, &|acc: f32, k: usize, s: f32| acc + coef[k] * s, &input, &mut out);
                out
            }
            Render::Spatial(s) => to_both_ears(s, &mut ears(s, 48_000), &input),
        };
        assert_eq!(spatial, matches!(render, Render::Spatial(_)));
        assert_eq!(output[..8], expected[..]);
    }
}

#[test]
fn no_conversion_is_louder_than_full_scale() {
    let layouts: Vec<ChannelLayout> = [1u32, 2, 3, 4, 7, 0x3f, 0x60f, 0x63f, 0x107, 0x7fff, 0x1_0000]
        .iter()
        .map(|mask| ChannelLayout(*mask))
        .collect();
    for from in &layouts {
        for to in &layouts {
            let matrix = ChannelMatrix::new(*from, *to);
            let coef = coefficients(&matrix);
            for sign in [1.0f32, -1.0] {
                let input = vec![sign; from.count() as usize];
                let mut output = vec![5.0f32; to.count() as usize];
                matrix.process(0.0f32, &|acc: f32, k: usize, s: f32| acc + coef[k] * s, &input, &mut output);
                assert!(output.iter().all(|s| s.abs() <= 1.0 + 1e-6), "{from:?} {to:?} {output:?}");
            }
        }
    }
}

#[test]
fn the_peak_of_an_independent_group_does_not_know_the_master() {
    let mut loud = Rig::new(&single_group_topology(0.8, false, 1.0), 64).unwrap();
    let mut quiet = Rig::new(&single_group_topology(0.8, false, 0.25), 64).unwrap();
    let mut following = Rig::new(&single_group_topology(0.8, true, 0.25), 64).unwrap();
    let mut out = vec![0.0f32; loud.output_capacity(OutputId(1))];
    for n in 0..8 {
        quiet.apply(MixerCommand::SetMaster(level(0.1 * n as f32)));
        for rig in [&mut loud, &mut quiet] {
            rig.apply(MixerCommand::SetGroupGain(GroupId(1), level(0.8 - 0.05 * n as f32)));
            rig.push_group(GroupId(1), &vec![0.5 + 0.05 * n as f32; 64 * 2]);
            rig.mix_tick();
            rig.take_output(OutputId(1), &mut out);
        }
        assert_eq!(loud.group_peak(GroupId(1)), quiet.group_peak(GroupId(1)));
    }
    following.push_group(GroupId(1), &vec![0.5f32; 64 * 2]);
    following.mix_tick();
    assert!((following.group_peak_value(GroupId(1)) - 0.5 * 0.8 * 0.25).abs() < 1e-3);
}

#[test]
fn a_clip_is_shown_at_every_rate() {
    for rate in [1, 8_000, 48_000, 16_777_217] {
        let mut meter = PeakMeter::new(&machine(), rate);
        meter.observe(&machine(), &numbers(&[0.5, -1.0]), 2);
        assert!(meter.sample().clipped);
        let mut calm = PeakMeter::new(&machine(), rate);
        calm.observe(&machine(), &numbers(&[0.5, -0.99]), 2);
        assert!(!calm.sample().clipped);
    }
}
