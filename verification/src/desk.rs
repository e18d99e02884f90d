//! The desk of a mixer: a strip of gains, stages and levels for each group, and
//! a limiter and a level for each output.
//!
//! What a mixer asks of its samples is answered here, up to what only a machine
//! can do: the arithmetic on numbers, the resampling, and the rendering.
use crate::chain::{fresh, unfit_from, DspChain};
use crate::command::{CommandView, MixerCommand};
use crate::dsp::DspSpec;
use crate::dynamics::{
    ducked_by, ducking, fader_moves, finds, follower_fresh, limited, limiter_fresh, DuckTargetGain,
    EnvFollower, Fader, FaderCourse, Limiter,
};
use crate::float::Float32;
use crate::meter::{clips, envelope, flushed, meter_fresh, run_down, waits, MeterLevel, PeakMeter};
use crate::mixer::{
    group_at, groups_after, lemma_group_at, output_at, GroupView, Mixer, MixerView, Render,
};
use crate::model::DspStageConfig;
use crate::ramp::{
    at_rest, earlier, floored, scaled, settles_ms, Arithmetic, LEVEL_FLOOR_BITS, ONE_BITS,
};
use crate::resample::Resampler;
use crate::sample::{DomainError, DuckSpec, Format, Gain, GroupId, OutputId, ResampleRatio};
use crate::signal::Signal;
use crate::stages::{rack_runs, Rack, RackView};
use vstd::prelude::*;

verus! {

/// Infinitely far below full scale: nothing was heard yet.
pub const UNHEARD_BITS: u32 = 0xff80_0000;

/// What a desk cannot do by itself.
pub trait Machine: Arithmetic + Resampler<Float32> {
    /// The block of a group in the channels of its output.
    fn render(self, group: usize, render: &Render, block: &Vec<Float32>) -> (Self, Vec<Float32>);
}

/// The strip of one group.
#[derive(Debug)]
pub struct Strip {
    pub fader: Fader,
    pub rack: Rack,
    pub follower: EnvFollower,
    /// The level that was found last.
    pub level_db: Float32,
    /// On its way since the group was first ducked.
    pub duck: Option<DuckTargetGain>,
    pub meter: PeakMeter,
}

/// The end of the line of one output.
#[derive(Debug, Clone, Copy)]
pub struct Bus {
    pub limiter: Limiter,
    pub meter: PeakMeter,
}

#[derive(Debug)]
pub struct Desk<M> {
    pub machine: M,
    pub strips: Vec<Strip>,
    pub buses: Vec<Bus>,
}

impl<M> Desk<M> {
    /// There is a strip at a position, and its frames have channels.
    pub open spec fn has_strip(self, group: int) -> bool {
        0 <= group < self.strips@.len() && self.strips@[group].rack.format.channels > 0
    }

    /// There is a bus at a position, and its frames have channels.
    pub open spec fn has_bus(self, output: int) -> bool {
        0 <= output < self.buses@.len() && self.buses@[output].limiter.channels > 0
    }

    /// The desk with another strip at a position.
    pub open spec fn strip_differs(self, group: int, after: Desk<M>) -> bool {
        &&& after.machine == self.machine
        &&& after.buses == self.buses
        &&& after.strips@.len() == self.strips@.len()
        &&& forall|i: int|
            0 <= i < self.strips@.len() && i != group ==> #[trigger] after.strips@[i]
                == self.strips@[i]
    }

    /// The desk with another bus at a position.
    pub open spec fn bus_differs(self, output: int, after: Desk<M>) -> bool {
        &&& after.machine == self.machine
        &&& after.strips == self.strips
        &&& after.buses@.len() == self.buses@.len()
        &&& forall|i: int|
            0 <= i < self.buses@.len() && i != output ==> #[trigger] after.buses@[i]
                == self.buses@[i]
    }
}

impl<M: Machine> Resampler<Float32> for Desk<M> {
    fn resample(self, line: usize, channels: Vec<Vec<Float32>>, ratio: ResampleRatio) -> (r: (
        Self,
        Vec<Vec<Float32>>,
    ))
        ensures
            call_ensures(
                M::resample,
                (self.machine, line, channels, ratio),
                (r.0.machine, r.1),
            ),
            r.0.strips == self.strips,
            r.0.buses == self.buses,
    {
        let Desk { machine, strips, buses } = self;
        let (machine, out) = machine.resample(line, channels, ratio);
        (Desk { machine, strips, buses }, out)
    }
}

/// A strip at rest: the fader at its gains, no stage built yet.
pub open spec fn strip_fresh<A: Arithmetic>(
    a: A,
    format: Format,
    gain: Float32,
    master: Float32,
    strip: Strip,
) -> bool {
    &&& at_rest(a, gain, format.sample_rate, strip.fader.gain)
    &&& at_rest(a, master, format.sample_rate, strip.fader.master)
    &&& strip.rack.deep_view() == (RackView { format, stages: Seq::empty() })
    &&& follower_fresh(a, format.sample_rate, strip.follower)
    &&& strip.level_db == (Float32 { bits: UNHEARD_BITS })
    &&& strip.duck is None
    &&& meter_fresh(a, format.sample_rate, strip.meter)
}

/// A bus at rest, with its ceiling at full scale.
pub open spec fn bus_fresh<A: Arithmetic>(a: A, format: Format, bus: Bus) -> bool {
    &&& limiter_fresh(a, Float32 { bits: 0 }, format, bus.limiter)
    &&& meter_fresh(a, format.sample_rate, bus.meter)
}

impl<M: Machine> Desk<M> {
    /// The desk of a mixer that was just made.
    pub fn new(machine: M, mixer: &Mixer<Float32>) -> (r: Desk<M>)
        requires
            forall|o: int|
                0 <= o < mixer.outputs@.len() ==> (#[trigger] mixer.outputs@[o]).format.channels
                    > 0,
        ensures
            r.machine == machine,
            r.strips@.len() == mixer.groups@.len(),
            forall|g: int|
                0 <= g < r.strips@.len() ==> strip_fresh(
                    machine,
                    mixer.groups@[g].input_format,
                    mixer.groups@[g].gain.deep_view(),
                    mixer.groups@[g].master.deep_view(),
                    #[trigger] r.strips@[g],
                ),
            r.buses@.len() == mixer.outputs@.len(),
            forall|o: int|
                0 <= o < r.buses@.len() ==> bus_fresh(
                    machine,
                    mixer.outputs@[o].format,
                    #[trigger] r.buses@[o],
                ),
    {
        let mut strips: Vec<Strip> = Vec::new();
        let mut g: usize = 0;
        while g < mixer.groups.len()
            invariant
                g <= mixer.groups@.len(),
                strips@.len() == g,
                forall|i: int|
                    0 <= i < g ==> strip_fresh(
                        machine,
                        mixer.groups@[i].input_format,
                        mixer.groups@[i].gain.deep_view(),
                        mixer.groups@[i].master.deep_view(),
                        #[trigger] strips@[i],
                    ),
            decreases mixer.groups@.len() - g,
        {
            let group = &mixer.groups[g];
            let format: Format = group.input_format;
            let rate: u32 = format.sample_rate;
            let strip = Strip {
                fader: Fader::new(&machine, group.gain.value(), group.master.value(), rate),
                rack: Rack::new(format),
                follower: EnvFollower::new(&machine, rate),
                level_db: Float32 { bits: UNHEARD_BITS },
                duck: None,
                meter: PeakMeter::new(&machine, rate),
            };
            strips.push(strip);
            g = g + 1;
        }
        let mut buses: Vec<Bus> = Vec::new();
        let mut o: usize = 0;
        while o < mixer.outputs.len()
            invariant
                o <= mixer.outputs@.len(),
                buses@.len() == o,
                forall|i: int|
                    0 <= i < mixer.outputs@.len() ==> (#[trigger] mixer.outputs@[i]).format.channels
                        > 0,
                forall|i: int|
                    0 <= i < o ==> bus_fresh(
                        machine,
                        mixer.outputs@[i].format,
                        #[trigger] buses@[i],
                    ),
            decreases mixer.outputs@.len() - o,
        {
            let format: Format = mixer.outputs[o].format;
            let bus = Bus {
                limiter: Limiter::new(&machine, Float32 { bits: 0 }, format),
                meter: PeakMeter::new(&machine, format.sample_rate),
            };
            buses.push(bus);
            o = o + 1;
        }
        Desk { machine, strips, buses }
    }
}

/// The strips after a command: a group whose ducking is set anew starts over at
/// one.
pub open spec fn strips_after(
    strips: Seq<Strip>,
    groups: Seq<GroupView<Float32>>,
    command: CommandView,
) -> Seq<Strip> {
    match command {
        CommandView::SetDuck { group, .. } => match group_at(groups, group, 0) {
            Some(i) => if i < strips.len() {
                strips.update(i, Strip { duck: None, ..strips[i] })
            } else {
                strips
            },
            None => strips,
        },
        _ => strips,
    }
}

impl<M> Desk<M> {
    /// Takes note of a command that was given to the mixer.
    pub fn heed(&mut self, mixer: &Mixer<Float32>, command: &MixerCommand)
        ensures
            final(self).machine == old(self).machine,
            final(self).buses == old(self).buses,
            final(self).strips@ == strips_after(
                old(self).strips@,
                mixer.model().groups,
                command.deep_view(),
            ),
    {
        match command {
            MixerCommand::SetDuck { group, duck } => {
                match mixer.find_group(*group) {
                    Some(i) => {
                        proof {
                            lemma_group_at(mixer.model().groups, *group, 0);
                        }
                        self.reset_duck(i);
                        assert(self.strips@ =~= strips_after(
                            old(self).strips@,
                            mixer.model().groups,
                            command.deep_view(),
                        ));
                    },
                    None => {},
                }
            },
            _ => {},
        }
    }

    fn reset_duck(&mut self, group: usize)
        ensures
            group >= old(self).strips@.len() ==> *final(self) == *old(self),
            group < old(self).strips@.len() ==> {
                &&& old(self).strip_differs(group as int, *final(self))
                &&& final(self).strips@[group as int] == (Strip {
                    duck: None,
                    ..old(self).strips@[group as int]
                })
            },
    {
        if group < self.strips.len() {
            self.strips[group].duck = None;
        }
    }

    /// The chain of a group was swapped: all of its stages start over.
    pub fn reset_chain(&mut self, group: usize)
        ensures
            group >= old(self).strips@.len() ==> *final(self) == *old(self),
            group < old(self).strips@.len() ==> {
                let strip = old(self).strips@[group as int];
                let after = final(self).strips@[group as int];
                &&& old(self).strip_differs(group as int, *final(self))
                &&& after == (Strip { rack: after.rack, ..strip })
                &&& after.rack.deep_view() == (RackView {
                    format: strip.rack.format,
                    stages: Seq::empty(),
                })
            },
    {
        if group < self.strips.len() {
            let format: Format = self.strips[group].rack.format;
            self.strips[group].rack = Rack::new(format);
        }
    }
}

/// The strips after the chain of a group was swapped: all of its stages start
/// over.
pub open spec fn chain_restarts(before: Seq<Strip>, at: int, after: Seq<Strip>) -> bool {
    &&& after.len() == before.len()
    &&& forall|i: int| 0 <= i < before.len() && i != at ==> #[trigger] after[i] == before[i]
    &&& at < before.len() ==> {
        &&& after[at] == (Strip { rack: after[at].rack, ..before[at] })
        &&& after[at].rack.deep_view() == (RackView {
            format: before[at].rack.format,
            stages: Seq::empty(),
        })
    }
}

impl Mixer<Float32> {
    /// Gives a command to the mixer and its desk.
    pub fn give<M>(&mut self, desk: &mut Desk<M>, command: MixerCommand)
        ensures
            old(self).wf() ==> final(self).wf(),
            final(self).max_block_frames == old(self).max_block_frames,
            final(self).silence == old(self).silence,
            final(self).model() == (MixerView {
                groups: groups_after(old(self).model().groups, command.deep_view()),
                outputs: old(self).model().outputs,
                muted: match command {
                    MixerCommand::SetMuted(on) => on,
                    _ => old(self).model().muted,
                },
            }),
            final(desk).machine == old(desk).machine,
            final(desk).buses == old(desk).buses,
            final(desk).strips@ == strips_after(
                old(desk).strips@,
                final(self).model().groups,
                command.deep_view(),
            ),
    {
        self.apply(command);
        desk.heed(self, &command);
    }

    /// Puts a chain of these stages in the place of a group's own. A chain that
    /// cannot be built changes nothing, and neither does one for a group that
    /// is not there.
    pub fn install_chain<M>(
        &mut self,
        desk: &mut Desk<M>,
        group: GroupId,
        specs: &Vec<DspSpec>,
    ) -> (r: Result<(), DomainError>)
        ensures
            old(self).wf() ==> final(self).wf(),
            final(self).max_block_frames == old(self).max_block_frames,
            final(self).silence == old(self).silence,
            final(desk).machine == old(desk).machine,
            final(desk).buses == old(desk).buses,
            match group_at(old(self).model().groups, group, 0) {
                None => {
                    &&& r is Ok
                    &&& final(self).model() == old(self).model()
                    &&& final(desk).strips@ == old(desk).strips@
                },
                Some(i) => {
                    let before = old(self).model().groups[i];
                    let rate = before.input_format.sample_rate as nat;
                    match unfit_from(specs.deep_view(), rate, 0) {
                        Some(band) => {
                            &&& r == Err::<(), DomainError>(
                                DomainError::InvalidEqBand { freq_hz: band.freq_hz, q: band.q },
                            )
                            &&& final(self).model() == old(self).model()
                            &&& final(desk).strips@ == old(desk).strips@
                        },
                        None => {
                            &&& r is Ok
                            &&& final(self).model() == (MixerView {
                                groups: old(self).model().groups.update(
                                    i,
                                    GroupView { chain: fresh(specs.deep_view()), ..before },
                                ),
                                ..old(self).model()
                            })
                            &&& chain_restarts(old(desk).strips@, i, final(desk).strips@)
                        },
                    }
                },
            },
    {
        match self.find_group(group) {
            None => Ok(()),
            Some(i) => {
                proof {
                    lemma_group_at(self.model().groups, group, 0);
                }
                match DspChain::new(specs, self.groups[i].input_format) {
                    Err(e) => Err(e),
                    Ok(chain) => {
                        self.swap_chain(group, chain);
                        desk.reset_chain(i);
                        Ok(())
                    },
                }
            },
        }
    }
}

/// What a meter shows.
pub open spec fn reading(meter: PeakMeter) -> MeterLevel {
    MeterLevel { peak: meter.env, clipped: meter.clip_hold_left > 0 }
}

/// What is shown where there is no meter.
pub open spec fn no_reading() -> MeterLevel {
    MeterLevel { peak: Float32 { bits: 0 }, clipped: false }
}

impl Mixer<Float32> {
    /// What the meter of a group shows; silence where there is no such group.
    pub fn group_peak<M>(&self, desk: &Desk<M>, group: GroupId) -> (r: MeterLevel)
        ensures
            r == match group_at(self.model().groups, group, 0) {
                Some(i) => if i < desk.strips@.len() {
                    reading(desk.strips@[i].meter)
                } else {
                    no_reading()
                },
                None => no_reading(),
            },
    {
        match self.find_group(group) {
            Some(i) => if i < desk.strips.len() {
                desk.strips[i].meter.sample()
            } else {
                MeterLevel::silent()
            },
            None => MeterLevel::silent(),
        }
    }

    /// What the meter of an output shows; silence where there is no such output.
    pub fn output_peak<M>(&self, desk: &Desk<M>, output: OutputId) -> (r: MeterLevel)
        ensures
            r == match output_at(self.model().outputs, output, 0) {
                Some(o) => if o < desk.buses@.len() {
                    reading(desk.buses@[o].meter)
                } else {
                    no_reading()
                },
                None => no_reading(),
            },
    {
        match self.find_output(output) {
            Some(o) => if o < desk.buses.len() {
                desk.buses[o].meter.sample()
            } else {
                MeterLevel::silent()
            },
            None => MeterLevel::silent(),
        }
    }

    /// Whether the limiter of an output reduced the last block.
    pub fn output_limiter_engaged<M>(&self, desk: &Desk<M>, output: OutputId) -> (r: bool)
        ensures
            r == match output_at(self.model().outputs, output, 0) {
                Some(o) => o < desk.buses@.len() && desk.buses@[o].limiter.engaged,
                None => false,
            },
    {
        match self.find_output(output) {
            Some(o) => o < desk.buses.len() && desk.buses[o].limiter.engaged(),
            None => false,
        }
    }

    /// How far a group is ducked, in decibels: zero where it is not, or where
    /// there is no such group.
    pub fn group_duck_depth_db<M: Machine>(&self, desk: &Desk<M>, group: GroupId) -> (r: Float32)
        ensures
            match running_duck(*self, *desk, group) {
                Some(gain) => exists|level: Float32|
                    #[trigger] call_ensures(
                        M::decibels,
                        (
                            &desk.machine,
                            floored(gain.current, Float32 { bits: LEVEL_FLOOR_BITS }),
                        ),
                        level,
                    ) && r == level.opposite(),
                None => r == (Float32 { bits: 0 }),
            },
    {
        match self.find_group(group) {
            Some(i) => if i < desk.strips.len() {
                match &desk.strips[i].duck {
                    Some(gain) => gain.depth_db(&desk.machine),
                    None => Float32 { bits: 0 },
                }
            } else {
                Float32 { bits: 0 }
            },
            None => Float32 { bits: 0 },
        }
    }
}

/// The gain of a group that has been ducked.
pub open spec fn running_duck<M>(
    mixer: Mixer<Float32>,
    desk: Desk<M>,
    group: GroupId,
) -> Option<DuckTargetGain> {
    match group_at(mixer.model().groups, group, 0) {
        Some(i) => if i < desk.strips@.len() {
            desk.strips@[i].duck
        } else {
            None
        },
        None => None,
    }
}

/// The channels of a strip's frames.
fn channels_of(format: Format) -> (r: usize)
    ensures
        r == format.channels,
{
    format.channels as usize
}

impl<M: Machine> Signal<Float32> for Desk<M> {
    fn fade(self, group: usize, gain: Gain, master: Option<Gain>, block: Vec<Float32>) -> (r: (
        Self,
        Vec<Float32>,
    ))
        ensures
            !self.has_strip(group as int) ==> r.0 == self && r.1 == block,
            self.has_strip(group as int) ==> {
                let strip = self.strips@[group as int];
                let after = r.0.strips@[group as int];
                let channels = strip.rack.format.channels;
                &&& self.strip_differs(group as int, r.0)
                &&& after == (Strip { fader: after.fader, ..strip })
                &&& exists|course: FaderCourse| #[trigger]
                    fader_moves(
                        self.machine,
                        strip.fader,
                        gain.deep_view(),
                        master.deep_view(),
                        block@.len() / (channels as nat),
                        course,
                        after.fader,
                    ) && scaled(self.machine, block@, channels as int, course.factors, r.1@)
            },
    {
        let mut desk = self;
        let mut block = block;
        if group >= desk.strips.len() {
            return (desk, block);
        }
        let channels: usize = channels_of(desk.strips[group].rack.format);
        if channels == 0 {
            return (desk, block);
        }
        let target = gain.value();
        let followed: Option<Float32> = match master {
            Some(m) => Some(m.value()),
            None => None,
        };
        assert(followed == master.deep_view());
        desk.strips[group].fader.fade(&desk.machine, target, followed, &mut block, channels);
        (desk, block)
    }

    fn filter(self, group: usize, stage: usize, config: &DspStageConfig, block: Vec<Float32>) -> (r: (
        Self,
        Vec<Float32>,
    ))
        ensures
            !self.has_strip(group as int) || stage > self.strips@[group as int].rack.stages@.len()
                ==> r.0 == self && r.1 == block,
            self.has_strip(group as int) && stage <= self.strips@[group as int].rack.stages@.len()
                ==> {
                let strip = self.strips@[group as int];
                let after = r.0.strips@[group as int];
                &&& self.strip_differs(group as int, r.0)
                &&& after == (Strip { rack: after.rack, ..strip })
                &&& rack_runs(
                    self.machine,
                    strip.rack.deep_view(),
                    stage as int,
                    config.deep_view(),
                    block@,
                    after.rack.deep_view(),
                    r.1@,
                )
            },
    {
        let mut desk = self;
        let mut block = block;
        if group >= desk.strips.len() || desk.strips[group].rack.format.channels == 0 || stage
            > desk.strips[group].rack.stages.len() {
            return (desk, block);
        }
        desk.strips[group].rack.process(&desk.machine, stage, config, &mut block);
        (desk, block)
    }

    fn follow(self, group: usize, block: &Vec<Float32>) -> (r: Self)
        ensures
            !self.has_strip(group as int) ==> r == self,
            self.has_strip(group as int) ==> {
                let strip = self.strips@[group as int];
                let after = r.strips@[group as int];
                let channels = strip.rack.format.channels;
                &&& self.strip_differs(group as int, r)
                &&& after == (Strip {
                    follower: after.follower,
                    level_db: after.level_db,
                    ..strip
                })
                &&& exists|course: Seq<Float32>| #[trigger]
                    finds(self.machine, strip.follower, block@, channels as int, course) && {
                        &&& course.len() == block@.len() / (channels as nat)
                        &&& after.follower == (EnvFollower {
                            env: earlier(strip.follower.env, course, course.len() as int),
                            ..strip.follower
                        })
                    }
                &&& call_ensures(
                    M::decibels,
                    (&self.machine, floored(after.follower.env, Float32 { bits: LEVEL_FLOOR_BITS })),
                    after.level_db,
                )
            },
    {
        let mut desk = self;
        if group >= desk.strips.len() {
            return desk;
        }
        let channels: usize = channels_of(desk.strips[group].rack.format);
        if channels == 0 {
            return desk;
        }
        let level: Float32 = desk.strips[group].follower.process_block(
            &desk.machine,
            block,
            channels,
        );
        desk.strips[group].level_db = level;
        desk
    }

    fn is_above(&self, group: usize, threshold_db: Float32) -> (r: bool)
        ensures
            r == (group < self.strips@.len() && threshold_db.less(
                self.strips@[group as int].level_db,
            )),
    {
        group < self.strips.len() && threshold_db.is_less(self.strips[group].level_db)
    }

    fn duck(self, group: usize, duck: DuckSpec, reduced: bool, block: Vec<Float32>) -> (r: (
        Self,
        Vec<Float32>,
    ))
        ensures
            !self.has_strip(group as int) ==> r.0 == self && r.1 == block,
            self.has_strip(group as int) ==> {
                let strip = self.strips@[group as int];
                let after = r.0.strips@[group as int];
                &&& self.strip_differs(group as int, r.0)
                &&& after == (Strip { duck: after.duck, ..strip })
                &&& duck_runs(
                    self.machine,
                    strip.duck,
                    strip.rack.format.sample_rate,
                    strip.rack.format.channels as nat,
                    duck,
                    reduced,
                    block@,
                    after.duck,
                    r.1@,
                )
            },
    {
        let mut desk = self;
        let mut block = block;
        if group >= desk.strips.len() {
            return (desk, block);
        }
        let format: Format = desk.strips[group].rack.format;
        let channels: usize = channels_of(format);
        if channels == 0 {
            return (desk, block);
        }
        let mut gain: DuckTargetGain = match desk.strips[group].duck {
            Some(running) => running,
            None => DuckTargetGain::new(
                &desk.machine,
                format.sample_rate,
                duck.attack_ms,
                duck.release_ms,
            ),
        };
        let target: Float32 = if reduced {
            desk.machine.linear(duck.amount_db.negate())
        } else {
            Float32 { bits: ONE_BITS }
        };
        let ghost ready = gain;
        let ghost start = block@;
        gain.apply(&desk.machine, &mut block, target, channels);
        proof {
            assert(duck_ready(
                self.machine,
                self.strips@[group as int].duck,
                format.sample_rate,
                duck,
                ready,
            ));
            assert(duck_goal(self.machine, duck, reduced, target));
            assert(ducks_from(
                self.machine,
                ready,
                target,
                format.channels as nat,
                start,
                gain,
                block@,
            ));
        }
        desk.strips[group].duck = Some(gain);
        (desk, block)
    }

    fn meter(self, group: usize, block: &Vec<Float32>, idle_frames: usize) -> (r: Self)
        ensures
            !(group < self.strips@.len()) ==> r == self,
            group < self.strips@.len() ==> {
                let strip = self.strips@[group as int];
                let after = r.strips@[group as int];
                &&& self.strip_differs(group as int, r)
                &&& after == (Strip { meter: after.meter, ..strip })
                &&& shows(
                    self.machine,
                    strip.meter,
                    block@,
                    strip.rack.format.channels as nat,
                    idle_frames,
                    after.meter,
                )
            },
    {
        let mut desk = self;
        if group >= desk.strips.len() {
            return desk;
        }
        let channels: usize = channels_of(desk.strips[group].rack.format);
        let mut meter: PeakMeter = desk.strips[group].meter;
        show(&desk.machine, &mut meter, block, channels, idle_frames);
        desk.strips[group].meter = meter;
        desk
    }

    fn render(self, group: usize, render: &Render, block: &Vec<Float32>) -> (r: (
        Self,
        Vec<Float32>,
    ))
        ensures
            call_ensures(
                M::render,
                (self.machine, group, render, block),
                (r.0.machine, r.1),
            ),
            r.0.strips == self.strips,
            r.0.buses == self.buses,
    {
        let Desk { machine, strips, buses } = self;
        let (machine, out) = machine.render(group, render, block);
        (Desk { machine, strips, buses }, out)
    }

    fn limit(self, output: usize, block: Vec<Float32>) -> (r: (Self, Vec<Float32>))
        ensures
            !self.has_bus(output as int) ==> r.0 == self && r.1 == block,
            self.has_bus(output as int) ==> {
                let bus = self.buses@[output as int];
                let after = r.0.buses@[output as int];
                &&& self.bus_differs(output as int, r.0)
                &&& after == (Bus { limiter: after.limiter, ..bus })
                &&& limited(self.machine, bus.limiter, block@, after.limiter, r.1@)
            },
    {
        let mut desk = self;
        let mut block = block;
        if output >= desk.buses.len() || desk.buses[output].limiter.channels == 0 {
            return (desk, block);
        }
        desk.buses[output].limiter.process(&desk.machine, &mut block);
        (desk, block)
    }

    fn meter_output(self, output: usize, block: &Vec<Float32>, idle_frames: usize) -> (r: Self)
        ensures
            !(output < self.buses@.len()) ==> r == self,
            output < self.buses@.len() ==> {
                let bus = self.buses@[output as int];
                let after = r.buses@[output as int];
                &&& self.bus_differs(output as int, r)
                &&& after == (Bus { meter: after.meter, ..bus })
                &&& shows(
                    self.machine,
                    bus.meter,
                    block@,
                    bus.limiter.channels as nat,
                    idle_frames,
                    after.meter,
                )
            },
    {
        let mut desk = self;
        if output >= desk.buses.len() {
            return desk;
        }
        let channels: usize = desk.buses[output].limiter.channels;
        let mut meter: PeakMeter = desk.buses[output].meter;
        show(&desk.machine, &mut meter, block, channels, idle_frames);
        desk.buses[output].meter = meter;
        desk
    }
}

/// A gain can go to a target and make `out` of a block on its way.
pub open spec fn ducks_from<A: Arithmetic>(
    a: A,
    gain: DuckTargetGain,
    target: Float32,
    channels: nat,
    block: Seq<Float32>,
    after: DuckTargetGain,
    out: Seq<Float32>,
) -> bool {
    exists|course: Seq<Float32>| #[trigger]
        ducking(a, gain, target, course) && {
            &&& course.len() == block.len() / channels
            &&& after == ducked_by(gain, course)
            &&& scaled(a, block, channels as int, course, out)
        }
}

/// The gain that a group's ducking goes on from. A group that was not ducked yet
/// starts at one.
pub open spec fn duck_ready<A: Arithmetic>(
    a: A,
    running: Option<DuckTargetGain>,
    sample_rate: u32,
    duck: DuckSpec,
    ready: DuckTargetGain,
) -> bool {
    match running {
        Some(gain) => ready == gain,
        None => {
            &&& ready.current == (Float32 { bits: ONE_BITS })
            &&& settles_ms(a, duck.attack_ms, sample_rate, ready.attack_coeff)
            &&& settles_ms(a, duck.release_ms, sample_rate, ready.release_coeff)
        },
    }
}

/// The gain that a group's ducking goes to: down by the amount where it is
/// reduced, one elsewhere.
pub open spec fn duck_goal<A: Arithmetic>(
    a: A,
    duck: DuckSpec,
    reduced: bool,
    target: Float32,
) -> bool {
    if reduced {
        call_ensures(A::linear, (&a, duck.amount_db.opposite()), target)
    } else {
        target == (Float32 { bits: ONE_BITS })
    }
}

/// The ducking of a group can make `out` of a block.
pub open spec fn duck_runs<A: Arithmetic>(
    a: A,
    running: Option<DuckTargetGain>,
    sample_rate: u32,
    channels: nat,
    duck: DuckSpec,
    reduced: bool,
    block: Seq<Float32>,
    after: Option<DuckTargetGain>,
    out: Seq<Float32>,
) -> bool {
    after is Some && exists|ready: DuckTargetGain, target: Float32|
        {
            &&& #[trigger] duck_ready(a, running, sample_rate, duck, ready)
            &&& #[trigger] duck_goal(a, duck, reduced, target)
            &&& ducks_from(a, ready, target, channels, block, after->Some_0, out)
        }
}

/// A meter after a block, or after so many frames of silence where the block is
/// empty.
pub open spec fn shows<A: Arithmetic>(
    a: A,
    meter: PeakMeter,
    block: Seq<Float32>,
    channels: nat,
    idle_frames: usize,
    after: PeakMeter,
) -> bool {
    if block.len() == 0 {
        waits(a, meter, idle_frames, after)
    } else if channels == 0 {
        after == meter
    } else {
        let frames = block.len() / channels;
        exists|to: Float32| #[trigger]
            envelope(
                a,
                meter.release,
                block,
                channels as int,
                frames as int,
                meter.env,
                to,
            ) && after == (PeakMeter {
                env: flushed(to),
                clip_hold_left: if clips(block, channels as int, frames as int) {
                    meter.clip_hold_frames
                } else {
                    run_down(meter.clip_hold_left, frames as u32)
                },
                ..meter
            })
    }
}

fn show<A: Arithmetic>(
    a: &A,
    meter: &mut PeakMeter,
    block: &Vec<Float32>,
    channels: usize,
    idle_frames: usize,
)
    ensures
        shows(*a, *old(meter), block@, channels as nat, idle_frames, *final(meter)),
{
    if block.len() == 0 {
        meter.observe_silence(a, idle_frames);
    } else {
        meter.observe(a, block.as_slice(), channels);
    }
}

} // verus!
