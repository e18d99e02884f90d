//! From a configuration to what a mixer is built from: one group for each
//! configured one, and one output for each device that they name.
use crate::command::{CommandView, MixerCommand};
use crate::delta::{chain_specs, resolve_duck, resolved_duck, specs_of};
use crate::model::{ConfigSnapshot, DspStageView, GroupView, SnapshotView};
use crate::resample::stretched;
use crate::sample::{
    ChannelLayout, Format, GroupId, GroupSpec, OutputId, OutputSpec, Topology,
};
use crate::text::same_text;
use crate::topology::{fits, sounding};
use vstd::prelude::*;

verus! {

/// Frames per block: 10 ms at 48 kHz.
pub const BLOCK_FRAMES: usize = 480;

/// The most channels that a format can have.
pub const MAX_CHANNELS: u16 = 29;

pub const MIN_RATE: u32 = 8_000;

pub const MAX_RATE: u32 = 384_000;

/// An output device and the format that it plays.
#[derive(Debug)]
pub struct Device {
    pub name: String,
    pub format: Format,
}

/// What a [`Device`] holds.
pub struct DeviceView {
    pub name: Seq<char>,
    pub format: Format,
}

impl DeepView for Device {
    type V = DeviceView;

    open spec fn deep_view(&self) -> DeviceView {
        DeviceView { name: self.name@, format: self.format }
    }
}

/// Blocks of a format can be mixed.
pub open spec fn usable(format: Format) -> bool {
    1 <= format.channels <= MAX_CHANNELS && MIN_RATE <= format.sample_rate <= MAX_RATE
}

pub fn is_usable(format: &Format) -> (r: bool)
    ensures
        r == usable(*format),
{
    1 <= format.channels && format.channels <= MAX_CHANNELS && MIN_RATE <= format.sample_rate
        && format.sample_rate <= MAX_RATE
}

/// Two channels at a rate.
pub open spec fn two_channels(sample_rate: u32) -> Format {
    Format { sample_rate, channels: 2, layout: ChannelLayout(0x3) }
}

pub fn stereo(sample_rate: u32) -> (r: Format)
    ensures
        r == two_channels(sample_rate),
{
    Format { sample_rate, channels: 2, layout: ChannelLayout::stereo() }
}

/// The format that groups are heard in: the captured one, where it can be mixed.
pub open spec fn heard_in(input: Format) -> Format {
    if usable(input) {
        input
    } else {
        two_channels(48_000)
    }
}

/// The devices that the first `n` groups name, in the order that they are first
/// named.
pub open spec fn named_devices(groups: Seq<GroupView>, n: int) -> Seq<Seq<char>>
    decreases n,
{
    if n <= 0 {
        Seq::empty()
    } else {
        let before = named_devices(groups, n - 1);
        if before.contains(groups[n - 1].output_device) {
            before
        } else {
            before.push(groups[n - 1].output_device)
        }
    }
}

/// The format of the first usable device with a name, from `from` on. A device
/// that is not there stands as a stereo output until it comes.
pub open spec fn played_in(
    devices: Seq<DeviceView>,
    name: Seq<char>,
    rate: u32,
    from: int,
) -> Format
    decreases devices.len() - from,
{
    if from < 0 || from >= devices.len() {
        two_channels(rate)
    } else if devices[from].name == name && usable(devices[from].format) {
        devices[from].format
    } else {
        played_in(devices, name, rate, from + 1)
    }
}

/// Group `i` of a configuration becomes this one. Its output is the one of its
/// device.
pub open spec fn planned_group(
    groups: Seq<GroupView>,
    i: int,
    names: Seq<Seq<char>>,
    input: Format,
    spec: GroupSpec,
) -> bool {
    let group = groups[i];
    &&& spec.id == GroupId(i as u16)
    &&& spec.gain.deep_view() == group.gain
    &&& spec.follow_master == group.follow_master
    &&& exists|o: int|
        0 <= o < names.len() && #[trigger] names[o] == group.output_device && spec.output
            == OutputId(o as u16)
    &&& spec.input_format == input
    &&& spec.dsp.deep_view() == specs_of(group.dsp)
    &&& spec.duck == resolved_duck(groups, group.duck)
    &&& spec.spatial == group.spatial
    &&& spec.mute == group.muted
}

/// What a configuration becomes.
pub open spec fn planned(
    snapshot: SnapshotView,
    devices: Seq<DeviceView>,
    input: Format,
    topology: Topology,
    names: Seq<Seq<char>>,
) -> bool {
    &&& names == named_devices(snapshot.groups, snapshot.groups.len() as int)
    &&& topology.master.deep_view() == snapshot.master
    &&& topology.outputs@.len() == names.len()
    &&& forall|o: int|
        0 <= o < names.len() ==> #[trigger] topology.outputs@[o] == (OutputSpec {
            id: OutputId(o as u16),
            format: played_in(devices, names[o], heard_in(input).sample_rate, 0),
        })
    &&& topology.groups@.len() == snapshot.groups.len()
    &&& forall|i: int|
        0 <= i < snapshot.groups.len() ==> planned_group(
            snapshot.groups,
            i,
            names,
            heard_in(input),
            #[trigger] topology.groups@[i],
        )
}

fn position_of(names: &Vec<String>, name: &str) -> (r: Option<usize>)
    ensures
        match r {
            Some(o) => o < names@.len() && names.deep_view()[o as int] == name@,
            None => !names.deep_view().contains(name@),
        },
{
    let mut o: usize = 0;
    while o < names.len()
        invariant
            o <= names@.len(),
            forall|p: int| 0 <= p < o ==> #[trigger] names.deep_view()[p] != name@,
        decreases names@.len() - o,
    {
        assert(names.deep_view()[o as int] == names@[o as int]@);
        if same_text(names[o].as_str(), name) {
            return Some(o);
        }
        o = o + 1;
    }
    None
}

fn format_of(devices: &Vec<Device>, name: &str, rate: u32) -> (r: Format)
    ensures
        r == played_in(devices.deep_view(), name@, rate, 0),
{
    let mut i: usize = 0;
    while i < devices.len()
        invariant
            i <= devices@.len(),
            played_in(devices.deep_view(), name@, rate, 0) == played_in(
                devices.deep_view(),
                name@,
                rate,
                i as int,
            ),
        decreases devices@.len() - i,
    {
        assert(devices.deep_view()[i as int] == devices@[i as int].deep_view());
        if same_text(devices[i].name.as_str(), name) && is_usable(&devices[i].format) {
            return devices[i].format;
        }
        i = i + 1;
    }
    stereo(rate)
}

/// The topology of a configuration, and the devices of its outputs.
pub fn plan(snapshot: &ConfigSnapshot, devices: &Vec<Device>, input: Format) -> (r: (
    Topology,
    Vec<String>,
))
    ensures
        planned(snapshot.deep_view(), devices.deep_view(), input, r.0, r.1.deep_view()),
{
    let input: Format = if is_usable(&input) {
        input
    } else {
        stereo(48_000)
    };
    let ghost view = snapshot.deep_view();
    let mut names: Vec<String> = Vec::new();
    let mut outputs: Vec<OutputSpec> = Vec::new();
    let mut groups: Vec<GroupSpec> = Vec::new();
    let mut i: usize = 0;
    assert(names.deep_view() =~= named_devices(view.groups, 0));
    while i < snapshot.groups.len()
        invariant
            i <= snapshot.groups@.len() == view.groups.len(),
            view == snapshot.deep_view(),
            names.deep_view() == named_devices(view.groups, i as int),
            outputs@.len() == names@.len(),
            forall|o: int|
                0 <= o < names@.len() ==> #[trigger] outputs@[o] == (OutputSpec {
                    id: OutputId(o as u16),
                    format: played_in(
                        devices.deep_view(),
                        names.deep_view()[o],
                        input.sample_rate,
                        0,
                    ),
                }),
            groups@.len() == i,
            forall|j: int|
                0 <= j < i ==> planned_group(
                    view.groups,
                    j,
                    names.deep_view(),
                    input,
                    #[trigger] groups@[j],
                ),
        decreases snapshot.groups@.len() - i,
    {
        let group = &snapshot.groups[i];
        assert(view.groups[i as int] == group.deep_view());
        let ghost kept = names.deep_view();
        let ghost listed = outputs@;
        let o: usize = match position_of(&names, group.output_device.as_str()) {
            Some(o) => {
                assert(kept.contains(kept[o as int]));
                o
            },
            None => {
                let o: usize = names.len();
                let format = format_of(devices, group.output_device.as_str(), input.sample_rate);
                outputs.push(OutputSpec { id: OutputId(o as u16), format });
                names.push(group.output_device.clone());
                assert(names.deep_view() =~= kept.push(group.output_device@));
                o
            },
        };
        proof {
            assert(names.deep_view() == named_devices(view.groups, i + 1));
            assert forall|p: int| 0 <= p < kept.len() implies names.deep_view()[p] == kept[p] by {
            }
            assert forall|p: int| 0 <= p < names@.len() implies #[trigger] outputs@[p] == (
            OutputSpec {
                id: OutputId(p as u16),
                format: played_in(
                    devices.deep_view(),
                    names.deep_view()[p],
                    input.sample_rate,
                    0,
                ),
            }) by {
                if p < kept.len() {
                    assert(outputs@[p] == listed[p]);
                }
            }
        }
        let spec = GroupSpec {
            id: GroupId(i as u16),
            gain: group.gain,
            follow_master: group.follow_master,
            output: OutputId(o as u16),
            input_format: input,
            dsp: chain_specs(&group.dsp),
            duck: resolve_duck(&snapshot.groups, &group.duck),
            spatial: group.spatial,
            mute: group.muted,
        };
        let ghost earlier = groups@;
        groups.push(spec);
        proof {
            assert(names.deep_view()[o as int] == group.output_device@);
            assert forall|j: int| 0 <= j < i + 1 implies planned_group(
                view.groups,
                j,
                names.deep_view(),
                input,
                #[trigger] groups@[j],
            ) by {
                if j < i {
                    assert(groups@[j] == earlier[j]);
                    assert(planned_group(view.groups, j, kept, input, earlier[j]));
                    let p = choose|p: int|
                        0 <= p < kept.len() && #[trigger] kept[p]
                            == view.groups[j].output_device && earlier[j].output == OutputId(
                            p as u16,
                        );
                    assert(names.deep_view()[p] == kept[p]);
                }
            }
        }
        i = i + 1;
    }
    (Topology { master: snapshot.master, groups, outputs }, names)
}

/// The bypass switches of the first `n` stages of group `i`.
pub open spec fn switches(i: int, stages: Seq<DspStageView>, n: int) -> Seq<CommandView>
    decreases n,
{
    if n <= 0 {
        Seq::empty()
    } else {
        switches(i, stages, n - 1).push(
            CommandView::SetDspBypass {
                group: GroupId(i as u16),
                stage: (n - 1) as usize,
                bypassed: stages[n - 1].bypassed,
            },
        )
    }
}

/// The bypass switches of the first `n` groups.
pub open spec fn all_switches(groups: Seq<GroupView>, n: int) -> Seq<CommandView>
    decreases n,
{
    if n <= 0 {
        Seq::empty()
    } else {
        all_switches(groups, n - 1) + switches(
            n - 1,
            groups[n - 1].dsp,
            groups[n - 1].dsp.len() as int,
        )
    }
}

/// What a mixer that was just made is told: what a topology does not say.
pub open spec fn first_commands(snapshot: SnapshotView) -> Seq<CommandView> {
    seq![CommandView::SetMuted(snapshot.muted)] + all_switches(
        snapshot.groups,
        snapshot.groups.len() as int,
    )
}

pub fn starting_commands(snapshot: &ConfigSnapshot) -> (r: Vec<MixerCommand>)
    ensures
        r.deep_view() == first_commands(snapshot.deep_view()),
{
    let ghost view = snapshot.deep_view();
    let ghost muted = seq![CommandView::SetMuted(view.muted)];
    let mut commands: Vec<MixerCommand> = Vec::new();
    commands.push(MixerCommand::SetMuted(snapshot.muted));
    let mut i: usize = 0;
    assert(commands.deep_view() =~= muted + all_switches(view.groups, 0));
    while i < snapshot.groups.len()
        invariant
            i <= snapshot.groups@.len() == view.groups.len(),
            view == snapshot.deep_view(),
            commands.deep_view() == muted + all_switches(view.groups, i as int),
        decreases snapshot.groups@.len() - i,
    {
        let stages = &snapshot.groups[i].dsp;
        let ghost told = commands.deep_view();
        let ghost chain = view.groups[i as int].dsp;
        assert(chain == stages.deep_view());
        let mut s: usize = 0;
        assert(told + switches(i as int, chain, 0) =~= told);
        while s < stages.len()
            invariant
                s <= stages@.len(),
                chain == stages.deep_view(),
                commands.deep_view() == told + switches(i as int, chain, s as int),
            decreases stages@.len() - s,
        {
            let ghost before = commands.deep_view();
            assert(chain[s as int] == stages@[s as int].deep_view());
            let command = MixerCommand::SetDspBypass {
                group: GroupId(i as u16),
                stage: s,
                bypassed: stages[s].bypassed,
            };
            commands.push(command);
            s = s + 1;
            assert(commands.deep_view() =~= before.push(command.deep_view()));
            assert(commands.deep_view() =~= told + switches(i as int, chain, s as int));
        }
        i = i + 1;
        assert(commands.deep_view() =~= muted + all_switches(view.groups, i as int));
    }
    commands
}

proof fn lemma_played_in(devices: Seq<DeviceView>, name: Seq<char>, rate: u32, from: int)
    requires
        MIN_RATE <= rate <= MAX_RATE,
    ensures
        usable(played_in(devices, name, rate, from)),
    decreases devices.len() - from,
{
    if 0 <= from < devices.len() {
        lemma_played_in(devices, name, rate, from + 1);
    }
}

proof fn lemma_stretched(from: nat, to: nat)
    requires
        MIN_RATE <= from,
        to <= MAX_RATE,
    ensures
        stretched(BLOCK_FRAMES as nat, from, to) <= 25_611,
{
    let n: int = BLOCK_FRAMES * to * 10 + 9 * from - 1;
    let d: int = 9 * from as int;
    assert(480 * to * 10 <= 480 * 384_000 * 10);
    vstd::arithmetic::div_mod::lemma_fundamental_div_mod(n, d);
    let q = n / d;
    assert(q <= 25_601) by (nonlinear_arith)
        requires
            n == d * q + n % d,
            0 <= n % d,
            n <= 1_843_200_000 + d - 1,
            d >= 72_000,
    ;
}

/// Whatever a configuration says and whatever devices there are, the plan has
/// formats that sound, and the buffers of its mixer fit in memory.
pub proof fn plans_can_be_built(
    snapshot: SnapshotView,
    devices: Seq<DeviceView>,
    input: Format,
    topology: Topology,
    names: Seq<Seq<char>>,
)
    requires
        planned(snapshot, devices, input, topology, names),
    ensures
        sounding(topology),
        fits(topology, BLOCK_FRAMES as nat),
{
    let rate = heard_in(input).sample_rate;
    assert(usize::MAX >= 0xffff_ffff);
    assert forall|o: int| 0 <= o < topology.outputs@.len() implies usable(
        (#[trigger] topology.outputs@[o]).format,
    ) by {
        lemma_played_in(devices, names[o], rate, 0);
    }
    assert forall|g: int| 0 <= g < topology.groups@.len() implies usable(
        (#[trigger] topology.groups@[g]).input_format,
    ) by {
        assert(planned_group(snapshot.groups, g, names, heard_in(input), topology.groups@[g]));
    }
    assert forall|g: int, o: int|
        #![trigger topology.groups@[g], topology.outputs@[o]]
        0 <= g < topology.groups@.len() && 0 <= o < topology.outputs@.len() implies stretched(
        BLOCK_FRAMES as nat,
        topology.groups@[g].input_format.sample_rate as nat,
        topology.outputs@[o].format.sample_rate as nat,
    ) * topology.outputs@[o].format.channels * 2 <= usize::MAX && stretched(
        BLOCK_FRAMES as nat,
        topology.groups@[g].input_format.sample_rate as nat,
        topology.outputs@[o].format.sample_rate as nat,
    ) <= usize::MAX by {
        let s = stretched(
            BLOCK_FRAMES as nat,
            topology.groups@[g].input_format.sample_rate as nat,
            topology.outputs@[o].format.sample_rate as nat,
        );
        let c = topology.outputs@[o].format.channels;
        lemma_stretched(
            topology.groups@[g].input_format.sample_rate as nat,
            topology.outputs@[o].format.sample_rate as nat,
        );
        assert(s * c <= 25_611 * 29) by (nonlinear_arith)
            requires
                s <= 25_611,
                c <= 29,
        ;
    }
}

/// No device has two outputs.
pub proof fn devices_have_one_output(groups: Seq<GroupView>, n: int, o: int, p: int)
    requires
        0 <= o < p < named_devices(groups, n).len(),
    ensures
        named_devices(groups, n)[o] != named_devices(groups, n)[p],
    decreases n,
{
    if n > 0 {
        let before = named_devices(groups, n - 1);
        if before.contains(groups[n - 1].output_device) || p < before.len() {
            devices_have_one_output(groups, n - 1, o, p);
        } else {
            assert(before.contains(before[o]));
        }
    }
}

/// A device that is there and usable is played in its own format, whatever other
/// devices there are; one that is not is played in stereo, at the rate of the groups.
pub proof fn a_device_is_played_in_its_own_format(
    devices: Seq<DeviceView>,
    name: Seq<char>,
    rate: u32,
    from: int,
    i: int,
)
    requires
        0 <= from <= devices.len(),
    ensures
        from <= i < devices.len() && devices[i].name == name && usable(devices[i].format) && (
        forall|j: int|
            from <= j < i ==> (#[trigger] devices[j]).name != name || !usable(devices[j].format))
            ==> played_in(devices, name, rate, from) == devices[i].format,
        (forall|j: int|
            from <= j < devices.len() ==> (#[trigger] devices[j]).name != name || !usable(
                devices[j].format,
            )) ==> {
            let format = played_in(devices, name, rate, from);
            format.channels == 2 && format.layout.0 == 0x3 && format.sample_rate == rate
        },
    decreases devices.len() - from,
{
    if from < devices.len() && !(devices[from].name == name && usable(devices[from].format)) {
        a_device_is_played_in_its_own_format(devices, name, rate, from + 1, i);
    }
}

} // verus!
