use splitstream::command::MixerCommand;
use splitstream::dsp::DspSpec;
use splitstream::float::Float32;
use splitstream::mixer::Mixer;
use splitstream::model::{AppConfig, ConfigSnapshot, DspStageConfig, DuckSpecConfig, GroupConfig};
use splitstream::plan::{is_usable, plan, starting_commands, stereo, Device, BLOCK_FRAMES};
use splitstream::sample::{ChannelLayout, Format, Gain, GroupId, OutputId};

fn number(value: f32) -> Float32 {
    Float32::from_bits(value.to_bits())
}

fn group(name: &str, device: &str) -> GroupConfig {
    GroupConfig {
        name: name.into(),
        output_device: device.into(),
        gain: Gain::unity(),
        follow_master: true,
        match_rules: vec![],
        dsp: Vec::new(),
        duck: None,
        spatial: false,
        muted: false,
        hotkey_mute: None,
        hotkey_volume_up: None,
        hotkey_volume_down: None,
    }
}

fn snapshot(groups: Vec<GroupConfig>) -> ConfigSnapshot {
    ConfigSnapshot {
        schema_version: 2,
        master: Gain::unity(),
        muted: true,
        groups,
        app: AppConfig::default(),
        profiles: Vec::new(),
    }
}

fn surround(sample_rate: u32) -> Format {
    Format { sample_rate, channels: 6, layout: ChannelLayout::surround_5_1() }
}

fn device(name: &str, format: Format) -> Device {
    Device { name: name.into(), format }
}

#[test]
fn one_output_for_each_device_in_the_order_of_the_groups() {
    let groups = vec![group("Game", "Headset"), group("Music", "Speakers"), group("Chat", "Headset")];
    let devices = vec![device("Speakers", surround(96_000)), device("Headset", stereo(44_100))];
    let (topology, names) = plan(&snapshot(groups), &devices, stereo(48_000));
    assert_eq!(names, vec!["Headset", "Speakers"]);
    let outputs: Vec<(OutputId, Format)> = topology.outputs.iter().map(|o| (o.id, o.format)).collect();
    assert_eq!(outputs, vec![(OutputId(0), stereo(44_100)), (OutputId(1), surround(96_000))]);
    let routed: Vec<(GroupId, OutputId)> = topology.groups.iter().map(|g| (g.id, g.output)).collect();
    assert_eq!(
        routed,
        vec![(GroupId(0), OutputId(0)), (GroupId(1), OutputId(1)), (GroupId(2), OutputId(0))]
    );
    assert!(topology.groups.iter().all(|g| g.input_format == stereo(48_000)));
}

#[test]
fn a_missing_or_unusable_device_stands_as_stereo() {
    let groups = vec![group("Game", "Gone"), group("Music", "Odd")];
    let odd = Format { sample_rate: 48_000, channels: 40, layout: ChannelLayout::stereo() };
    let devices = vec![device("Odd", odd), device("Odd", surround(96_000))];
    let (topology, _) = plan(&snapshot(groups), &devices, stereo(32_000));
    assert_eq!(topology.outputs[0].format, stereo(32_000));
    assert_eq!(topology.outputs[1].format, surround(96_000));
    // What cannot be mixed is not heard in its own format.
    let (topology, _) = plan(&snapshot(vec![group("Game", "Gone")]), &Vec::new(), odd);
    assert_eq!(topology.groups[0].input_format, stereo(48_000));
}

#[test]
fn formats_have_their_limits() {
    assert!(is_usable(&stereo(8_000)) && is_usable(&stereo(384_000)));
    assert!(!is_usable(&stereo(7_999)) && !is_usable(&stereo(384_001)));
    assert!(!is_usable(&Format { channels: 0, ..stereo(48_000) }));
}

#[test]
fn ducking_is_resolved_and_a_trigger_that_is_gone_is_dropped() {
    let duck = |trigger: &str| DuckSpecConfig {
        trigger: trigger.into(),
        amount_db: number(12.0),
        threshold_db: number(-40.0),
        attack_ms: number(10.0),
        release_ms: number(200.0),
    };
    let mut music = group("Music", "Speakers");
    music.duck = Some(duck("Game"));
    music.gain = Gain::new(number(0.5)).unwrap();
    music.spatial = true;
    music.muted = true;
    let mut chat = group("Chat", "Speakers");
    chat.duck = Some(duck("Gone"));
    chat.follow_master = false;
    let (topology, _) = plan(&snapshot(vec![music, group("Game", "Headset"), chat]), &Vec::new(), stereo(48_000));
    let resolved = topology.groups[0].duck.unwrap();
    assert_eq!(resolved.trigger, GroupId(1));
    assert_eq!(resolved.amount_db, number(12.0));
    assert_eq!(topology.groups[0].gain, Gain::new(number(0.5)).unwrap());
    assert!(topology.groups[0].spatial && topology.groups[0].mute && topology.groups[0].follow_master);
    assert!(topology.groups[2].duck.is_none() && !topology.groups[2].follow_master);
}

#[test]
fn a_plan_can_be_built_and_told_how_to_start() {
    let stage = |bypassed: bool| DspStageConfig {
        spec: DspSpec::Limiter { ceiling_db: number(-6.0) },
        bypassed,
    };
    let mut music = group("Music", "Speakers");
    music.dsp = vec![stage(true), stage(false)];
    let snapshot = snapshot(vec![group("Game", "Headset"), music]);
    let (topology, _) = plan(&snapshot, &Vec::new(), stereo(48_000));
    assert_eq!(topology.groups[1].dsp, vec![stage(true).spec, stage(false).spec]);
    let mut mixer = Mixer::new(&topology, BLOCK_FRAMES, number(0.0)).unwrap();
    let commands = starting_commands(&snapshot);
    assert_eq!(
        commands,
        vec![
            MixerCommand::SetMuted(true),
            MixerCommand::SetDspBypass { group: GroupId(1), stage: 0, bypassed: true },
            MixerCommand::SetDspBypass { group: GroupId(1), stage: 1, bypassed: false },
        ]
    );
    for command in commands {
        mixer.apply(command);
    }
    assert!(mixer.muted && mixer.groups[1].chain.stages[0].bypassed);
    assert_eq!(mixer.formats_of(GroupId(1)), Some((stereo(48_000), stereo(48_000))));
    assert_eq!(mixer.formats_of(GroupId(9)), None);
}
