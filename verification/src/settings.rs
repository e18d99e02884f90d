//! What the settings window asks for: each gesture of the user as an intent,
//! and which page is shown.
use crate::action::{ActionView, ShellAction};
use crate::delta::{group_index, group_named};
use crate::dsp::{DspSpec, DspSpecView, EqBandSpec};
use crate::edit::{path_of, ConfigEdit, EditPath, EditView};
use crate::float::Float32;
use crate::model::{ConfigSnapshot, DuckSpecConfig, DuckView, GroupConfig, GroupView};
use crate::sample::{Gain, OutputId};
use crate::sessions::{
    default_duck_trigger, drop_edits, handle_drop, is_white, other_group_from, rules_in, rules_upto,
    session_from, split_rules, trim, trim_back, trim_front, trim_text, SessionInfo,
};
use crate::sink::text_of_option;
use crate::text::{
    a_text_without_separators_is_one_piece, chars_of, pieces, pieces_upto, same_text, text_of,
};
use vstd::prelude::*;

verus! {

/// The page that the user has open.
#[derive(Debug)]
pub enum Screen {
    Mixer,
    /// The settings of one group, by its name.
    GroupSettings(String),
}

/// The page that is shown.
#[derive(Debug, Clone, Copy, PartialEq, Eq, Structural)]
pub enum Page {
    /// The first run: nothing is configured yet.
    Onboarding,
    Mixer,
    /// The settings of the group at this position.
    Group(usize),
}

/// What a [`Screen`] says: the name of the group, if it shows one.
pub open spec fn screen_group(screen: Screen) -> Option<Seq<char>> {
    match screen {
        Screen::Mixer => None,
        Screen::GroupSettings(name) => Some(name@),
    }
}

/// The page for what is open: onboarding comes before all else, and the page
/// of a group that is gone falls back to the mixer.
pub fn page(screen: &Screen, first_run: bool, snapshot: &ConfigSnapshot) -> (r: Page)
    ensures
        r == if first_run {
            Page::Onboarding
        } else {
            match screen_group(*screen) {
                None => Page::Mixer,
                Some(name) => match group_named(snapshot.deep_view().groups, name) {
                    None => Page::Mixer,
                    Some(i) => Page::Group(i as usize),
                },
            }
        },
{
    if first_run {
        return Page::Onboarding;
    }
    match screen {
        Screen::Mixer => Page::Mixer,
        Screen::GroupSettings(name) => match group_index(&snapshot.groups, name) {
            None => Page::Mixer,
            Some(i) => Page::Group(i),
        },
    }
}

/// A gesture on one group.
#[derive(Debug)]
pub enum GroupGesture {
    Output(String),
    Fader(Gain),
    Mute,
    /// Solo, which is on or off before the gesture.
    Solo { soloed: bool },
    FollowMaster(bool),
    Spatial(bool),
    /// The rules as they were typed.
    SaveRules(String),
    /// The first band of an equaliser was moved.
    Band { stage: usize, spec: EqBandSpec },
    Ceiling(Float32),
    Bypass { stage: usize, on: bool },
    RemoveStage(usize),
    AddEq,
    AddLimiter,
    DuckSwitched(bool),
    DuckMoved(DuckSpecConfig),
    Remove,
}

/// What a [`GroupGesture`] says.
pub enum GroupGestureView {
    Output(Seq<char>),
    Fader(Float32),
    Mute,
    Solo { soloed: bool },
    FollowMaster(bool),
    Spatial(bool),
    SaveRules(Seq<char>),
    Band { stage: usize, spec: EqBandSpec },
    Ceiling(Float32),
    Bypass { stage: usize, on: bool },
    RemoveStage(usize),
    AddEq,
    AddLimiter,
    DuckSwitched(bool),
    DuckMoved(DuckView),
    Remove,
}

impl DeepView for GroupGesture {
    type V = GroupGestureView;

    open spec fn deep_view(&self) -> GroupGestureView {
        match self {
            GroupGesture::Output(device) => GroupGestureView::Output(device@),
            GroupGesture::Fader(gain) => GroupGestureView::Fader(gain.deep_view()),
            GroupGesture::Mute => GroupGestureView::Mute,
            GroupGesture::Solo { soloed } => GroupGestureView::Solo { soloed: *soloed },
            GroupGesture::FollowMaster(on) => GroupGestureView::FollowMaster(*on),
            GroupGesture::Spatial(on) => GroupGestureView::Spatial(*on),
            GroupGesture::SaveRules(text) => GroupGestureView::SaveRules(text@),
            GroupGesture::Band { stage, spec } => GroupGestureView::Band {
                stage: *stage,
                spec: *spec,
            },
            GroupGesture::Ceiling(db) => GroupGestureView::Ceiling(*db),
            GroupGesture::Bypass { stage, on } => GroupGestureView::Bypass {
                stage: *stage,
                on: *on,
            },
            GroupGesture::RemoveStage(stage) => GroupGestureView::RemoveStage(*stage),
            GroupGesture::AddEq => GroupGestureView::AddEq,
            GroupGesture::AddLimiter => GroupGestureView::AddLimiter,
            GroupGesture::DuckSwitched(on) => GroupGestureView::DuckSwitched(*on),
            GroupGesture::DuckMoved(duck) => GroupGestureView::DuckMoved(duck.deep_view()),
            GroupGesture::Remove => GroupGestureView::Remove,
        }
    }
}

/// The band that a new equaliser starts with: flat, at 1 kHz, with a q of 0.7.
pub open spec fn first_band() -> EqBandSpec {
    EqBandSpec {
        freq_hz: Float32 { bits: 0x447a_0000 },
        gain_db: Float32 { bits: 0 },
        q: Float32 { bits: 0x3f33_3333 },
    }
}

/// The ceiling that a new limiter starts with: -1 dB.
pub open spec fn first_ceiling() -> Float32 {
    Float32 { bits: 0xbf80_0000 }
}

/// The ducking that a group starts with: 6 dB down when the first other group
/// is above -30 dB, within 5 ms, and back within 200 ms.
pub open spec fn first_duck(groups: Seq<GroupView>, name: Seq<char>) -> DuckView {
    DuckView {
        trigger: match other_group_from(groups, name, 0) {
            Some(i) => groups[i].name,
            None => Seq::empty(),
        },
        amount_db: Float32 { bits: 0x40c0_0000 },
        threshold_db: Float32 { bits: 0xc1f0_0000 },
        attack_ms: Float32 { bits: 0x40a0_0000 },
        release_ms: Float32 { bits: 0x4348_0000 },
    }
}

/// What a gesture on a group asks for. What the running mixer can take goes as
/// parameters, chains and virtual surround go their own ways, and outputs and
/// groups change the structure.
pub open spec fn asked_of_group(
    gesture: GroupGestureView,
    g: GroupView,
    groups: Seq<GroupView>,
) -> ActionView {
    match gesture {
        GroupGestureView::Output(device) => ActionView::EditStructure(
            seq![EditView::SetGroupOutput(g.name, device)],
        ),
        GroupGestureView::Fader(gain) => ActionView::EditParams(
            seq![EditView::SetGroupGain(g.name, gain)],
        ),
        GroupGestureView::Mute => ActionView::EditParams(
            seq![EditView::SetGroupMute(g.name, !g.muted)],
        ),
        GroupGestureView::Solo { soloed } => ActionView::SetSolo(g.name, !soloed),
        GroupGestureView::FollowMaster(on) => ActionView::EditParams(
            seq![EditView::SetFollowMaster(g.name, on)],
        ),
        GroupGestureView::Spatial(on) => ActionView::EditSpatial(
            seq![EditView::SetSpatial(g.name, on)],
        ),
        GroupGestureView::SaveRules(text) => ActionView::EditParams(
            seq![EditView::SetRules(g.name, rules_in(text))],
        ),
        GroupGestureView::Band { stage, spec } => ActionView::EditParams(
            seq![EditView::SetEqBand(g.name, stage, 0, spec)],
        ),
        GroupGestureView::Ceiling(db) => ActionView::EditParams(
            seq![EditView::SetLimiterCeiling(g.name, db)],
        ),
        GroupGestureView::Bypass { stage, on } => ActionView::EditParams(
            seq![EditView::SetDspBypass(g.name, stage, on)],
        ),
        GroupGestureView::RemoveStage(stage) => ActionView::EditDspChains(
            seq![EditView::RemoveDspStage(g.name, stage)],
        ),
        GroupGestureView::AddEq => ActionView::EditDspChains(
            seq![EditView::AddDspStage(g.name, DspSpecView::Eq { bands: seq![first_band()] })],
        ),
        GroupGestureView::AddLimiter => ActionView::EditDspChains(
            seq![
                EditView::AddDspStage(g.name, DspSpecView::Limiter { ceiling_db: first_ceiling() }),
            ],
        ),
        GroupGestureView::DuckSwitched(on) => ActionView::EditParams(
            seq![
                EditView::SetDuck(
                    g.name,
                    if !on {
                        None
                    } else {
                        match g.duck {
                            Some(duck) => Some(duck),
                            None => Some(first_duck(groups, g.name)),
                        }
                    },
                ),
            ],
        ),
        GroupGestureView::DuckMoved(duck) => ActionView::EditParams(
            seq![EditView::SetDuck(g.name, Some(duck))],
        ),
        GroupGestureView::Remove => ActionView::EditStructure(
            seq![EditView::RemoveGroup(g.name)],
        ),
    }
}

fn one(edit: ConfigEdit) -> (r: Vec<ConfigEdit>)
    ensures
        r.deep_view() == seq![edit.deep_view()],
{
    let mut edits: Vec<ConfigEdit> = Vec::new();
    edits.push(edit);
    assert(edits.deep_view() =~= seq![edit.deep_view()]);
    edits
}

fn new_eq() -> (r: DspSpec)
    ensures
        r.deep_view() == (DspSpecView::Eq { bands: seq![first_band()] }),
{
    let mut bands: Vec<EqBandSpec> = Vec::new();
    bands.push(
        EqBandSpec {
            freq_hz: Float32::from_bits(0x447a_0000),
            gain_db: Float32::from_bits(0),
            q: Float32::from_bits(0x3f33_3333),
        },
    );
    assert(bands.deep_view() =~= seq![first_band()]);
    DspSpec::Eq { bands }
}

fn new_duck(groups: &Vec<GroupConfig>, name: &str) -> (r: DuckSpecConfig)
    ensures
        r.deep_view() == first_duck(groups.deep_view(), name@),
{
    DuckSpecConfig {
        trigger: default_duck_trigger(groups, name),
        amount_db: Float32::from_bits(0x40c0_0000),
        threshold_db: Float32::from_bits(0xc1f0_0000),
        attack_ms: Float32::from_bits(0x40a0_0000),
        release_ms: Float32::from_bits(0x4348_0000),
    }
}

/// What a gesture on the group at a position asks for.
pub fn group_gesture(gesture: GroupGesture, snapshot: &ConfigSnapshot, group: usize) -> (r: ShellAction)
    requires
        group < snapshot.groups@.len(),
    ensures
        r.deep_view() == asked_of_group(
            gesture.deep_view(),
            snapshot.deep_view().groups[group as int],
            snapshot.deep_view().groups,
        ),
{
    let g = &snapshot.groups[group];
    assert(snapshot.deep_view().groups[group as int] == g.deep_view());
    let name = g.name.clone();
    match gesture {
        GroupGesture::Output(device) => ShellAction::EditStructure(
            one(ConfigEdit::SetGroupOutput(name, device)),
        ),
        GroupGesture::Fader(gain) => ShellAction::EditParams(
            one(ConfigEdit::SetGroupGain(name, gain)),
        ),
        GroupGesture::Mute => ShellAction::EditParams(
            one(ConfigEdit::SetGroupMute(name, !g.muted)),
        ),
        GroupGesture::Solo { soloed } => ShellAction::SetSolo(name, !soloed),
        GroupGesture::FollowMaster(on) => ShellAction::EditParams(
            one(ConfigEdit::SetFollowMaster(name, on)),
        ),
        GroupGesture::Spatial(on) => ShellAction::EditSpatial(
            one(ConfigEdit::SetSpatial(name, on)),
        ),
        GroupGesture::SaveRules(text) => ShellAction::EditParams(
            one(ConfigEdit::SetRules(name, split_rules(text.as_str()))),
        ),
        GroupGesture::Band { stage, spec } => ShellAction::EditParams(
            one(ConfigEdit::SetEqBand(name, stage, 0, spec)),
        ),
        GroupGesture::Ceiling(db) => ShellAction::EditParams(
            one(ConfigEdit::SetLimiterCeiling(name, db)),
        ),
        GroupGesture::Bypass { stage, on } => ShellAction::EditParams(
            one(ConfigEdit::SetDspBypass(name, stage, on)),
        ),
        GroupGesture::RemoveStage(stage) => ShellAction::EditDspChains(
            one(ConfigEdit::RemoveDspStage(name, stage)),
        ),
        GroupGesture::AddEq => ShellAction::EditDspChains(
            one(ConfigEdit::AddDspStage(name, new_eq())),
        ),
        GroupGesture::AddLimiter => {
            let ceiling_db = Float32::from_bits(0xbf80_0000);
            ShellAction::EditDspChains(
                one(ConfigEdit::AddDspStage(name, DspSpec::Limiter { ceiling_db })),
            )
        },
        GroupGesture::DuckSwitched(on) => {
            let duck: Option<DuckSpecConfig> = if !on {
                None
            } else {
                match &g.duck {
                    Some(duck) => Some(duck.clone()),
                    None => Some(new_duck(&snapshot.groups, name.as_str())),
                }
            };
            ShellAction::EditParams(one(ConfigEdit::SetDuck(name, duck)))
        },
        GroupGesture::DuckMoved(duck) => ShellAction::EditParams(
            one(ConfigEdit::SetDuck(name, Some(duck))),
        ),
        GroupGesture::Remove => ShellAction::EditStructure(one(ConfigEdit::RemoveGroup(name))),
    }
}

/// The screen after a gesture on a group: one that removes the group leads
/// back to the mixer at once.
pub fn screen_after(screen: Screen, gesture: &GroupGesture) -> (r: Screen)
    ensures
        screen_group(r) == if gesture is Remove {
            None
        } else {
            screen_group(screen)
        },
{
    match gesture {
        GroupGesture::Remove => Screen::Mixer,
        _ => screen,
    }
}

/// What the master fader asks for.
pub fn master_fader(gain: Gain) -> (r: ShellAction)
    ensures
        r.deep_view() == ActionView::EditParams(seq![EditView::SetMaster(gain.deep_view())]),
{
    ShellAction::EditParams(one(ConfigEdit::SetMaster(gain)))
}

/// What the speaker under the master fader asks for.
pub fn master_mute(snapshot: &ConfigSnapshot) -> (r: ShellAction)
    ensures
        r.deep_view() == ActionView::EditParams(
            seq![EditView::SetMuted(!snapshot.deep_view().muted)],
        ),
{
    ShellAction::EditParams(one(ConfigEdit::SetMuted(!snapshot.muted)))
}

/// What dropping a session on a group asks for, or on the pool where `target`
/// is `None`. A drop that changes nothing asks for nothing.
pub fn session_dropped(
    pid: u32,
    target: Option<&str>,
    sessions: &Vec<SessionInfo>,
    snapshot: &ConfigSnapshot,
) -> (r: Option<ShellAction>)
    ensures
        r.deep_view() == ({
            let edits = match session_from(sessions.deep_view(), pid, 0) {
                None => Seq::empty(),
                Some(i) => drop_edits(
                    snapshot.deep_view().groups,
                    sessions.deep_view()[i].file_name,
                    text_of_option(target),
                    snapshot.deep_view().groups.len() as int,
                ),
            };
            if edits.len() == 0 {
                None
            } else {
                Some(ActionView::EditParams(edits))
            }
        }),
{
    let edits = handle_drop(pid, target, sessions, &snapshot.groups);
    assert(edits.deep_view().len() == edits@.len());
    if edits.len() == 0 {
        None
    } else {
        Some(ShellAction::EditParams(edits))
    }
}

/// A group as it is when it is new: at full level, following the master, and
/// with nothing on it.
pub open spec fn plain_group(name: Seq<char>, device: Seq<char>, rules: Seq<Seq<char>>) -> GroupView {
    GroupView {
        name,
        output_device: device,
        gain: Float32 { bits: 0x3f80_0000 },
        follow_master: true,
        match_rules: rules,
        dsp: Seq::empty(),
        duck: None,
        spatial: false,
        muted: false,
        hotkey_mute: None,
        hotkey_volume_up: None,
        hotkey_volume_down: None,
    }
}

fn new_group(name: String, output_device: String, match_rules: Vec<String>) -> (r: GroupConfig)
    ensures
        r.deep_view() == plain_group(name@, output_device@, match_rules.deep_view()),
{
    let r = GroupConfig {
        name,
        output_device,
        gain: Gain::unity(),
        follow_master: true,
        match_rules,
        dsp: Vec::new(),
        duck: None,
        spatial: false,
        muted: false,
        hotkey_mute: None,
        hotkey_volume_up: None,
        hotkey_volume_down: None,
    };
    assert(r.dsp.deep_view() =~= Seq::empty());
    r
}

/// What creating a group asks for. A name of white space asks for nothing.
pub fn create_group(name: &str, device: &str) -> (r: Option<ShellAction>)
    ensures
        r.deep_view() == if trim(name@).len() == 0 {
            None
        } else {
            Some(
                ActionView::EditStructure(
                    seq![
                        EditView::AddGroup(
                            plain_group(trim(name@), trim(device@), Seq::empty()),
                        ),
                    ],
                ),
            )
        },
{
    let trimmed = trim_text(name);
    if chars_of(trimmed.as_str()).len() == 0 {
        return None;
    }
    let rules: Vec<String> = Vec::new();
    assert(rules.deep_view() =~= Seq::empty());
    let group = new_group(trimmed, trim_text(device), rules);
    Some(ShellAction::EditStructure(one(ConfigEdit::AddGroup(group))))
}

/// The device that onboarding offers: what was picked, or else the system's
/// default output.
pub fn offered_device(picked: &str, default_output: Option<&str>) -> (r: String)
    ensures
        r@ == if picked@.len() > 0 {
            picked@
        } else {
            match default_output {
                Some(name) => name@,
                None => picked@,
            }
        },
{
    if chars_of(picked).len() > 0 {
        picked.to_owned()
    } else {
        match default_output {
            Some(name) => name.to_owned(),
            None => picked.to_owned(),
        }
    }
}

/// What finishing onboarding asks for: one group that takes every application
/// to the device, and whether to start with the system. Without a device it
/// asks for nothing.
pub fn finish_onboarding(device: &str, autostart: bool) -> (r: Option<ShellAction>)
    ensures
        r.deep_view() == if device@.len() == 0 {
            None
        } else {
            Some(
                ActionView::EditStructure(
                    seq![
                        EditView::AddGroup(plain_group("Main"@, device@, seq!["*"@])),
                        EditView::SetAutostart(autostart),
                    ],
                ),
            )
        },
{
    if chars_of(device).len() == 0 {
        return None;
    }
    let mut rules: Vec<String> = Vec::new();
    rules.push("*".to_owned());
    assert(rules.deep_view() =~= seq!["*"@]);
    let group = new_group("Main".to_owned(), device.to_owned(), rules);
    let mut edits: Vec<ConfigEdit> = Vec::new();
    edits.push(ConfigEdit::AddGroup(group));
    edits.push(ConfigEdit::SetAutostart(autostart));
    assert(edits.deep_view() =~= seq![
        EditView::AddGroup(plain_group("Main"@, device@, seq!["*"@])),
        EditView::SetAutostart(autostart),
    ]);
    Some(ShellAction::EditStructure(edits))
}

/// The name of the first entry of an output, from `from` on.
pub open spec fn label_from(names: Seq<(OutputId, Seq<char>)>, id: OutputId, from: int) -> Seq<char>
    decreases names.len() - from,
{
    if from < 0 || from >= names.len() {
        "output"@
    } else if names[from].0 == id {
        names[from].1
    } else {
        label_from(names, id, from + 1)
    }
}

/// The label of an output's meter: its device, or `output` where none is known.
pub fn output_label(names: &Vec<(OutputId, String)>, id: OutputId) -> (r: String)
    ensures
        r@ == label_from(Seq::new(names@.len(), |i: int| (names@[i].0, names@[i].1@)), id, 0),
{
    let ghost all = Seq::new(names@.len(), |i: int| (names@[i].0, names@[i].1@));
    let mut i: usize = 0;
    while i < names.len()
        invariant
            i <= names@.len(),
            all == Seq::new(names@.len(), |i: int| (names@[i].0, names@[i].1@)),
            label_from(all, id, 0) == label_from(all, id, i as int),
        decreases names@.len() - i,
    {
        assert(all[i as int] == (names@[i as int].0, names@[i as int].1@));
        if names[i].0 == id {
            return names[i].1.clone();
        }
        i = i + 1;
    }
    "output".to_owned()
}

/// What was typed into a level box.
#[derive(Debug)]
pub enum LevelText {
    /// The bottom of the fader, which is silence.
    Bottom,
    /// A number of decibels, in decimal digits.
    Number(String),
    /// Anything else.
    Unread,
}

/// What a [`LevelText`] says.
pub enum LevelView {
    Bottom,
    Number(Seq<char>),
    Unread,
}

impl DeepView for LevelText {
    type V = LevelView;

    open spec fn deep_view(&self) -> LevelView {
        match self {
            LevelText::Bottom => LevelView::Bottom,
            LevelText::Number(text) => LevelView::Number(text@),
            LevelText::Unread => LevelView::Unread,
        }
    }
}

/// A text without the sign in front of it.
pub open spec fn unsigned(text: Seq<char>) -> Seq<char> {
    if text.len() > 0 && (text[0] == '+' || text[0] == '-') {
        text.skip(1)
    } else {
        text
    }
}

/// Decimal digits with one point at most.
pub open spec fn is_decimal(text: Seq<char>) -> bool {
    &&& forall|i: int| 0 <= i < text.len() ==> '0' <= #[trigger] text[i] <= '9' || text[i] == '.'
    &&& exists|i: int| 0 <= i < text.len() && '0' <= #[trigger] text[i] <= '9'
    &&& forall|i: int, j: int|
        0 <= i < j < text.len() ==> !(#[trigger] text[i] == '.' && #[trigger] text[j] == '.')
}

fn decimal_from(chars: &Vec<char>, from: usize) -> (r: bool)
    requires
        from <= chars@.len(),
    ensures
        r == is_decimal(chars@.skip(from as int)),
{
    let ghost text = chars@.skip(from as int);
    let mut digits = false;
    let mut point = false;
    let mut i: usize = from;
    while i < chars.len()
        invariant
            from <= i <= chars@.len(),
            text == chars@.skip(from as int),
            forall|k: int|
                0 <= k < i - from ==> '0' <= #[trigger] text[k] <= '9' || text[k] == '.',
            digits == exists|k: int| 0 <= k < i - from && '0' <= #[trigger] text[k] <= '9',
            point == exists|k: int| 0 <= k < i - from && #[trigger] text[k] == '.',
            forall|k: int, j: int|
                0 <= k < j < i - from ==> !(#[trigger] text[k] == '.' && #[trigger] text[j] == '.'),
        decreases chars@.len() - i,
    {
        let c = chars[i];
        assert(text[i - from] == c);
        if '0' <= c && c <= '9' {
            digits = true;
        } else if c == '.' && !point {
            point = true;
        } else {
            if c == '.' {
                let ghost k = choose|k: int| 0 <= k < i - from && #[trigger] text[k] == '.';
                assert(text[k] == '.' && text[i - from] == '.');
            }
            return false;
        }
        i = i + 1;
    }
    digits
}

/// A text without one `dB` or `db` at its end.
pub open spec fn without_unit(text: Seq<char>) -> Seq<char> {
    let n = text.len();
    if n >= 2 && text[n - 2] == 'd' && (text[n - 1] == 'B' || text[n - 1] == 'b') {
        text.take(n - 2)
    } else {
        text
    }
}

/// Reads a level box: the unit and the white space around it do not matter.
pub fn level_text(text: &str) -> (r: LevelText)
    ensures
        ({
            let number = trim(without_unit(trim(text@)));
            r.deep_view() == if number == "-inf"@ || number == "-\u{221e}"@ {
                LevelView::Bottom
            } else if is_decimal(unsigned(number)) {
                LevelView::Number(number)
            } else {
                LevelView::Unread
            }
        }),
{
    let trimmed = trim_text(text);
    let mut chars = chars_of(trimmed.as_str());
    let n: usize = chars.len();
    if n >= 2 && chars[n - 2] == 'd' && (chars[n - 1] == 'B' || chars[n - 1] == 'b') {
        chars.truncate(n - 2);
    }
    assert(chars@ =~= without_unit(trimmed@));
    let bare = text_of(chars.as_slice());
    let number = trim_text(bare.as_str());
    if same_text(number.as_str(), "-inf") || same_text(number.as_str(), "-\u{221e}") {
        return LevelText::Bottom;
    }
    let typed = chars_of(number.as_str());
    let from: usize = if typed.len() > 0 && (typed[0] == '+' || typed[0] == '-') {
        1
    } else {
        0
    };
    assert(typed@.skip(from as int) =~= unsigned(number@));
    if decimal_from(&typed, from) {
        LevelText::Number(number)
    } else {
        LevelText::Unread
    }
}

/// The rules as one text, in the order of the list.
pub open spec fn joined(rules: Seq<Seq<char>>) -> Seq<char>
    decreases rules.len(),
{
    if rules.len() == 0 {
        Seq::empty()
    } else if rules.len() == 1 {
        rules[0]
    } else {
        joined(rules.drop_last()) + seq![',', ' '] + rules.last()
    }
}

/// The rules of a group as the text that is offered for editing.
pub fn rules_text(rules: &Vec<String>) -> (r: String)
    ensures
        r@ == joined(rules.deep_view()),
{
    let mut text: Vec<char> = Vec::new();
    let mut i: usize = 0;
    while i < rules.len()
        invariant
            i <= rules@.len(),
            text@ == joined(rules.deep_view().take(i as int)),
        decreases rules@.len() - i,
    {
        let ghost before = rules.deep_view().take(i as int);
        if i > 0 {
            text.push(',');
            text.push(' ');
        }
        let mut rule = chars_of(rules[i].as_str());
        let ghost added = rule@;
        text.append(&mut rule);
        i = i + 1;
        proof {
            let now = rules.deep_view().take(i as int);
            assert(now.drop_last() =~= before);
            assert(now.last() == added);
            assert(now.len() == i);
            assert(text@ =~= joined(now));
        }
    }
    assert(rules.deep_view().take(i as int) =~= rules.deep_view());
    text_of(text.as_slice())
}

/// A rule that can be written as text: there is something of it, no comma in
/// it, and no white space at its ends.
pub open spec fn is_writable(rule: Seq<char>) -> bool {
    rule.len() > 0 && !rule.contains(',') && !is_white(rule[0]) && !is_white(rule.last())
}

/// A rule as it stands in the text: after the first, with a space before it.
spec fn written(rules: Seq<Seq<char>>, i: int) -> Seq<char> {
    if i == 0 {
        rules[0]
    } else {
        seq![' '] + rules[i]
    }
}

proof fn lemma_prefix_pieces(a: Seq<char>, b: Seq<char>, n: int)
    requires
        0 <= n <= a.len(),
        n <= b.len(),
        a.take(n) == b.take(n),
    ensures
        pieces_upto(a, ',', n) == pieces_upto(b, ',', n),
    decreases n,
{
    if n > 0 {
        assert(a.take(n - 1) =~= a.take(n).take(n - 1));
        assert(b.take(n - 1) =~= b.take(n).take(n - 1));
        assert(a[n - 1] == a.take(n)[n - 1]);
        assert(b[n - 1] == b.take(n)[n - 1]);
        lemma_prefix_pieces(a, b, n - 1);
    }
}

proof fn lemma_last_piece(text: Seq<char>, tail: Seq<char>, k: int)
    requires
        !tail.contains(','),
        0 <= k <= tail.len(),
    ensures
        pieces_upto(text.push(',') + tail, ',', text.len() + 1 + k) == pieces(text, ',').push(
            tail.take(k),
        ),
    decreases k,
{
    let all = text.push(',') + tail;
    let n = text.len() as int;
    if k == 0 {
        assert(all.take(n) =~= text.take(n));
        lemma_prefix_pieces(all, text, n);
        assert(all[n] == ',');
        assert(tail.take(0) =~= Seq::<char>::empty());
    } else {
        lemma_last_piece(text, tail, k - 1);
        let before = pieces(text, ',').push(tail.take(k - 1));
        assert(all[n + k] == tail[k - 1]);
        assert(tail.contains(tail[k - 1]));
        assert(before.drop_last() =~= pieces(text, ','));
        assert(before.last() == tail.take(k - 1));
        assert(tail.take(k) =~= tail.take(k - 1).push(tail[k - 1]));
    }
}

proof fn lemma_joined_pieces(rules: Seq<Seq<char>>)
    requires
        rules.len() > 0,
        forall|i: int| 0 <= i < rules.len() ==> is_writable(#[trigger] rules[i]),
    ensures
        pieces(joined(rules), ',') == Seq::new(rules.len(), |i: int| written(rules, i)),
    decreases rules.len(),
{
    if rules.len() == 1 {
        assert(is_writable(rules[0]));
        a_text_without_separators_is_one_piece(rules[0], ',');
        assert(seq![rules[0]] =~= Seq::new(rules.len(), |i: int| written(rules, i)));
    } else {
        let front = rules.drop_last();
        assert forall|i: int| 0 <= i < front.len() implies is_writable(#[trigger] front[i]) by {
            assert(is_writable(rules[i]));
        }
        lemma_joined_pieces(front);
        let last = rules.last();
        assert(is_writable(rules[rules.len() - 1]));
        let tail = seq![' '] + last;
        assert(!tail.contains(',')) by {
            if tail.contains(',') {
                let i = choose|i: int| 0 <= i < tail.len() && tail[i] == ',';
                assert(i > 0);
                assert(last[i - 1] == ',');
                assert(last.contains(','));
            }
        }
        let text = joined(front);
        assert(joined(rules) =~= text.push(',') + tail);
        lemma_last_piece(text, tail, tail.len() as int);
        assert(tail.take(tail.len() as int) =~= tail);
        assert((text.push(',') + tail).len() == text.len() + 1 + tail.len());
        assert(pieces(text, ',').push(tail) =~= Seq::new(
            rules.len(),
            |i: int| written(rules, i),
        ));
    }
}

proof fn lemma_trim_written(rules: Seq<Seq<char>>, i: int)
    requires
        0 <= i < rules.len(),
        is_writable(rules[i]),
    ensures
        trim(written(rules, i)) == rules[i],
{
    let rule = rules[i];
    assert(trim_front(rule) == rule);
    assert(trim_back(rule) == rule);
    if i > 0 {
        let spaced = seq![' '] + rule;
        assert(spaced.skip(1) =~= rule);
        assert(is_white(spaced[0]));
        assert(trim_front(spaced) == trim_front(spaced.skip(1)));
    }
}

proof fn lemma_rules_read(rules: Seq<Seq<char>>, parts: Seq<Seq<char>>, n: int)
    requires
        0 <= n <= rules.len() == parts.len(),
        parts == Seq::new(rules.len(), |i: int| written(rules, i)),
        forall|i: int| 0 <= i < rules.len() ==> is_writable(#[trigger] rules[i]),
    ensures
        rules_upto(parts, n) == rules.take(n),
    decreases n,
{
    if n > 0 {
        lemma_rules_read(rules, parts, n - 1);
        assert(is_writable(rules[n - 1]));
        lemma_trim_written(rules, n - 1);
        assert(rules.take(n) =~= rules.take(n - 1).push(rules[n - 1]));
    } else {
        assert(rules.take(0) =~= Seq::<Seq<char>>::empty());
    }
}

/// The rules that are offered for editing are the rules of the group: saving
/// the text unchanged saves the same list.
pub proof fn offered_rules_read_back(rules: Seq<Seq<char>>)
    requires
        forall|i: int| 0 <= i < rules.len() ==> is_writable(#[trigger] rules[i]),
    ensures
        rules_in(joined(rules)) == rules,
{
    if rules.len() == 0 {
        let empty = Seq::<char>::empty();
        a_text_without_separators_is_one_piece(empty, ',');
        assert(pieces(empty, ',') == seq![empty]);
        assert(trim(empty) == empty);
        reveal_with_fuel(rules_upto, 2);
        assert(rules_in(joined(rules)) =~= rules);
    } else {
        lemma_joined_pieces(rules);
        lemma_rules_read(rules, pieces(joined(rules), ','), rules.len() as int);
        assert(rules.take(rules.len() as int) =~= rules);
    }
}

/// Every gesture goes the way that its edit goes: none asks for a rebuild that
/// the edit does not need, and none passes one off as a parameter.
pub proof fn gestures_go_the_way_of_their_edits(
    gesture: GroupGestureView,
    g: GroupView,
    groups: Seq<GroupView>,
)
    ensures
        match asked_of_group(gesture, g, groups) {
            ActionView::EditParams(edits) => edits.len() == 1 && path_of(edits[0])
                == EditPath::Param,
            ActionView::EditStructure(edits) => edits.len() == 1 && path_of(edits[0])
                == EditPath::Rebuild,
            ActionView::EditDspChains(edits) => edits.len() == 1 && path_of(edits[0])
                == EditPath::DspChain,
            ActionView::EditSpatial(edits) => edits.len() == 1 && path_of(edits[0])
                == EditPath::Spatial,
            ActionView::SetSolo(_, _) => true,
            _ => false,
        },
{
}

/// The narrowest column: 100, as the bits of the number.
pub const MIN_COLUMN_WIDTH_BITS: u32 = 0x42c8_0000;

/// The widest column: 220.
pub const MAX_COLUMN_WIDTH_BITS: u32 = 0x435c_0000;

/// The shortest fader: 120.
pub const MIN_FADER_HEIGHT_BITS: u32 = 0x42f0_0000;

/// The longest fader: 400.
pub const MAX_FADER_HEIGHT_BITS: u32 = 0x43c8_0000;

/// A number brought between two bounds.
pub open spec fn within(x: Float32, low: Float32, high: Float32) -> Float32 {
    if x.less(low) {
        low
    } else if high.less(x) {
        high
    } else {
        x
    }
}

fn clamp(x: Float32, low: Float32, high: Float32) -> (r: Float32)
    ensures
        r == within(x, low, high),
{
    if x.is_less(low) {
        low
    } else if high.is_less(x) {
        high
    } else {
        x
    }
}

/// A count, or one where there is none.
pub open spec fn one_at_least(n: usize) -> usize {
    if n == 0 {
        1
    } else {
        n
    }
}

/// The width of a column where so many share a row, which are one at least: the
/// row scrolls before columns get too narrow to read. `divide` is the division
/// of a number by a count.
pub fn column_width<F: Fn(Float32, usize) -> Float32>(
    available: Float32,
    column_count: usize,
    divide: &F,
) -> (r: Float32)
    requires
        forall|x: Float32, n: usize| n > 0 ==> call_requires(*divide, (x, n)),
    ensures
        exists|share: Float32|
            {
                &&& #[trigger] call_ensures(*divide, (available, one_at_least(column_count)), share)
                &&& r == within(share, Float32 { bits: 0x42c8_0000 }, Float32 { bits: 0x435c_0000 })
            },
{
    let count: usize = if column_count == 0 {
        1
    } else {
        column_count
    };
    let share = divide(available, count);
    clamp(
        share,
        Float32::from_bits(MIN_COLUMN_WIDTH_BITS),
        Float32::from_bits(MAX_COLUMN_WIDTH_BITS),
    )
}

/// The length of a fader that has so much room.
pub fn fader_height(available: Float32) -> (r: Float32)
    ensures
        r == within(available, Float32 { bits: 0x42f0_0000 }, Float32 { bits: 0x43c8_0000 }),
{
    clamp(
        available,
        Float32::from_bits(MIN_FADER_HEIGHT_BITS),
        Float32::from_bits(MAX_FADER_HEIGHT_BITS),
    )
}

/// An edit is of the group of a name.
pub open spec fn is_of(edit: EditView, name: Seq<char>) -> bool {
    match edit {
        EditView::SetGroupGain(n, _) => n == name,
        EditView::SetFollowMaster(n, _) => n == name,
        EditView::SetGroupMute(n, _) => n == name,
        EditView::SetGroupOutput(n, _) => n == name,
        EditView::RemoveGroup(n) => n == name,
        EditView::SetRules(n, _) => n == name,
        EditView::SetEqBand(n, _, _, _) => n == name,
        EditView::SetLimiterCeiling(n, _) => n == name,
        EditView::SetDuck(n, _) => n == name,
        EditView::SetDspBypass(n, _, _) => n == name,
        EditView::AddDspStage(n, _) => n == name,
        EditView::RemoveDspStage(n, _) => n == name,
        EditView::SetSpatial(n, _) => n == name,
        _ => false,
    }
}

/// A gesture on a group acts on that group and on no other, and sets what was moved
/// to where it was moved.
pub proof fn gestures_act_on_their_group(
    gesture: GroupGestureView,
    g: GroupView,
    groups: Seq<GroupView>,
)
    ensures
        match asked_of_group(gesture, g, groups) {
            ActionView::EditParams(edits) => edits.len() == 1 && is_of(edits[0], g.name)
                && match (gesture, edits[0]) {
                (GroupGestureView::Fader(a), EditView::SetGroupGain(_, b)) => a == b,
                (GroupGestureView::Mute, EditView::SetGroupMute(_, b)) => b != g.muted,
                (GroupGestureView::FollowMaster(a), EditView::SetFollowMaster(_, b)) => a == b,
                (GroupGestureView::SaveRules(_), EditView::SetRules(_, _)) => true,
                (GroupGestureView::Band { stage, spec }, EditView::SetEqBand(_, s, band, b)) => s
                    == stage && band == 0 && b == spec,
                (GroupGestureView::Ceiling(a), EditView::SetLimiterCeiling(_, b)) => a == b,
                (GroupGestureView::Bypass { stage, on }, EditView::SetDspBypass(_, s, b)) => s
                    == stage && b == on,
                (GroupGestureView::DuckSwitched(on), EditView::SetDuck(_, duck)) => duck is Some
                    == on && (on && g.duck is Some ==> duck == g.duck),
                (GroupGestureView::DuckMoved(a), EditView::SetDuck(_, b)) => b == Some(a),
                _ => false,
            },
            ActionView::EditStructure(edits) => edits.len() == 1 && is_of(edits[0], g.name)
                && match (gesture, edits[0]) {
                (GroupGestureView::Output(a), EditView::SetGroupOutput(_, b)) => a == b,
                (GroupGestureView::Remove, EditView::RemoveGroup(_)) => true,
                _ => false,
            },
            ActionView::EditDspChains(edits) => edits.len() == 1 && is_of(edits[0], g.name)
                && match (gesture, edits[0]) {
                (GroupGestureView::RemoveStage(a), EditView::RemoveDspStage(_, b)) => a == b,
                (GroupGestureView::AddEq, EditView::AddDspStage(_, spec)) => spec is Eq
                    && spec->bands.len() == 1,
                (GroupGestureView::AddLimiter, EditView::AddDspStage(_, spec)) => spec is Limiter,
                _ => false,
            },
            ActionView::EditSpatial(edits) => edits.len() == 1 && is_of(edits[0], g.name)
                && match (gesture, edits[0]) {
                (GroupGestureView::Spatial(a), EditView::SetSpatial(_, b)) => a == b,
                _ => false,
            },
            ActionView::SetSolo(name, on) => gesture == (GroupGestureView::Solo { soloed: !on })
                && name == g.name,
            _ => false,
        },
{
}

/// The ducking that a group starts with is never under the group itself, and is
/// under some group wherever there is another.
pub proof fn a_group_never_starts_ducking_under_itself(
    groups: Seq<GroupView>,
    name: Seq<char>,
    other: int,
)
    requires
        0 <= other < groups.len(),
        groups[other].name != name,
    ensures
        first_duck(groups, name).trigger != name,
        exists|i: int|
            0 <= i <= other && (#[trigger] groups[i]).name == first_duck(groups, name).trigger,
{
    lemma_other_group(groups, name, 0, other);
}

proof fn lemma_other_group(groups: Seq<GroupView>, name: Seq<char>, from: int, other: int)
    requires
        0 <= from <= other < groups.len(),
        groups[other].name != name,
    ensures
        other_group_from(groups, name, from) matches Some(i) && from <= i <= other
            && groups[i].name != name,
    decreases other - from,
{
    if groups[from].name == name {
        lemma_other_group(groups, name, from + 1, other);
    }
}

/// A number brought between two bounds lies between them, and one that lies there
/// stays as it is.
pub proof fn a_bounded_number_is_within_its_bounds(x: Float32, low: Float32, high: Float32)
    requires
        !x.nan(),
        low.at_most(high),
    ensures
        low.at_most(within(x, low, high)),
        within(x, low, high).at_most(high),
        low.at_most(x) && x.at_most(high) ==> within(x, low, high) == x,
{
}

} // verus!
