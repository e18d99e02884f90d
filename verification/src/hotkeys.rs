//! Chords and what they do.
use crate::action::{ActionView, ShellAction, VOLUME_STEP_DB_BITS, VOLUME_STEP_DOWN_DB_BITS};
use crate::chord::{is_key_char, HotkeyChord, HotkeyKey};
use crate::float::Float32;
use crate::model::{
    ConfigSnapshot, GroupConfig, GroupView, HotkeyMap, ProfileConfig, ProfileView, SnapshotView,
};
use crate::shell::{TargetView, VolumeTarget};
use crate::text::{chars_of, text_of};
use global_hotkey::hotkey::{Code, HotKey, Modifiers};
use vstd::prelude::*;
use vstd::seq_lib::lemma_seq_concat_contains_all_elements;

verus! {

/// What a chord does once pressed.
#[derive(Debug, Clone)]
pub enum HotkeyAction {
    ToggleMasterMute,
    /// Holds while pressed; the only action that a release means anything to.
    PushToMuteMaster,
    VolumeUp(VolumeTarget),
    VolumeDown(VolumeTarget),
    ToggleGroupMute(String),
    ApplyProfile(String),
}

/// What a [`HotkeyAction`] says.
pub enum HotkeyActionView {
    ToggleMasterMute,
    PushToMuteMaster,
    VolumeUp(TargetView),
    VolumeDown(TargetView),
    ToggleGroupMute(Seq<char>),
    ApplyProfile(Seq<char>),
}

impl DeepView for HotkeyAction {
    type V = HotkeyActionView;

    open spec fn deep_view(&self) -> HotkeyActionView {
        match self {
            HotkeyAction::ToggleMasterMute => HotkeyActionView::ToggleMasterMute,
            HotkeyAction::PushToMuteMaster => HotkeyActionView::PushToMuteMaster,
            HotkeyAction::VolumeUp(target) => HotkeyActionView::VolumeUp(target.deep_view()),
            HotkeyAction::VolumeDown(target) => HotkeyActionView::VolumeDown(target.deep_view()),
            HotkeyAction::ToggleGroupMute(name) => HotkeyActionView::ToggleGroupMute(name@),
            HotkeyAction::ApplyProfile(name) => HotkeyActionView::ApplyProfile(name@),
        }
    }
}

impl HotkeyAction {
    pub fn copy(&self) -> (r: HotkeyAction)
        ensures
            r.deep_view() == self.deep_view(),
    {
        match self {
            HotkeyAction::ToggleMasterMute => HotkeyAction::ToggleMasterMute,
            HotkeyAction::PushToMuteMaster => HotkeyAction::PushToMuteMaster,
            HotkeyAction::VolumeUp(target) => HotkeyAction::VolumeUp(target.copy()),
            HotkeyAction::VolumeDown(target) => HotkeyAction::VolumeDown(target.copy()),
            HotkeyAction::ToggleGroupMute(name) => HotkeyAction::ToggleGroupMute(name.clone()),
            HotkeyAction::ApplyProfile(name) => HotkeyAction::ApplyProfile(name.clone()),
        }
    }
}

/// A chord with what it does.
#[derive(Debug)]
pub struct HotkeyBinding {
    pub chord: HotkeyChord,
    pub action: HotkeyAction,
}

/// What a [`HotkeyBinding`] holds.
pub struct BindingView {
    pub chord: HotkeyChord,
    pub action: HotkeyActionView,
}

impl DeepView for HotkeyBinding {
    type V = BindingView;

    open spec fn deep_view(&self) -> BindingView {
        BindingView { chord: self.chord, action: self.action.deep_view() }
    }
}

/// The binding where there is a chord, else nothing.
pub open spec fn bind(chord: Option<HotkeyChord>, action: HotkeyActionView) -> Seq<BindingView> {
    match chord {
        Some(chord) => seq![BindingView { chord, action }],
        None => Seq::empty(),
    }
}

/// The bindings of the master.
pub open spec fn master_bindings(map: HotkeyMap) -> Seq<BindingView> {
    bind(map.mute_master, HotkeyActionView::ToggleMasterMute) + bind(
        map.push_to_mute,
        HotkeyActionView::PushToMuteMaster,
    ) + bind(map.master_volume_up, HotkeyActionView::VolumeUp(TargetView::Master)) + bind(
        map.master_volume_down,
        HotkeyActionView::VolumeDown(TargetView::Master),
    )
}

/// The bindings of the first `n` profiles.
pub open spec fn profile_bindings(profiles: Seq<ProfileView>, n: int) -> Seq<BindingView>
    decreases n,
{
    if n <= 0 {
        Seq::empty()
    } else {
        profile_bindings(profiles, n - 1) + bind(
            profiles[n - 1].hotkey,
            HotkeyActionView::ApplyProfile(profiles[n - 1].name),
        )
    }
}

/// The bindings of one group.
pub open spec fn bindings_of_group(g: GroupView) -> Seq<BindingView> {
    bind(g.hotkey_mute, HotkeyActionView::ToggleGroupMute(g.name)) + bind(
        g.hotkey_volume_up,
        HotkeyActionView::VolumeUp(TargetView::Group(g.name)),
    ) + bind(g.hotkey_volume_down, HotkeyActionView::VolumeDown(TargetView::Group(g.name)))
}

/// The bindings of the first `n` groups.
pub open spec fn group_bindings(groups: Seq<GroupView>, n: int) -> Seq<BindingView>
    decreases n,
{
    if n <= 0 {
        Seq::empty()
    } else {
        group_bindings(groups, n - 1) + bindings_of_group(groups[n - 1])
    }
}

/// Every chord that a configuration binds: the master's, the profiles', the
/// groups'.
pub open spec fn all_bindings(s: SnapshotView) -> Seq<BindingView> {
    master_bindings(s.app.hotkeys) + profile_bindings(s.profiles, s.profiles.len() as int)
        + group_bindings(s.groups, s.groups.len() as int)
}

fn push_binding(
    bindings: &mut Vec<HotkeyBinding>,
    chord: Option<HotkeyChord>,
    action: HotkeyAction,
)
    ensures
        final(bindings).deep_view() == old(bindings).deep_view() + bind(chord, action.deep_view()),
{
    match chord {
        Some(chord) => {
            bindings.push(HotkeyBinding { chord, action });
        },
        None => {},
    }
    assert(bindings.deep_view() =~= old(bindings).deep_view() + bind(chord, action.deep_view()));
}

fn push_group_bindings(bindings: &mut Vec<HotkeyBinding>, g: &GroupConfig)
    ensures
        final(bindings).deep_view() == old(bindings).deep_view() + bindings_of_group(g.deep_view()),
{
    let ghost before = bindings.deep_view();
    push_binding(bindings, g.hotkey_mute, HotkeyAction::ToggleGroupMute(g.name.clone()));
    push_binding(
        bindings,
        g.hotkey_volume_up,
        HotkeyAction::VolumeUp(VolumeTarget::Group(g.name.clone())),
    );
    push_binding(
        bindings,
        g.hotkey_volume_down,
        HotkeyAction::VolumeDown(VolumeTarget::Group(g.name.clone())),
    );
    assert(bindings.deep_view() =~= before + bindings_of_group(g.deep_view()));
}

/// Every chord that the configuration binds, as one list.
pub fn build_hotkey_bindings(snapshot: &ConfigSnapshot) -> (r: Vec<HotkeyBinding>)
    ensures
        r.deep_view() == all_bindings(snapshot.deep_view()),
{
    let mut bindings: Vec<HotkeyBinding> = Vec::new();
    assert(bindings.deep_view() =~= Seq::empty());
    let hk: HotkeyMap = snapshot.app.hotkeys;
    push_binding(&mut bindings, hk.mute_master, HotkeyAction::ToggleMasterMute);
    push_binding(&mut bindings, hk.push_to_mute, HotkeyAction::PushToMuteMaster);
    push_binding(
        &mut bindings,
        hk.master_volume_up,
        HotkeyAction::VolumeUp(VolumeTarget::Master),
    );
    push_binding(
        &mut bindings,
        hk.master_volume_down,
        HotkeyAction::VolumeDown(VolumeTarget::Master),
    );
    let ghost master = master_bindings(hk);
    assert(bindings.deep_view() =~= master);
    let profiles: &Vec<ProfileConfig> = &snapshot.profiles;
    let mut i: usize = 0;
    assert(bindings.deep_view() =~= master + profile_bindings(profiles.deep_view(), 0));
    while i < profiles.len()
        invariant
            i <= profiles.len(),
            bindings.deep_view() == master + profile_bindings(profiles.deep_view(), i as int),
        decreases profiles.len() - i,
    {
        assert(profiles.deep_view()[i as int] == profiles@[i as int].deep_view());
        push_binding(
            &mut bindings,
            profiles[i].hotkey,
            HotkeyAction::ApplyProfile(profiles[i].name.clone()),
        );
        i = i + 1;
        assert(bindings.deep_view() =~= master + profile_bindings(profiles.deep_view(), i as int));
    }
    let ghost head = bindings.deep_view();
    let groups: &Vec<GroupConfig> = &snapshot.groups;
    i = 0;
    assert(bindings.deep_view() =~= head + group_bindings(groups.deep_view(), 0));
    while i < groups.len()
        invariant
            i <= groups.len(),
            bindings.deep_view() == head + group_bindings(groups.deep_view(), i as int),
        decreases groups.len() - i,
    {
        assert(groups.deep_view()[i as int] == groups@[i as int].deep_view());
        push_group_bindings(&mut bindings, &groups[i]);
        i = i + 1;
        assert(bindings.deep_view() =~= head + group_bindings(groups.deep_view(), i as int));
    }
    bindings
}

/// Whether a key went down or came up.
#[derive(Debug, Clone, Copy, PartialEq, Eq, Structural)]
pub enum HotKeyState {
    Pressed,
    Released,
}

/// What a press or release of a bound chord asks for.
pub open spec fn asked_for(action: HotkeyActionView, state: HotKeyState) -> Option<ActionView> {
    match (action, state) {
        (HotkeyActionView::PushToMuteMaster, _) => Some(
            ActionView::PushToMute(state == HotKeyState::Pressed),
        ),
        (_, HotKeyState::Released) => None,
        (HotkeyActionView::ToggleMasterMute, _) => Some(ActionView::ToggleMute),
        (HotkeyActionView::ToggleGroupMute(name), _) => Some(ActionView::ToggleGroupMute(name)),
        (HotkeyActionView::ApplyProfile(name), _) => Some(ActionView::ApplyProfile(name)),
        (HotkeyActionView::VolumeUp(target), _) => Some(
            ActionView::VolumeStep { target, delta_db: Float32 { bits: 0x4040_0000 } },
        ),
        (HotkeyActionView::VolumeDown(target), _) => Some(
            ActionView::VolumeStep { target, delta_db: Float32 { bits: 0xc040_0000 } },
        ),
    }
}

/// What a press or release of a bound chord asks for. Every binding but
/// push-to-mute ignores the release.
pub fn to_shell_action(action: &HotkeyAction, state: HotKeyState) -> (r: Option<ShellAction>)
    ensures
        r.deep_view() == asked_for(action.deep_view(), state),
{
    match action {
        HotkeyAction::PushToMuteMaster => Some(
            ShellAction::PushToMute(state == HotKeyState::Pressed),
        ),
        _ => {
            if state == HotKeyState::Released {
                return None;
            }
            match action {
                HotkeyAction::ToggleMasterMute => Some(ShellAction::ToggleMute),
                HotkeyAction::ToggleGroupMute(name) => Some(
                    ShellAction::ToggleGroupMute(name.clone()),
                ),
                HotkeyAction::ApplyProfile(name) => Some(ShellAction::ApplyProfile(name.clone())),
                HotkeyAction::VolumeUp(target) => Some(
                    ShellAction::VolumeStep {
                        target: target.copy(),
                        delta_db: Float32 { bits: VOLUME_STEP_DB_BITS },
                    },
                ),
                HotkeyAction::VolumeDown(target) => Some(
                    ShellAction::VolumeStep {
                        target: target.copy(),
                        delta_db: Float32 { bits: VOLUME_STEP_DOWN_DB_BITS },
                    },
                ),
                HotkeyAction::PushToMuteMaster => None,
            }
        },
    }
}

/// A physical key.
#[derive(Debug, Clone, Copy, PartialEq, Eq, Structural)]
pub enum KeyCode {
    Space,
    ArrowUp,
    ArrowDown,
    /// A letter key, counted from A.
    Letter(u8),
    /// A digit key.
    Digit(u8),
}

/// The physical key of a chord's key, where it has one.
pub open spec fn code_of(key: HotkeyKey) -> Option<KeyCode> {
    match key {
        HotkeyKey::Space => Some(KeyCode::Space),
        HotkeyKey::Up => Some(KeyCode::ArrowUp),
        HotkeyKey::Down => Some(KeyCode::ArrowDown),
        HotkeyKey::Char(c) => if 'A' <= c <= 'Z' {
            Some(KeyCode::Letter((c as int - 'A' as int) as u8))
        } else if '0' <= c <= '9' {
            Some(KeyCode::Digit((c as int - '0' as int) as u8))
        } else {
            None
        },
    }
}

pub fn key_code(key: HotkeyKey) -> (r: Option<KeyCode>)
    ensures
        r == code_of(key),
{
    match key {
        HotkeyKey::Space => Some(KeyCode::Space),
        HotkeyKey::Up => Some(KeyCode::ArrowUp),
        HotkeyKey::Down => Some(KeyCode::ArrowDown),
        HotkeyKey::Char(c) => {
            if 'A' <= c && c <= 'Z' {
                Some(KeyCode::Letter((c as u32 - 65) as u8))
            } else if '0' <= c && c <= '9' {
                Some(KeyCode::Digit((c as u32 - 48) as u8))
            } else {
                None
            }
        },
    }
}

/// A chord as it can be registered with the system.
#[derive(Debug, Clone, Copy, PartialEq, Eq, Structural)]
pub struct HotkeyCombo {
    pub ctrl: bool,
    pub alt: bool,
    pub shift: bool,
    pub code: KeyCode,
}

impl DeepView for HotkeyCombo {
    type V = HotkeyCombo;

    open spec fn deep_view(&self) -> HotkeyCombo {
        *self
    }
}

/// The chord with its physical key.
pub open spec fn combo_of(chord: HotkeyChord) -> Option<HotkeyCombo> {
    match code_of(chord.key) {
        Some(code) => Some(
            HotkeyCombo { ctrl: chord.ctrl, alt: chord.alt, shift: chord.shift, code },
        ),
        None => None,
    }
}

/// The chord as it can be registered; none where its key has no code.
pub fn to_global_hotkey(chord: HotkeyChord) -> (r: Option<HotkeyCombo>)
    ensures
        r == combo_of(chord),
        r matches Some(combo) ==> exists_as_key(combo.code),
{
    match key_code(chord.key) {
        Some(code) => Some(
            HotkeyCombo { ctrl: chord.ctrl, alt: chord.alt, shift: chord.shift, code },
        ),
        None => None,
    }
}

/// The name of a physical key in the UI Events specification.
pub open spec fn name_of(code: KeyCode) -> Seq<char> {
    match code {
        KeyCode::Space => "Space"@,
        KeyCode::ArrowUp => "ArrowUp"@,
        KeyCode::ArrowDown => "ArrowDown"@,
        KeyCode::Letter(n) => "Key"@.push((65 + n) as char),
        KeyCode::Digit(n) => "Digit"@.push((48 + n) as char),
    }
}

/// A key that exists: one of the named ones, A to Z or 0 to 9.
pub open spec fn exists_as_key(code: KeyCode) -> bool {
    match code {
        KeyCode::Letter(n) => n < 26,
        KeyCode::Digit(n) => n < 10,
        _ => true,
    }
}

/// The number that `global_hotkey::hotkey::Code` has for the physical key of a
/// name, where it knows one.
pub uninterp spec fn code_number(name: Seq<char>) -> Option<u16>;

/// The bits of `global_hotkey::hotkey::Modifiers` for held keys.
pub open spec fn modifier_bits(ctrl: bool, alt: bool, shift: bool) -> int {
    (if alt {
        0x1int
    } else {
        0
    }) + (if ctrl {
        0x8int
    } else {
        0
    }) + (if shift {
        0x200int
    } else {
        0
    })
}

/// `global_hotkey::hotkey::HotKey::new` and its `id`: the number by which the
/// system reports a chord. It has the modifiers above 16 bits for the key,
/// whose number is known here by its name, [`code_number`]. The letters, the
/// digits, the space bar and the arrows are keys that it knows; of other names
/// nothing is claimed.
#[verifier::external_body]
fn hotkey_id(ctrl: bool, alt: bool, shift: bool, name: &str) -> (r: Option<u32>)
    ensures
        r == match code_number(name@) {
            Some(n) => Some((modifier_bits(ctrl, alt, shift) * 0x1_0000 + n) as u32),
            None => None,
        },
        (exists|code: KeyCode| exists_as_key(code) && name@ == #[trigger] name_of(code)) ==> r
            is Some,
{
    let mut mods = Modifiers::empty();
    mods.set(Modifiers::CONTROL, ctrl);
    mods.set(Modifiers::ALT, alt);
    mods.set(Modifiers::SHIFT, shift);
    match name.parse::<Code>() {
        Ok(code) => Some(HotKey::new(Some(mods), code).id()),
        Err(_) => None,
    }
}

/// The name of a physical key in the UI Events specification.
pub fn key_name(code: KeyCode) -> (r: String)
    requires
        exists_as_key(code),
    ensures
        r@ == name_of(code),
{
    match code {
        KeyCode::Space => "Space".to_owned(),
        KeyCode::ArrowUp => "ArrowUp".to_owned(),
        KeyCode::ArrowDown => "ArrowDown".to_owned(),
        KeyCode::Letter(n) => {
            let mut chars = chars_of("Key");
            chars.push((65u8 + n) as char);
            text_of(chars.as_slice())
        },
        KeyCode::Digit(n) => {
            let mut chars = chars_of("Digit");
            chars.push((48u8 + n) as char);
            text_of(chars.as_slice())
        },
    }
}

/// The number by which the system reports a chord.
pub open spec fn id_of(combo: HotkeyCombo) -> u32 {
    (modifier_bits(combo.ctrl, combo.alt, combo.shift) * 0x1_0000 + code_number(
        name_of(combo.code),
    )->0) as u32
}

/// The number by which the system reports a chord.
pub fn combo_id(combo: HotkeyCombo) -> (r: u32)
    requires
        exists_as_key(combo.code),
    ensures
        r == id_of(combo),
        code_number(name_of(combo.code)) is Some,
{
    let name = key_name(combo.code);
    assert(exists_as_key(combo.code) && name@ == name_of(combo.code));
    match hotkey_id(combo.ctrl, combo.alt, combo.shift, name.as_str()) {
        Some(id) => id,
        None => 0,
    }
}

/// A chord that is registered: its number, its keys and what it does.
#[derive(Debug)]
pub struct HotkeyEntry {
    pub id: u32,
    pub combo: HotkeyCombo,
    pub action: HotkeyAction,
}

/// What a [`HotkeyEntry`] holds.
pub struct EntryView {
    pub id: u32,
    pub combo: HotkeyCombo,
    pub action: HotkeyActionView,
}

impl DeepView for HotkeyEntry {
    type V = EntryView;

    open spec fn deep_view(&self) -> EntryView {
        EntryView { id: self.id, combo: self.combo, action: self.action.deep_view() }
    }
}

/// The first `n` bindings without those whose chord cannot be registered.
pub open spec fn registrable_upto(bindings: Seq<BindingView>, n: int) -> Seq<EntryView>
    decreases n,
{
    if n <= 0 {
        Seq::empty()
    } else {
        match combo_of(bindings[n - 1].chord) {
            Some(combo) => registrable_upto(bindings, n - 1).push(
                EntryView { id: id_of(combo), combo, action: bindings[n - 1].action },
            ),
            None => registrable_upto(bindings, n - 1),
        }
    }
}

/// The bindings that can be registered. One that cannot never keeps the others
/// back.
pub fn registrable(bindings: &Vec<HotkeyBinding>) -> (r: Vec<HotkeyEntry>)
    ensures
        r.deep_view() == registrable_upto(bindings.deep_view(), bindings@.len() as int),
{
    let mut out: Vec<HotkeyEntry> = Vec::new();
    assert(out.deep_view() =~= Seq::empty());
    let mut i: usize = 0;
    while i < bindings.len()
        invariant
            i <= bindings.len(),
            out.deep_view() == registrable_upto(bindings.deep_view(), i as int),
        decreases bindings.len() - i,
    {
        let ghost before = out.deep_view();
        assert(bindings.deep_view()[i as int] == bindings@[i as int].deep_view());
        match to_global_hotkey(bindings[i].chord) {
            Some(combo) => {
                let action = bindings[i].action.copy();
                let entry = HotkeyEntry { id: combo_id(combo), combo, action };
                let ghost view = entry.deep_view();
                out.push(entry);
                assert(out.deep_view() =~= before.push(view));
            },
            None => {},
        }
        i = i + 1;
    }
    out
}

/// The first entry with a number, from `from` on.
pub open spec fn entry_from(entries: Seq<EntryView>, id: u32, from: int) -> Option<int>
    decreases entries.len() - from,
{
    if from < 0 || from >= entries.len() {
        None
    } else if entries[from].id == id {
        Some(from)
    } else {
        entry_from(entries, id, from + 1)
    }
}

/// What a chord that the system reports asks for. One that nobody registered
/// asks for nothing.
pub fn hotkey_heard(entries: &Vec<HotkeyEntry>, id: u32, state: HotKeyState) -> (r: Option<
    ShellAction,
>)
    ensures
        r.deep_view() == match entry_from(entries.deep_view(), id, 0) {
            None => None,
            Some(i) => asked_for(entries.deep_view()[i].action, state),
        },
{
    let mut i: usize = 0;
    while i < entries.len()
        invariant
            i <= entries@.len(),
            entry_from(entries.deep_view(), id, 0) == entry_from(
                entries.deep_view(),
                id,
                i as int,
            ),
        decreases entries@.len() - i,
    {
        assert(entries.deep_view()[i as int] == entries@[i as int].deep_view());
        if entries[i].id == id {
            return to_shell_action(&entries[i].action, state);
        }
        i = i + 1;
    }
    None
}

/// Chords with different modifiers are never reported under one number.
pub proof fn modifiers_tell_chords_apart(a: HotkeyCombo, b: HotkeyCombo)
    requires
        id_of(a) == id_of(b),
    ensures
        a.ctrl == b.ctrl,
        a.alt == b.alt,
        a.shift == b.shift,
{
}

/// A chord that can be written can be registered, and no other.
pub proof fn written_keys_have_codes(key: HotkeyKey)
    ensures
        code_of(key) is Some <==> (key matches HotkeyKey::Char(c) ==> is_key_char(c)),
{
}

/// Only push-to-mute reacts to a release.
pub proof fn only_push_to_mute_hears_a_release(action: HotkeyActionView)
    ensures
        asked_for(action, HotKeyState::Released) is Some <==> action is PushToMuteMaster,
{
}

proof fn lemma_bound(chord: Option<HotkeyChord>, action: HotkeyActionView, b: BindingView)
    ensures
        bind(chord, action).contains(b) <==> chord == Some(b.chord) && b.action == action,
{
    if let Some(c) = chord {
        assert(bind(chord, action)[0] == (BindingView { chord: c, action }));
    }
}

/// One of the first `n` profiles has a chord.
pub open spec fn profile_has(
    profiles: Seq<ProfileView>,
    n: int,
    name: Seq<char>,
    chord: HotkeyChord,
) -> bool {
    exists|i: int|
        0 <= i < n && (#[trigger] profiles[i]).name == name && profiles[i].hotkey == Some(chord)
}

/// A group has a chord for an action on it.
pub open spec fn group_has(g: GroupView, b: BindingView) -> bool {
    match b.action {
        HotkeyActionView::ToggleGroupMute(name) => name == g.name && g.hotkey_mute == Some(b.chord),
        HotkeyActionView::VolumeUp(TargetView::Group(name)) => name == g.name && g.hotkey_volume_up
            == Some(b.chord),
        HotkeyActionView::VolumeDown(TargetView::Group(name)) => name == g.name
            && g.hotkey_volume_down == Some(b.chord),
        _ => false,
    }
}

/// One of the first `n` groups has a chord for an action on it.
pub open spec fn some_group_has(groups: Seq<GroupView>, n: int, b: BindingView) -> bool {
    exists|i: int| 0 <= i < n && group_has(#[trigger] groups[i], b)
}

proof fn lemma_profiles_bound(profiles: Seq<ProfileView>, n: int, b: BindingView)
    requires
        0 <= n <= profiles.len(),
    ensures
        profile_bindings(profiles, n).contains(b) <==> (b.action matches HotkeyActionView::ApplyProfile(
            name,
        ) && profile_has(profiles, n, name, b.chord)),
    decreases n,
{
    if n > 0 {
        lemma_profiles_bound(profiles, n - 1, b);
        let p = profiles[n - 1];
        lemma_bound(p.hotkey, HotkeyActionView::ApplyProfile(p.name), b);
        lemma_seq_concat_contains_all_elements(
            profile_bindings(profiles, n - 1),
            bind(p.hotkey, HotkeyActionView::ApplyProfile(p.name)),
            b,
        );
        if let HotkeyActionView::ApplyProfile(name) = b.action {
            if profile_has(profiles, n - 1, name, b.chord) {
                let i = choose|i: int|
                    0 <= i < n - 1 && (#[trigger] profiles[i]).name == name && profiles[i].hotkey
                        == Some(b.chord);
                assert(profiles[i].name == name);
            }
        }
    }
}

proof fn lemma_group_bound(g: GroupView, b: BindingView)
    ensures
        bindings_of_group(g).contains(b) <==> group_has(g, b),
{
    let mute = bind(g.hotkey_mute, HotkeyActionView::ToggleGroupMute(g.name));
    let up = bind(g.hotkey_volume_up, HotkeyActionView::VolumeUp(TargetView::Group(g.name)));
    let down = bind(g.hotkey_volume_down, HotkeyActionView::VolumeDown(TargetView::Group(g.name)));
    lemma_bound(g.hotkey_mute, HotkeyActionView::ToggleGroupMute(g.name), b);
    lemma_bound(g.hotkey_volume_up, HotkeyActionView::VolumeUp(TargetView::Group(g.name)), b);
    lemma_bound(g.hotkey_volume_down, HotkeyActionView::VolumeDown(TargetView::Group(g.name)), b);
    lemma_seq_concat_contains_all_elements(mute, up, b);
    lemma_seq_concat_contains_all_elements(mute + up, down, b);
}

proof fn lemma_groups_bound(groups: Seq<GroupView>, n: int, b: BindingView)
    requires
        0 <= n <= groups.len(),
    ensures
        group_bindings(groups, n).contains(b) <==> some_group_has(groups, n, b),
    decreases n,
{
    if n > 0 {
        lemma_groups_bound(groups, n - 1, b);
        lemma_group_bound(groups[n - 1], b);
        lemma_seq_concat_contains_all_elements(
            group_bindings(groups, n - 1),
            bindings_of_group(groups[n - 1]),
            b,
        );
        if some_group_has(groups, n - 1, b) {
            let i = choose|i: int| 0 <= i < n - 1 && group_has(#[trigger] groups[i], b);
            assert(group_has(groups[i], b));
        }
    }
}

/// A chord is bound to what it is configured for: each of the master's, each
/// profile's and each group's to its own action, and none to anything else.
pub proof fn chords_do_what_they_are_configured_for(s: SnapshotView, b: BindingView)
    ensures
        all_bindings(s).contains(b) <==> match b.action {
            HotkeyActionView::ToggleMasterMute => s.app.hotkeys.mute_master == Some(b.chord),
            HotkeyActionView::PushToMuteMaster => s.app.hotkeys.push_to_mute == Some(b.chord),
            HotkeyActionView::VolumeUp(TargetView::Master) => s.app.hotkeys.master_volume_up
                == Some(b.chord),
            HotkeyActionView::VolumeDown(TargetView::Master) => s.app.hotkeys.master_volume_down
                == Some(b.chord),
            HotkeyActionView::ApplyProfile(name) => profile_has(
                s.profiles,
                s.profiles.len() as int,
                name,
                b.chord,
            ),
            _ => some_group_has(s.groups, s.groups.len() as int, b),
        },
{
    let map = s.app.hotkeys;
    let n = s.profiles.len() as int;
    let m = s.groups.len() as int;
    let mute = bind(map.mute_master, HotkeyActionView::ToggleMasterMute);
    let push = bind(map.push_to_mute, HotkeyActionView::PushToMuteMaster);
    let up = bind(map.master_volume_up, HotkeyActionView::VolumeUp(TargetView::Master));
    let down = bind(map.master_volume_down, HotkeyActionView::VolumeDown(TargetView::Master));
    lemma_bound(map.mute_master, HotkeyActionView::ToggleMasterMute, b);
    lemma_bound(map.push_to_mute, HotkeyActionView::PushToMuteMaster, b);
    lemma_bound(map.master_volume_up, HotkeyActionView::VolumeUp(TargetView::Master), b);
    lemma_bound(map.master_volume_down, HotkeyActionView::VolumeDown(TargetView::Master), b);
    lemma_seq_concat_contains_all_elements(mute, push, b);
    lemma_seq_concat_contains_all_elements(mute + push, up, b);
    lemma_seq_concat_contains_all_elements(mute + push + up, down, b);
    lemma_profiles_bound(s.profiles, n, b);
    lemma_groups_bound(s.groups, m, b);
    lemma_seq_concat_contains_all_elements(master_bindings(map), profile_bindings(s.profiles, n), b);
    lemma_seq_concat_contains_all_elements(
        master_bindings(map) + profile_bindings(s.profiles, n),
        group_bindings(s.groups, m),
        b,
    );
}

/// A chord that is held to mute mutes while it is down. Any other acts once, when
/// it goes down, on what it is bound to: a key for louder asks for more decibels
/// than none, and the one for quieter for as many fewer.
pub proof fn a_press_acts_on_what_it_is_bound_to(action: HotkeyActionView, state: HotKeyState)
    ensures
        match (action, asked_for(action, state)) {
            (HotkeyActionView::PushToMuteMaster, Some(ActionView::PushToMute(held))) => held == (
            state == HotKeyState::Pressed),
            (HotkeyActionView::ToggleMasterMute, Some(ActionView::ToggleMute)) => state
                == HotKeyState::Pressed,
            (
                HotkeyActionView::ToggleGroupMute(name),
                Some(ActionView::ToggleGroupMute(other)),
            ) => name == other && state == HotKeyState::Pressed,
            (HotkeyActionView::ApplyProfile(name), Some(ActionView::ApplyProfile(other))) => name
                == other && state == HotKeyState::Pressed,
            (
                HotkeyActionView::VolumeUp(target),
                Some(ActionView::VolumeStep { target: other, delta_db }),
            ) => target == other && state == HotKeyState::Pressed && (Float32 { bits: 0 }).less(
                delta_db,
            ) && asked_for(HotkeyActionView::VolumeDown(target), state) == Some(
                ActionView::VolumeStep { target, delta_db: delta_db.opposite() },
            ),
            (
                HotkeyActionView::VolumeDown(target),
                Some(ActionView::VolumeStep { target: other, delta_db }),
            ) => target == other && state == HotKeyState::Pressed && delta_db.less(
                Float32 { bits: 0 },
            ),
            (_, Some(_)) => false,
            (_, None) => state == HotKeyState::Released && !(action is PushToMuteMaster),
        },
{
}

} // verus!
