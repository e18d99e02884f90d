//! The configuration: groups of applications, the profiles saved from them,
//! and the settings of the shell.
//!
//! Every type has a view that holds its contents as values: texts as
//! character sequences, lists as sequences. Contracts speak of the views.
use crate::dsp::{DspSpec, DspSpecView};
use crate::float::Float32;
use crate::chord::HotkeyChord;
use crate::sample::Gain;
use crate::text::{copy_option, copy_texts, same_option, same_texts};
use vstd::prelude::*;

verus! {

/// Light and dark palettes, or whatever the system uses.
#[derive(Debug, Clone, Copy, PartialEq, Eq, Structural)]
pub enum ThemeChoice {
    Dark,
    Light,
    System,
}

impl Default for ThemeChoice {
    fn default() -> (r: ThemeChoice)
        ensures
            r == ThemeChoice::System,
    {
        ThemeChoice::System
    }
}

/// The accent colour of the settings window and the tray mark.
#[derive(Debug, Clone, Copy, PartialEq, Eq, Structural)]
pub enum AccentChoice {
    Brand,
    Teal,
    Amber,
    Violet,
    Slate,
}

impl Default for AccentChoice {
    fn default() -> (r: AccentChoice)
        ensures
            r == AccentChoice::Brand,
    {
        AccentChoice::Brand
    }
}

/// The chords that act on the master.
#[derive(Debug, Clone, Copy, PartialEq)]
pub struct HotkeyMap {
    pub mute_master: Option<HotkeyChord>,
    pub push_to_mute: Option<HotkeyChord>,
    pub master_volume_up: Option<HotkeyChord>,
    pub master_volume_down: Option<HotkeyChord>,
}

/// A stage of a group's chain, with its bypass switch.
#[derive(Debug, PartialEq)]
pub struct DspStageConfig {
    pub spec: DspSpec,
    pub bypassed: bool,
}

/// What a [`DspStageConfig`] holds.
pub struct DspStageView {
    pub spec: DspSpecView,
    pub bypassed: bool,
}

impl DeepView for DspStageConfig {
    type V = DspStageView;

    open spec fn deep_view(&self) -> DspStageView {
        DspStageView {
            spec: self.spec.deep_view(),
            bypassed: self.bypassed,
        }
    }
}

impl Clone for DspStageConfig {
    fn clone(&self) -> (r: DspStageConfig)
        ensures
            r.deep_view() == self.deep_view(),
    {
        DspStageConfig {
            spec: self.spec.clone(),
            bypassed: self.bypassed,
        }
    }
}

impl DspStageView {
    /// Field-wise equality, with numbers compared as numbers.
    pub open spec fn equals(self, other: DspStageView) -> bool {
        &&& self.spec.equals(other.spec)
        &&& self.bypassed == other.bypassed
    }
}

impl DspStageConfig {
    /// Field-wise equality, with numbers compared as numbers.
    pub fn same(&self, other: &DspStageConfig) -> (r: bool)
        ensures
            r == self.deep_view().equals(other.deep_view()),
    {
        self.spec.same(&other.spec)
            && self.bypassed == other.bypassed
    }
}

/// Whether two lists of stages are equal, one by one.
pub open spec fn stages_equal(a: Seq<DspStageView>, b: Seq<DspStageView>) -> bool {
    a.len() == b.len() && forall|i: int| 0 <= i < a.len() ==> (#[trigger] a[i]).equals(b[i])
}

/// Whether two lists of stages are equal, one by one.
pub fn same_stages(a: &Vec<DspStageConfig>, b: &Vec<DspStageConfig>) -> (r: bool)
    ensures
        r == stages_equal(a.deep_view(), b.deep_view()),
{
    if a.len() != b.len() {
        return false;
    }
    let mut i: usize = 0;
    while i < a.len()
        invariant
            i <= a.len() == b.len(),
            forall|j: int|
                0 <= j < i ==> (#[trigger] a.deep_view()[j]).equals(b.deep_view()[j]),
        decreases a.len() - i,
    {
        if !a[i].same(&b[i]) {
            assert(!a.deep_view()[i as int].equals(b.deep_view()[i as int]));
            return false;
        }
        i = i + 1;
    }
    true
}

/// A copy of a list of stages.
pub fn copy_stages(a: &Vec<DspStageConfig>) -> (r: Vec<DspStageConfig>)
    ensures
        r.deep_view() == a.deep_view(),
{
    let r = a.clone();
    assert(r.deep_view() =~= a.deep_view());
    r
}

/// Ducking as configured: the trigger is a group's name.
#[derive(Debug, PartialEq)]
pub struct DuckSpecConfig {
    pub trigger: String,
    pub amount_db: Float32,
    pub threshold_db: Float32,
    pub attack_ms: Float32,
    pub release_ms: Float32,
}

/// What a [`DuckSpecConfig`] holds.
pub struct DuckView {
    pub trigger: Seq<char>,
    pub amount_db: Float32,
    pub threshold_db: Float32,
    pub attack_ms: Float32,
    pub release_ms: Float32,
}

impl DeepView for DuckSpecConfig {
    type V = DuckView;

    open spec fn deep_view(&self) -> DuckView {
        DuckView {
            trigger: self.trigger@,
            amount_db: self.amount_db,
            threshold_db: self.threshold_db,
            attack_ms: self.attack_ms,
            release_ms: self.release_ms,
        }
    }
}

impl Clone for DuckSpecConfig {
    fn clone(&self) -> (r: DuckSpecConfig)
        ensures
            r.deep_view() == self.deep_view(),
    {
        DuckSpecConfig {
            trigger: self.trigger.clone(),
            amount_db: self.amount_db,
            threshold_db: self.threshold_db,
            attack_ms: self.attack_ms,
            release_ms: self.release_ms,
        }
    }
}

impl DuckView {
    /// Field-wise equality, with numbers compared as numbers.
    pub open spec fn equals(self, other: DuckView) -> bool {
        &&& self.trigger == other.trigger
        &&& self.amount_db.equals(other.amount_db)
        &&& self.threshold_db.equals(other.threshold_db)
        &&& self.attack_ms.equals(other.attack_ms)
        &&& self.release_ms.equals(other.release_ms)
    }
}

impl DuckSpecConfig {
    /// Field-wise equality, with numbers compared as numbers.
    pub fn same(&self, other: &DuckSpecConfig) -> (r: bool)
        ensures
            r == self.deep_view().equals(other.deep_view()),
    {
        self.trigger == other.trigger
            && self.amount_db.same(other.amount_db)
            && self.threshold_db.same(other.threshold_db)
            && self.attack_ms.same(other.attack_ms)
            && self.release_ms.same(other.release_ms)
    }
}

/// Whether two ducking settings are both absent, or equal.
pub open spec fn ducks_equal(a: Option<DuckView>, b: Option<DuckView>) -> bool {
    match (a, b) {
        (Some(x), Some(y)) => x.equals(y),
        (None, None) => true,
        _ => false,
    }
}

/// Whether two ducking settings are both absent, or equal.
pub fn same_duck(a: &Option<DuckSpecConfig>, b: &Option<DuckSpecConfig>) -> (r: bool)
    ensures
        r == ducks_equal(a.deep_view(), b.deep_view()),
{
    match (a, b) {
        (Some(x), Some(y)) => x.same(y),
        (None, None) => true,
        _ => false,
    }
}

/// A copy of a ducking setting.
pub fn copy_duck(a: &Option<DuckSpecConfig>) -> (r: Option<DuckSpecConfig>)
    ensures
        r.deep_view() == a.deep_view(),
{
    match a {
        Some(x) => Some(x.clone()),
        None => None,
    }
}

/// Whether two optional chords are equal.
pub fn same_chord(a: Option<HotkeyChord>, b: Option<HotkeyChord>) -> (r: bool)
    ensures
        r == (a == b),
{
    match (a, b) {
        (Some(x), Some(y)) => x == y,
        (None, None) => true,
        _ => false,
    }
}

impl HotkeyMap {
    /// Whether two maps bind the same chords.
    pub fn same(self, other: HotkeyMap) -> (r: bool)
        ensures
            r == (self == other),
    {
        same_chord(self.mute_master, other.mute_master) && same_chord(
            self.push_to_mute,
            other.push_to_mute,
        ) && same_chord(self.master_volume_up, other.master_volume_up) && same_chord(
            self.master_volume_down,
            other.master_volume_down,
        )
    }
}

/// A named set of applications and the device they play on.
#[derive(Debug, PartialEq)]
pub struct GroupConfig {
    pub name: String,
    pub output_device: String,
    pub gain: Gain,
    pub follow_master: bool,
    /// Process names and patterns routed into this group.
    pub match_rules: Vec<String>,
    pub dsp: Vec<DspStageConfig>,
    pub duck: Option<DuckSpecConfig>,
    pub spatial: bool,
    pub muted: bool,
    pub hotkey_mute: Option<HotkeyChord>,
    pub hotkey_volume_up: Option<HotkeyChord>,
    pub hotkey_volume_down: Option<HotkeyChord>,
}

/// What a [`GroupConfig`] holds.
pub struct GroupView {
    pub name: Seq<char>,
    pub output_device: Seq<char>,
    pub gain: Float32,
    pub follow_master: bool,
    pub match_rules: Seq<Seq<char>>,
    pub dsp: Seq<DspStageView>,
    pub duck: Option<DuckView>,
    pub spatial: bool,
    pub muted: bool,
    pub hotkey_mute: Option<HotkeyChord>,
    pub hotkey_volume_up: Option<HotkeyChord>,
    pub hotkey_volume_down: Option<HotkeyChord>,
}

impl DeepView for GroupConfig {
    type V = GroupView;

    open spec fn deep_view(&self) -> GroupView {
        GroupView {
            name: self.name@,
            output_device: self.output_device@,
            gain: self.gain.deep_view(),
            follow_master: self.follow_master,
            match_rules: self.match_rules.deep_view(),
            dsp: self.dsp.deep_view(),
            duck: self.duck.deep_view(),
            spatial: self.spatial,
            muted: self.muted,
            hotkey_mute: self.hotkey_mute,
            hotkey_volume_up: self.hotkey_volume_up,
            hotkey_volume_down: self.hotkey_volume_down,
        }
    }
}

impl Clone for GroupConfig {
    fn clone(&self) -> (r: GroupConfig)
        ensures
            r.deep_view() == self.deep_view(),
    {
        GroupConfig {
            name: self.name.clone(),
            output_device: self.output_device.clone(),
            gain: self.gain,
            follow_master: self.follow_master,
            match_rules: copy_texts(&self.match_rules),
            dsp: copy_stages(&self.dsp),
            duck: copy_duck(&self.duck),
            spatial: self.spatial,
            muted: self.muted,
            hotkey_mute: self.hotkey_mute,
            hotkey_volume_up: self.hotkey_volume_up,
            hotkey_volume_down: self.hotkey_volume_down,
        }
    }
}

impl GroupView {
    /// Field-wise equality, with numbers compared as numbers.
    pub open spec fn equals(self, other: GroupView) -> bool {
        &&& self.name == other.name
        &&& self.output_device == other.output_device
        &&& self.gain.equals(other.gain)
        &&& self.follow_master == other.follow_master
        &&& self.match_rules == other.match_rules
        &&& stages_equal(self.dsp, other.dsp)
        &&& ducks_equal(self.duck, other.duck)
        &&& self.spatial == other.spatial
        &&& self.muted == other.muted
        &&& self.hotkey_mute == other.hotkey_mute
        &&& self.hotkey_volume_up == other.hotkey_volume_up
        &&& self.hotkey_volume_down == other.hotkey_volume_down
    }
}

impl GroupConfig {
    /// Field-wise equality, with numbers compared as numbers.
    pub fn same(&self, other: &GroupConfig) -> (r: bool)
        ensures
            r == self.deep_view().equals(other.deep_view()),
    {
        self.name == other.name
            && self.output_device == other.output_device
            && self.gain.same(other.gain)
            && self.follow_master == other.follow_master
            && same_texts(&self.match_rules, &other.match_rules)
            && same_stages(&self.dsp, &other.dsp)
            && same_duck(&self.duck, &other.duck)
            && self.spatial == other.spatial
            && self.muted == other.muted
            && same_chord(self.hotkey_mute, other.hotkey_mute)
            && same_chord(self.hotkey_volume_up, other.hotkey_volume_up)
            && same_chord(self.hotkey_volume_down, other.hotkey_volume_down)
    }
}

/// Whether two lists of groups are equal, one by one.
pub open spec fn groups_equal(a: Seq<GroupView>, b: Seq<GroupView>) -> bool {
    a.len() == b.len() && forall|i: int| 0 <= i < a.len() ==> (#[trigger] a[i]).equals(b[i])
}

/// Whether two lists of groups are equal, one by one.
pub fn same_groups(a: &Vec<GroupConfig>, b: &Vec<GroupConfig>) -> (r: bool)
    ensures
        r == groups_equal(a.deep_view(), b.deep_view()),
{
    if a.len() != b.len() {
        return false;
    }
    let mut i: usize = 0;
    while i < a.len()
        invariant
            i <= a.len() == b.len(),
            forall|j: int|
                0 <= j < i ==> (#[trigger] a.deep_view()[j]).equals(b.deep_view()[j]),
        decreases a.len() - i,
    {
        if !a[i].same(&b[i]) {
            assert(!a.deep_view()[i as int].equals(b.deep_view()[i as int]));
            return false;
        }
        i = i + 1;
    }
    true
}

/// A copy of a list of groups.
pub fn copy_groups(a: &Vec<GroupConfig>) -> (r: Vec<GroupConfig>)
    ensures
        r.deep_view() == a.deep_view(),
{
    let r = a.clone();
    assert(r.deep_view() =~= a.deep_view());
    r
}

/// A group's state inside a profile. Match rules are shared, so it has none.
#[derive(Debug, PartialEq)]
pub struct ProfileGroupConfig {
    pub name: String,
    pub gain: Gain,
    pub follow_master: bool,
    pub output_device: String,
    pub dsp: Vec<DspStageConfig>,
    pub duck: Option<DuckSpecConfig>,
    pub spatial: bool,
    pub muted: bool,
}

/// What a [`ProfileGroupConfig`] holds.
pub struct ProfileGroupView {
    pub name: Seq<char>,
    pub gain: Float32,
    pub follow_master: bool,
    pub output_device: Seq<char>,
    pub dsp: Seq<DspStageView>,
    pub duck: Option<DuckView>,
    pub spatial: bool,
    pub muted: bool,
}

impl DeepView for ProfileGroupConfig {
    type V = ProfileGroupView;

    open spec fn deep_view(&self) -> ProfileGroupView {
        ProfileGroupView {
            name: self.name@,
            gain: self.gain.deep_view(),
            follow_master: self.follow_master,
            output_device: self.output_device@,
            dsp: self.dsp.deep_view(),
            duck: self.duck.deep_view(),
            spatial: self.spatial,
            muted: self.muted,
        }
    }
}

impl Clone for ProfileGroupConfig {
    fn clone(&self) -> (r: ProfileGroupConfig)
        ensures
            r.deep_view() == self.deep_view(),
    {
        ProfileGroupConfig {
            name: self.name.clone(),
            gain: self.gain,
            follow_master: self.follow_master,
            output_device: self.output_device.clone(),
            dsp: copy_stages(&self.dsp),
            duck: copy_duck(&self.duck),
            spatial: self.spatial,
            muted: self.muted,
        }
    }
}

impl ProfileGroupView {
    /// Field-wise equality, with numbers compared as numbers.
    pub open spec fn equals(self, other: ProfileGroupView) -> bool {
        &&& self.name == other.name
        &&& self.gain.equals(other.gain)
        &&& self.follow_master == other.follow_master
        &&& self.output_device == other.output_device
        &&& stages_equal(self.dsp, other.dsp)
        &&& ducks_equal(self.duck, other.duck)
        &&& self.spatial == other.spatial
        &&& self.muted == other.muted
    }
}

impl ProfileGroupConfig {
    /// Field-wise equality, with numbers compared as numbers.
    pub fn same(&self, other: &ProfileGroupConfig) -> (r: bool)
        ensures
            r == self.deep_view().equals(other.deep_view()),
    {
        self.name == other.name
            && self.gain.same(other.gain)
            && self.follow_master == other.follow_master
            && self.output_device == other.output_device
            && same_stages(&self.dsp, &other.dsp)
            && same_duck(&self.duck, &other.duck)
            && self.spatial == other.spatial
            && self.muted == other.muted
    }
}

/// Whether two lists of profile groups are equal, one by one.
pub open spec fn profile_groups_equal(a: Seq<ProfileGroupView>, b: Seq<ProfileGroupView>) -> bool {
    a.len() == b.len() && forall|i: int| 0 <= i < a.len() ==> (#[trigger] a[i]).equals(b[i])
}

/// Whether two lists of profile groups are equal, one by one.
pub fn same_profile_groups(a: &Vec<ProfileGroupConfig>, b: &Vec<ProfileGroupConfig>) -> (r: bool)
    ensures
        r == profile_groups_equal(a.deep_view(), b.deep_view()),
{
    if a.len() != b.len() {
        return false;
    }
    let mut i: usize = 0;
    while i < a.len()
        invariant
            i <= a.len() == b.len(),
            forall|j: int|
                0 <= j < i ==> (#[trigger] a.deep_view()[j]).equals(b.deep_view()[j]),
        decreases a.len() - i,
    {
        if !a[i].same(&b[i]) {
            assert(!a.deep_view()[i as int].equals(b.deep_view()[i as int]));
            return false;
        }
        i = i + 1;
    }
    true
}

/// A copy of a list of profile groups.
pub fn copy_profile_groups(a: &Vec<ProfileGroupConfig>) -> (r: Vec<ProfileGroupConfig>)
    ensures
        r.deep_view() == a.deep_view(),
{
    let r = a.clone();
    assert(r.deep_view() =~= a.deep_view());
    r
}

/// A named snapshot of the state of some or all groups.
#[derive(Debug, PartialEq)]
pub struct ProfileConfig {
    pub name: String,
    pub hotkey: Option<HotkeyChord>,
    pub master: Gain,
    pub muted: bool,
    pub groups: Vec<ProfileGroupConfig>,
}

/// What a [`ProfileConfig`] holds.
pub struct ProfileView {
    pub name: Seq<char>,
    pub hotkey: Option<HotkeyChord>,
    pub master: Float32,
    pub muted: bool,
    pub groups: Seq<ProfileGroupView>,
}

impl DeepView for ProfileConfig {
    type V = ProfileView;

    open spec fn deep_view(&self) -> ProfileView {
        ProfileView {
            name: self.name@,
            hotkey: self.hotkey,
            master: self.master.deep_view(),
            muted: self.muted,
            groups: self.groups.deep_view(),
        }
    }
}

impl Clone for ProfileConfig {
    fn clone(&self) -> (r: ProfileConfig)
        ensures
            r.deep_view() == self.deep_view(),
    {
        ProfileConfig {
            name: self.name.clone(),
            hotkey: self.hotkey,
            master: self.master,
            muted: self.muted,
            groups: copy_profile_groups(&self.groups),
        }
    }
}

impl ProfileView {
    /// Field-wise equality, with numbers compared as numbers.
    pub open spec fn equals(self, other: ProfileView) -> bool {
        &&& self.name == other.name
        &&& self.hotkey == other.hotkey
        &&& self.master.equals(other.master)
        &&& self.muted == other.muted
        &&& profile_groups_equal(self.groups, other.groups)
    }
}

impl ProfileConfig {
    /// Field-wise equality, with numbers compared as numbers.
    pub fn same(&self, other: &ProfileConfig) -> (r: bool)
        ensures
            r == self.deep_view().equals(other.deep_view()),
    {
        self.name == other.name
            && same_chord(self.hotkey, other.hotkey)
            && self.master.same(other.master)
            && self.muted == other.muted
            && same_profile_groups(&self.groups, &other.groups)
    }
}

/// Whether two lists of profiles are equal, one by one.
pub open spec fn profiles_equal(a: Seq<ProfileView>, b: Seq<ProfileView>) -> bool {
    a.len() == b.len() && forall|i: int| 0 <= i < a.len() ==> (#[trigger] a[i]).equals(b[i])
}

/// Whether two lists of profiles are equal, one by one.
pub fn same_profiles(a: &Vec<ProfileConfig>, b: &Vec<ProfileConfig>) -> (r: bool)
    ensures
        r == profiles_equal(a.deep_view(), b.deep_view()),
{
    if a.len() != b.len() {
        return false;
    }
    let mut i: usize = 0;
    while i < a.len()
        invariant
            i <= a.len() == b.len(),
            forall|j: int|
                0 <= j < i ==> (#[trigger] a.deep_view()[j]).equals(b.deep_view()[j]),
        decreases a.len() - i,
    {
        if !a[i].same(&b[i]) {
            assert(!a.deep_view()[i as int].equals(b.deep_view()[i as int]));
            return false;
        }
        i = i + 1;
    }
    true
}

/// A copy of a list of profiles.
pub fn copy_profiles(a: &Vec<ProfileConfig>) -> (r: Vec<ProfileConfig>)
    ensures
        r.deep_view() == a.deep_view(),
{
    let r = a.clone();
    assert(r.deep_view() =~= a.deep_view());
    r
}

/// The settings of the shell.
#[derive(Debug, PartialEq)]
pub struct AppConfig {
    /// Start with the system.
    pub autostart: bool,
    pub hotkeys: HotkeyMap,
    pub active_profile: Option<String>,
    /// What the volume keys control: `master`, or a group by name.
    pub volume_bind: Option<String>,
    pub theme: ThemeChoice,
    pub accent: AccentChoice,
    /// Device used as the silent sink.
    pub sink_device: Option<String>,
    /// Whether the sink is taken as the system's default output.
    pub manage_default: bool,
    /// The default output that the sink displaced.
    pub previous_default: Option<String>,
    /// Applications that are never routed.
    pub excluded: Vec<String>,
}

/// What a [`AppConfig`] holds.
pub struct AppView {
    pub autostart: bool,
    pub hotkeys: HotkeyMap,
    pub active_profile: Option<Seq<char>>,
    pub volume_bind: Option<Seq<char>>,
    pub theme: ThemeChoice,
    pub accent: AccentChoice,
    pub sink_device: Option<Seq<char>>,
    pub manage_default: bool,
    pub previous_default: Option<Seq<char>>,
    pub excluded: Seq<Seq<char>>,
}

impl DeepView for AppConfig {
    type V = AppView;

    open spec fn deep_view(&self) -> AppView {
        AppView {
            autostart: self.autostart,
            hotkeys: self.hotkeys,
            active_profile: self.active_profile.deep_view(),
            volume_bind: self.volume_bind.deep_view(),
            theme: self.theme,
            accent: self.accent,
            sink_device: self.sink_device.deep_view(),
            manage_default: self.manage_default,
            previous_default: self.previous_default.deep_view(),
            excluded: self.excluded.deep_view(),
        }
    }
}

impl Clone for AppConfig {
    fn clone(&self) -> (r: AppConfig)
        ensures
            r.deep_view() == self.deep_view(),
    {
        AppConfig {
            autostart: self.autostart,
            hotkeys: self.hotkeys,
            active_profile: copy_option(&self.active_profile),
            volume_bind: copy_option(&self.volume_bind),
            theme: self.theme,
            accent: self.accent,
            sink_device: copy_option(&self.sink_device),
            manage_default: self.manage_default,
            previous_default: copy_option(&self.previous_default),
            excluded: copy_texts(&self.excluded),
        }
    }
}

impl AppView {
    /// Field-wise equality, with numbers compared as numbers.
    pub open spec fn equals(self, other: AppView) -> bool {
        &&& self.autostart == other.autostart
        &&& self.hotkeys == other.hotkeys
        &&& self.active_profile == other.active_profile
        &&& self.volume_bind == other.volume_bind
        &&& self.theme == other.theme
        &&& self.accent == other.accent
        &&& self.sink_device == other.sink_device
        &&& self.manage_default == other.manage_default
        &&& self.previous_default == other.previous_default
        &&& self.excluded == other.excluded
    }
}

impl AppConfig {
    /// Field-wise equality, with numbers compared as numbers.
    pub fn same(&self, other: &AppConfig) -> (r: bool)
        ensures
            r == self.deep_view().equals(other.deep_view()),
    {
        self.autostart == other.autostart
            && self.hotkeys.same(other.hotkeys)
            && same_option(&self.active_profile, &other.active_profile)
            && same_option(&self.volume_bind, &other.volume_bind)
            && self.theme == other.theme
            && self.accent == other.accent
            && same_option(&self.sink_device, &other.sink_device)
            && self.manage_default == other.manage_default
            && same_option(&self.previous_default, &other.previous_default)
            && same_texts(&self.excluded, &other.excluded)
    }
}

/// A whole configuration.
#[derive(Debug, PartialEq)]
pub struct ConfigSnapshot {
    pub schema_version: u32,
    pub master: Gain,
    pub muted: bool,
    pub groups: Vec<GroupConfig>,
    pub app: AppConfig,
    pub profiles: Vec<ProfileConfig>,
}

/// What a [`ConfigSnapshot`] holds.
pub struct SnapshotView {
    pub schema_version: u32,
    pub master: Float32,
    pub muted: bool,
    pub groups: Seq<GroupView>,
    pub app: AppView,
    pub profiles: Seq<ProfileView>,
}

impl DeepView for ConfigSnapshot {
    type V = SnapshotView;

    open spec fn deep_view(&self) -> SnapshotView {
        SnapshotView {
            schema_version: self.schema_version,
            master: self.master.deep_view(),
            muted: self.muted,
            groups: self.groups.deep_view(),
            app: self.app.deep_view(),
            profiles: self.profiles.deep_view(),
        }
    }
}

impl Clone for ConfigSnapshot {
    fn clone(&self) -> (r: ConfigSnapshot)
        ensures
            r.deep_view() == self.deep_view(),
    {
        ConfigSnapshot {
            schema_version: self.schema_version,
            master: self.master,
            muted: self.muted,
            groups: copy_groups(&self.groups),
            app: self.app.clone(),
            profiles: copy_profiles(&self.profiles),
        }
    }
}

impl SnapshotView {
    /// Field-wise equality, with numbers compared as numbers.
    pub open spec fn equals(self, other: SnapshotView) -> bool {
        &&& self.schema_version == other.schema_version
        &&& self.master.equals(other.master)
        &&& self.muted == other.muted
        &&& groups_equal(self.groups, other.groups)
        &&& self.app == other.app
        &&& profiles_equal(self.profiles, other.profiles)
    }
}

impl ConfigSnapshot {
    /// Field-wise equality, with numbers compared as numbers.
    pub fn same(&self, other: &ConfigSnapshot) -> (r: bool)
        ensures
            r == self.deep_view().equals(other.deep_view()),
    {
        self.schema_version == other.schema_version
            && self.master.same(other.master)
            && self.muted == other.muted
            && same_groups(&self.groups, &other.groups)
            && self.app.same(&other.app)
            && same_profiles(&self.profiles, &other.profiles)
    }
}

impl Default for HotkeyMap {
    fn default() -> (r: HotkeyMap)
        ensures
            r == (HotkeyMap {
                mute_master: None,
                push_to_mute: None,
                master_volume_up: None,
                master_volume_down: None,
            }),
    {
        HotkeyMap {
            mute_master: None,
            push_to_mute: None,
            master_volume_up: None,
            master_volume_down: None,
        }
    }
}

impl Default for AppConfig {
    fn default() -> (r: AppConfig)
        ensures
            r.deep_view() == (AppView {
                autostart: false,
                hotkeys: HotkeyMap {
                    mute_master: None,
                    push_to_mute: None,
                    master_volume_up: None,
                    master_volume_down: None,
                },
                active_profile: None,
                volume_bind: None,
                theme: ThemeChoice::System,
                accent: AccentChoice::Brand,
                sink_device: None,
                manage_default: false,
                previous_default: None,
                excluded: Seq::empty(),
            }),
    {
        let r = AppConfig {
            autostart: false,
            hotkeys: HotkeyMap::default(),
            active_profile: None,
            volume_bind: None,
            theme: ThemeChoice::default(),
            accent: AccentChoice::default(),
            sink_device: None,
            manage_default: false,
            previous_default: None,
            excluded: Vec::new(),
        };
        assert(r.excluded.deep_view() =~= Seq::empty());
        r
    }
}

} // verus!
