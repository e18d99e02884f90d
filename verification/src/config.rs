//! Reading a configuration: from the values of the file to a checked
//! [`ConfigSnapshot`], or to the first thing that is wrong with it.
use crate::delta::group_named;
use crate::dsp::{DspSpec, DspSpecView, EqBandSpec};
use crate::float::Float32;
use crate::chord::{chord_of, not_a_chord, HotkeyChord};
use crate::model::{
    AccentChoice, AppConfig, AppView, ConfigSnapshot, DspStageConfig, DspStageView, DuckSpecConfig,
    DuckView, GroupConfig, GroupView, HotkeyMap, ProfileConfig, ProfileGroupConfig,
    ProfileGroupView, ProfileView, SnapshotView, ThemeChoice,
};
use crate::sample::{valid_gain, Gain};
use crate::text::{decimal, decimal_of, pieces, quote, quoted, same_text};
use vstd::prelude::*;

verus! {

/// The newest schema that is understood.
pub const SUPPORTED_SCHEMA_VERSION: u32 = 2;

/// Why a configuration that parsed was refused.
#[derive(Debug, Clone, PartialEq)]
pub enum Refusal {
    Message(String),
    /// A gain must be finite and non-negative.
    Gain(Float32),
    /// Frequency and q of an EQ band must be positive, q and gain finite.
    EqBand { freq_hz: Float32, q: Float32 },
}

/// Why there is no configuration.
#[derive(Debug, Clone, PartialEq)]
pub enum ConfigError {
    Io(String),
    Parse(String),
    /// The file parsed but holds something that cannot be. Callers keep the
    /// configuration that they have.
    Invalid(Refusal),
}

/// What a [`Refusal`] says.
pub enum RefusalView {
    Message(Seq<char>),
    Gain(Float32),
    EqBand { freq_hz: Float32, q: Float32 },
}

/// What a [`ConfigError`] says.
pub enum ConfigErrorView {
    Io(Seq<char>),
    Parse(Seq<char>),
    Invalid(RefusalView),
}

impl DeepView for Refusal {
    type V = RefusalView;

    open spec fn deep_view(&self) -> RefusalView {
        match self {
            Refusal::Message(text) => RefusalView::Message(text@),
            Refusal::Gain(value) => RefusalView::Gain(*value),
            Refusal::EqBand { freq_hz, q } => RefusalView::EqBand { freq_hz: *freq_hz, q: *q },
        }
    }
}

impl DeepView for ConfigError {
    type V = ConfigErrorView;

    open spec fn deep_view(&self) -> ConfigErrorView {
        match self {
            ConfigError::Io(text) => ConfigErrorView::Io(text@),
            ConfigError::Parse(text) => ConfigErrorView::Parse(text@),
            ConfigError::Invalid(refusal) => ConfigErrorView::Invalid(refusal.deep_view()),
        }
    }
}

/// The error that says `text` of a configuration.
pub open spec fn invalid(text: Seq<char>) -> ConfigErrorView {
    ConfigErrorView::Invalid(RefusalView::Message(text))
}

/// A band as the file has it.
#[derive(Debug)]
pub struct RawEqBand {
    pub freq_hz: Float32,
    pub gain_db: Float32,
    pub q: Float32,
}

/// What a [`RawEqBand`] holds.
pub struct RawEqBandView {
    pub freq_hz: Float32,
    pub gain_db: Float32,
    pub q: Float32,
}

impl DeepView for RawEqBand {
    type V = RawEqBandView;

    open spec fn deep_view(&self) -> RawEqBandView {
        RawEqBandView {
            freq_hz: self.freq_hz,
            gain_db: self.gain_db,
            q: self.q,
        }
    }
}

/// A stage as the file has it.
#[derive(Debug)]
pub enum RawDspStage {
    Eq { bands: Vec<RawEqBand>, bypassed: bool },
    Limiter { ceiling_db: Float32, bypassed: bool },
}

/// What a [`RawDspStage`] holds.
pub enum RawDspStageView {
    Eq { bands: Seq<RawEqBandView>, bypassed: bool },
    Limiter { ceiling_db: Float32, bypassed: bool },
}

impl DeepView for RawDspStage {
    type V = RawDspStageView;

    open spec fn deep_view(&self) -> RawDspStageView {
        match self {
            RawDspStage::Eq { bands, bypassed } => RawDspStageView::Eq {
                bands: bands.deep_view(),
                bypassed: *bypassed,
            },
            RawDspStage::Limiter { ceiling_db, bypassed } => RawDspStageView::Limiter {
                ceiling_db: *ceiling_db,
                bypassed: *bypassed,
            },
        }
    }
}

/// Ducking as the file has it.
#[derive(Debug)]
pub struct RawDuck {
    pub trigger: String,
    pub amount_db: Float32,
    pub threshold_db: Float32,
    pub attack_ms: Float32,
    pub release_ms: Float32,
}

/// What a [`RawDuck`] holds.
pub struct RawDuckView {
    pub trigger: Seq<char>,
    pub amount_db: Float32,
    pub threshold_db: Float32,
    pub attack_ms: Float32,
    pub release_ms: Float32,
}

impl DeepView for RawDuck {
    type V = RawDuckView;

    open spec fn deep_view(&self) -> RawDuckView {
        RawDuckView {
            trigger: self.trigger@,
            amount_db: self.amount_db,
            threshold_db: self.threshold_db,
            attack_ms: self.attack_ms,
            release_ms: self.release_ms,
        }
    }
}

/// A group as the file has it.
#[derive(Debug)]
pub struct RawGroup {
    pub name: String,
    pub output_device: String,
    pub gain: Float32,
    pub follow_master: bool,
    pub match_rules: Vec<String>,
    pub dsp: Vec<RawDspStage>,
    pub duck: Option<RawDuck>,
    pub spatial: bool,
    pub muted: bool,
    pub hotkey_mute: Option<String>,
    pub hotkey_volume_up: Option<String>,
    pub hotkey_volume_down: Option<String>,
}

/// What a [`RawGroup`] holds.
pub struct RawGroupView {
    pub name: Seq<char>,
    pub output_device: Seq<char>,
    pub gain: Float32,
    pub follow_master: bool,
    pub match_rules: Seq<Seq<char>>,
    pub dsp: Seq<RawDspStageView>,
    pub duck: Option<RawDuckView>,
    pub spatial: bool,
    pub muted: bool,
    pub hotkey_mute: Option<Seq<char>>,
    pub hotkey_volume_up: Option<Seq<char>>,
    pub hotkey_volume_down: Option<Seq<char>>,
}

impl DeepView for RawGroup {
    type V = RawGroupView;

    open spec fn deep_view(&self) -> RawGroupView {
        RawGroupView {
            name: self.name@,
            output_device: self.output_device@,
            gain: self.gain,
            follow_master: self.follow_master,
            match_rules: self.match_rules.deep_view(),
            dsp: self.dsp.deep_view(),
            duck: self.duck.deep_view(),
            spatial: self.spatial,
            muted: self.muted,
            hotkey_mute: self.hotkey_mute.deep_view(),
            hotkey_volume_up: self.hotkey_volume_up.deep_view(),
            hotkey_volume_down: self.hotkey_volume_down.deep_view(),
        }
    }
}

/// A group of a profile as the file has it.
#[derive(Debug)]
pub struct RawProfileGroup {
    pub name: String,
    pub output_device: String,
    pub gain: Float32,
    pub follow_master: bool,
    pub dsp: Vec<RawDspStage>,
    pub duck: Option<RawDuck>,
    pub spatial: bool,
    pub muted: bool,
}

/// What a [`RawProfileGroup`] holds.
pub struct RawProfileGroupView {
    pub name: Seq<char>,
    pub output_device: Seq<char>,
    pub gain: Float32,
    pub follow_master: bool,
    pub dsp: Seq<RawDspStageView>,
    pub duck: Option<RawDuckView>,
    pub spatial: bool,
    pub muted: bool,
}

impl DeepView for RawProfileGroup {
    type V = RawProfileGroupView;

    open spec fn deep_view(&self) -> RawProfileGroupView {
        RawProfileGroupView {
            name: self.name@,
            output_device: self.output_device@,
            gain: self.gain,
            follow_master: self.follow_master,
            dsp: self.dsp.deep_view(),
            duck: self.duck.deep_view(),
            spatial: self.spatial,
            muted: self.muted,
        }
    }
}

/// A profile as the file has it.
#[derive(Debug)]
pub struct RawProfile {
    pub name: String,
    pub hotkey: Option<String>,
    pub master: Float32,
    pub muted: bool,
    pub group: Vec<RawProfileGroup>,
}

/// What a [`RawProfile`] holds.
pub struct RawProfileView {
    pub name: Seq<char>,
    pub hotkey: Option<Seq<char>>,
    pub master: Float32,
    pub muted: bool,
    pub group: Seq<RawProfileGroupView>,
}

impl DeepView for RawProfile {
    type V = RawProfileView;

    open spec fn deep_view(&self) -> RawProfileView {
        RawProfileView {
            name: self.name@,
            hotkey: self.hotkey.deep_view(),
            master: self.master,
            muted: self.muted,
            group: self.group.deep_view(),
        }
    }
}

/// The settings of the shell as the file has them.
#[derive(Debug)]
pub struct RawAppConfig {
    pub autostart: bool,
    pub active_profile: Option<String>,
    pub volume_bind: Option<String>,
    pub theme: Option<String>,
    pub accent: Option<String>,
    pub sink_device: Option<String>,
    pub manage_default: bool,
    pub previous_default: Option<String>,
    pub excluded: Vec<String>,
}

/// What a [`RawAppConfig`] holds.
pub struct RawAppConfigView {
    pub autostart: bool,
    pub active_profile: Option<Seq<char>>,
    pub volume_bind: Option<Seq<char>>,
    pub theme: Option<Seq<char>>,
    pub accent: Option<Seq<char>>,
    pub sink_device: Option<Seq<char>>,
    pub manage_default: bool,
    pub previous_default: Option<Seq<char>>,
    pub excluded: Seq<Seq<char>>,
}

impl DeepView for RawAppConfig {
    type V = RawAppConfigView;

    open spec fn deep_view(&self) -> RawAppConfigView {
        RawAppConfigView {
            autostart: self.autostart,
            active_profile: self.active_profile.deep_view(),
            volume_bind: self.volume_bind.deep_view(),
            theme: self.theme.deep_view(),
            accent: self.accent.deep_view(),
            sink_device: self.sink_device.deep_view(),
            manage_default: self.manage_default,
            previous_default: self.previous_default.deep_view(),
            excluded: self.excluded.deep_view(),
        }
    }
}

/// The chords of the master as the file has them.
#[derive(Debug)]
pub struct RawHotkeys {
    pub mute_master: Option<String>,
    pub push_to_mute: Option<String>,
    pub master_volume_up: Option<String>,
    pub master_volume_down: Option<String>,
}

/// What a [`RawHotkeys`] holds.
pub struct RawHotkeysView {
    pub mute_master: Option<Seq<char>>,
    pub push_to_mute: Option<Seq<char>>,
    pub master_volume_up: Option<Seq<char>>,
    pub master_volume_down: Option<Seq<char>>,
}

impl DeepView for RawHotkeys {
    type V = RawHotkeysView;

    open spec fn deep_view(&self) -> RawHotkeysView {
        RawHotkeysView {
            mute_master: self.mute_master.deep_view(),
            push_to_mute: self.push_to_mute.deep_view(),
            master_volume_up: self.master_volume_up.deep_view(),
            master_volume_down: self.master_volume_down.deep_view(),
        }
    }
}

/// A configuration as the file has it, with the defaults filled in.
#[derive(Debug)]
pub struct RawConfig {
    pub schema_version: u32,
    pub master: Float32,
    pub muted: bool,
    pub group: Vec<RawGroup>,
    pub app: RawAppConfig,
    pub hotkeys: RawHotkeys,
    pub profile: Vec<RawProfile>,
}

/// What a [`RawConfig`] holds.
pub struct RawConfigView {
    pub schema_version: u32,
    pub master: Float32,
    pub muted: bool,
    pub group: Seq<RawGroupView>,
    pub app: RawAppConfigView,
    pub hotkeys: RawHotkeysView,
    pub profile: Seq<RawProfileView>,
}

impl DeepView for RawConfig {
    type V = RawConfigView;

    open spec fn deep_view(&self) -> RawConfigView {
        RawConfigView {
            schema_version: self.schema_version,
            master: self.master,
            muted: self.muted,
            group: self.group.deep_view(),
            app: self.app.deep_view(),
            hotkeys: self.hotkeys.deep_view(),
            profile: self.profile.deep_view(),
        }
    }
}

/// The schema version of a file that names none.
pub fn current_schema_version() -> (r: u32)
    ensures
        r == SUPPORTED_SCHEMA_VERSION,
{
    SUPPORTED_SCHEMA_VERSION
}

/// The gain of a file that names none: one.
pub fn default_gain() -> (r: Float32)
    ensures
        r.bits == 0x3f80_0000,
{
    Float32 { bits: 0x3f80_0000 }
}

fn refuse(text: String) -> (r: ConfigError)
    ensures
        r.deep_view() == invalid(text@),
{
    ConfigError::Invalid(Refusal::Message(text))
}

/// The chord that an optional text writes.
pub open spec fn chord_read(raw: Option<Seq<char>>) -> Result<Option<HotkeyChord>, ConfigErrorView> {
    match raw {
        None => Ok(None),
        Some(text) => match chord_of(pieces(text, '+')) {
            Some(chord) => Ok(Some(chord)),
            None => Err(invalid(not_a_chord(text))),
        },
    }
}

/// Reads an optional chord; an absent one is none.
pub fn parse_hotkey(raw: &Option<String>) -> (r: Result<Option<HotkeyChord>, ConfigError>)
    ensures
        match r {
            Ok(chord) => chord_read(raw.deep_view()) == Ok::<_, ConfigErrorView>(chord),
            Err(e) => chord_read(raw.deep_view()) == Err::<Option<HotkeyChord>, _>(e.deep_view()),
        },
{
    match raw {
        None => Ok(None),
        Some(text) => match HotkeyChord::parse(text.as_str()) {
            Ok(chord) => Ok(Some(chord)),
            Err(message) => Err(refuse(message)),
        },
    }
}

/// What is said of a theme that is not one.
pub open spec fn not_a_theme(text: Seq<char>) -> Seq<char> {
    "unrecognised theme "@ + quoted(text)
        + " (expected \"dark\", \"light\", or \"system\")"@
}

/// The theme that an optional text names; an absent one is the default.
pub open spec fn theme_read(raw: Option<Seq<char>>) -> Result<ThemeChoice, ConfigErrorView> {
    match raw {
        None => Ok(ThemeChoice::System),
        Some(text) => if text == "dark"@ {
            Ok(ThemeChoice::Dark)
        } else if text == "light"@ {
            Ok(ThemeChoice::Light)
        } else if text == "system"@ {
            Ok(ThemeChoice::System)
        } else {
            Err(invalid(not_a_theme(text)))
        },
    }
}

pub fn parse_theme(raw: &Option<String>) -> (r: Result<ThemeChoice, ConfigError>)
    ensures
        match r {
            Ok(theme) => theme_read(raw.deep_view()) == Ok::<_, ConfigErrorView>(theme),
            Err(e) => theme_read(raw.deep_view()) == Err::<ThemeChoice, _>(e.deep_view()),
        },
{
    let text = match raw {
        None => {
            return Ok(ThemeChoice::default());
        },
        Some(text) => text.as_str(),
    };
    if same_text(text, "dark") {
        Ok(ThemeChoice::Dark)
    } else if same_text(text, "light") {
        Ok(ThemeChoice::Light)
    } else if same_text(text, "system") {
        Ok(ThemeChoice::System)
    } else {
        let shown = quote(text);
        let message = String::from_str("unrecognised theme ").concat(shown.as_str()).concat(
            " (expected \"dark\", \"light\", or \"system\")",
        );
        Err(refuse(message))
    }
}

/// What is said of an accent that is not one.
pub open spec fn not_an_accent(text: Seq<char>) -> Seq<char> {
    "unrecognised accent "@ + quoted(text)
        + " (expected \"brand\", \"teal\", \"amber\", \"violet\", or \"slate\")"@
}

/// The accent that an optional text names; an absent one is the default.
pub open spec fn accent_read(raw: Option<Seq<char>>) -> Result<AccentChoice, ConfigErrorView> {
    match raw {
        None => Ok(AccentChoice::Brand),
        Some(text) => if text == "brand"@ {
            Ok(AccentChoice::Brand)
        } else if text == "teal"@ {
            Ok(AccentChoice::Teal)
        } else if text == "amber"@ {
            Ok(AccentChoice::Amber)
        } else if text == "violet"@ {
            Ok(AccentChoice::Violet)
        } else if text == "slate"@ {
            Ok(AccentChoice::Slate)
        } else {
            Err(invalid(not_an_accent(text)))
        },
    }
}

pub fn parse_accent(raw: &Option<String>) -> (r: Result<AccentChoice, ConfigError>)
    ensures
        match r {
            Ok(accent) => accent_read(raw.deep_view()) == Ok::<_, ConfigErrorView>(accent),
            Err(e) => accent_read(raw.deep_view()) == Err::<AccentChoice, _>(e.deep_view()),
        },
{
    let text = match raw {
        None => {
            return Ok(AccentChoice::default());
        },
        Some(text) => text.as_str(),
    };
    if same_text(text, "brand") {
        Ok(AccentChoice::Brand)
    } else if same_text(text, "teal") {
        Ok(AccentChoice::Teal)
    } else if same_text(text, "amber") {
        Ok(AccentChoice::Amber)
    } else if same_text(text, "violet") {
        Ok(AccentChoice::Violet)
    } else if same_text(text, "slate") {
        Ok(AccentChoice::Slate)
    } else {
        let shown = quote(text);
        let message = String::from_str("unrecognised accent ").concat(shown.as_str()).concat(
            " (expected \"brand\", \"teal\", \"amber\", \"violet\", or \"slate\")",
        );
        Err(refuse(message))
    }
}

/// A checked gain.
pub open spec fn gain_read(value: Float32) -> Result<Float32, ConfigErrorView> {
    if valid_gain(value) {
        Ok(value)
    } else {
        Err(ConfigErrorView::Invalid(RefusalView::Gain(value)))
    }
}

fn read_gain(value: Float32) -> (r: Result<Gain, ConfigError>)
    ensures
        match r {
            Ok(gain) => gain_read(value) == Ok::<_, ConfigErrorView>(gain.deep_view()),
            Err(e) => gain_read(value) == Err::<Float32, _>(e.deep_view()),
        },
{
    match Gain::new(value) {
        Ok(gain) => Ok(gain),
        Err(_) => Err(ConfigError::Invalid(Refusal::Gain(value))),
    }
}

/// The ducking of a group, as configured.
pub open spec fn duck_read(raw: Option<RawDuckView>) -> Option<DuckView> {
    match raw {
        None => None,
        Some(d) => Some(
            DuckView {
                trigger: d.trigger,
                amount_db: d.amount_db,
                threshold_db: d.threshold_db,
                attack_ms: d.attack_ms,
                release_ms: d.release_ms,
            },
        ),
    }
}

pub fn convert_duck(raw: &Option<RawDuck>) -> (r: Option<DuckSpecConfig>)
    ensures
        r.deep_view() == duck_read(raw.deep_view()),
{
    match raw {
        None => None,
        Some(d) => Some(
            DuckSpecConfig {
                trigger: d.trigger.clone(),
                amount_db: d.amount_db,
                threshold_db: d.threshold_db,
                attack_ms: d.attack_ms,
                release_ms: d.release_ms,
            },
        ),
    }
}

/// What an EQ band may be. The upper bound of its frequency needs a sample
/// rate and is checked where the chain is built.
pub open spec fn valid_band(band: EqBandSpec) -> bool {
    (Float32 { bits: 0 }).less(band.freq_hz) && (Float32 { bits: 0 }).less(band.q)
        && band.q.finite() && band.gain_db.finite()
}

pub fn validate_eq_band_shape(band: &EqBandSpec) -> (r: Result<(), ConfigError>)
    ensures
        match r {
            Ok(()) => valid_band(*band),
            Err(e) => !valid_band(*band) && e.deep_view() == ConfigErrorView::Invalid(
                RefusalView::EqBand { freq_hz: band.freq_hz, q: band.q },
            ),
        },
{
    if band.freq_hz.is_positive() && band.q.is_positive() && band.q.is_finite()
        && band.gain_db.is_finite() {
        Ok(())
    } else {
        Err(ConfigError::Invalid(Refusal::EqBand { freq_hz: band.freq_hz, q: band.q }))
    }
}

/// A band of the file as a band of a stage.
pub open spec fn band_of(raw: RawEqBandView) -> EqBandSpec {
    EqBandSpec { freq_hz: raw.freq_hz, gain_db: raw.gain_db, q: raw.q }
}

/// The first `n` bands, or the error of the first that is not valid.
pub open spec fn bands_read(raw: Seq<RawEqBandView>, n: int) -> Result<
    Seq<EqBandSpec>,
    ConfigErrorView,
>
    decreases n,
{
    if n <= 0 {
        Ok(Seq::empty())
    } else {
        match bands_read(raw, n - 1) {
            Err(e) => Err(e),
            Ok(bands) => if valid_band(band_of(raw[n - 1])) {
                Ok(bands.push(band_of(raw[n - 1])))
            } else {
                Err(
                    ConfigErrorView::Invalid(
                        RefusalView::EqBand { freq_hz: raw[n - 1].freq_hz, q: raw[n - 1].q },
                    ),
                )
            },
        }
    }
}

proof fn lemma_bands_error(raw: Seq<RawEqBandView>, n: int, m: int)
    requires
        n <= m,
        bands_read(raw, n) is Err,
    ensures
        bands_read(raw, m) == bands_read(raw, n),
    decreases m - n,
{
    if n < m {
        lemma_bands_error(raw, n, m - 1);
    }
}

/// A stage of the file as a stage of a chain.
pub open spec fn stage_read(raw: RawDspStageView) -> Result<DspStageView, ConfigErrorView> {
    match raw {
        RawDspStageView::Eq { bands, bypassed } => match bands_read(bands, bands.len() as int) {
            Ok(bands) => Ok(DspStageView { spec: DspSpecView::Eq { bands }, bypassed }),
            Err(e) => Err(e),
        },
        RawDspStageView::Limiter { ceiling_db, bypassed } => Ok(
            DspStageView { spec: DspSpecView::Limiter { ceiling_db }, bypassed },
        ),
    }
}

fn convert_bands(raw: &Vec<RawEqBand>) -> (r: Result<Vec<EqBandSpec>, ConfigError>)
    ensures
        match r {
            Ok(bands) => bands_read(raw.deep_view(), raw@.len() as int) == Ok::<
                _,
                ConfigErrorView,
            >(bands.deep_view()),
            Err(e) => bands_read(raw.deep_view(), raw@.len() as int) == Err::<Seq<EqBandSpec>, _>(
                e.deep_view(),
            ),
        },
{
    let mut bands: Vec<EqBandSpec> = Vec::new();
    let mut i: usize = 0;
    assert(bands.deep_view() =~= Seq::empty());
    while i < raw.len()
        invariant
            i <= raw.len(),
            bands_read(raw.deep_view(), i as int) == Ok::<_, ConfigErrorView>(bands.deep_view()),
        decreases raw.len() - i,
    {
        let band = EqBandSpec { freq_hz: raw[i].freq_hz, gain_db: raw[i].gain_db, q: raw[i].q };
        assert(band == band_of(raw.deep_view()[i as int]));
        match validate_eq_band_shape(&band) {
            Ok(()) => {},
            Err(e) => {
                proof {
                    lemma_bands_error(raw.deep_view(), i + 1, raw@.len() as int);
                }
                return Err(e);
            },
        }
        let ghost before = bands.deep_view();
        bands.push(band);
        assert(bands.deep_view() =~= before.push(band));
        i = i + 1;
    }
    Ok(bands)
}

pub fn convert_dsp_stage(raw: &RawDspStage) -> (r: Result<DspStageConfig, ConfigError>)
    ensures
        match r {
            Ok(stage) => stage_read(raw.deep_view()) == Ok::<_, ConfigErrorView>(stage.deep_view()),
            Err(e) => stage_read(raw.deep_view()) == Err::<DspStageView, _>(e.deep_view()),
        },
{
    match raw {
        RawDspStage::Eq { bands, bypassed } => match convert_bands(bands) {
            Ok(bands) => Ok(
                DspStageConfig { spec: DspSpec::Eq { bands }, bypassed: *bypassed },
            ),
            Err(e) => Err(e),
        },
        RawDspStage::Limiter { ceiling_db, bypassed } => Ok(
            DspStageConfig {
                spec: DspSpec::Limiter { ceiling_db: *ceiling_db },
                bypassed: *bypassed,
            },
        ),
    }
}

/// The first `n` stages, or the error of the first that is not valid.
pub open spec fn stages_read(raw: Seq<RawDspStageView>, n: int) -> Result<
    Seq<DspStageView>,
    ConfigErrorView,
>
    decreases n,
{
    if n <= 0 {
        Ok(Seq::empty())
    } else {
        match stages_read(raw, n - 1) {
            Err(e) => Err(e),
            Ok(stages) => match stage_read(raw[n - 1]) {
                Ok(stage) => Ok(stages.push(stage)),
                Err(e) => Err(e),
            },
        }
    }
}

proof fn lemma_stages_error(raw: Seq<RawDspStageView>, n: int, m: int)
    requires
        n <= m,
        stages_read(raw, n) is Err,
    ensures
        stages_read(raw, m) == stages_read(raw, n),
    decreases m - n,
{
    if n < m {
        lemma_stages_error(raw, n, m - 1);
    }
}

/// The chain of a group.
pub open spec fn chain_read(raw: Seq<RawDspStageView>) -> Result<
    Seq<DspStageView>,
    ConfigErrorView,
> {
    stages_read(raw, raw.len() as int)
}

fn convert_chain(raw: &Vec<RawDspStage>) -> (r: Result<Vec<DspStageConfig>, ConfigError>)
    ensures
        match r {
            Ok(stages) => chain_read(raw.deep_view()) == Ok::<_, ConfigErrorView>(
                stages.deep_view(),
            ),
            Err(e) => chain_read(raw.deep_view()) == Err::<Seq<DspStageView>, _>(e.deep_view()),
        },
{
    let mut stages: Vec<DspStageConfig> = Vec::new();
    let mut i: usize = 0;
    assert(stages.deep_view() =~= Seq::empty());
    while i < raw.len()
        invariant
            i <= raw.len(),
            stages_read(raw.deep_view(), i as int) == Ok::<_, ConfigErrorView>(stages.deep_view()),
        decreases raw.len() - i,
    {
        let ghost before = stages.deep_view();
        match convert_dsp_stage(&raw[i]) {
            Ok(stage) => {
                stages.push(stage);
                assert(stages.deep_view() =~= before.push(stage.deep_view()));
            },
            Err(e) => {
                proof {
                    lemma_stages_error(raw.deep_view(), i + 1, raw@.len() as int);
                }
                return Err(e);
            },
        }
        i = i + 1;
    }
    Ok(stages)
}

/// A group of the file as a group of the configuration, or the first of its
/// errors: gain, chain, then the three chords.
pub open spec fn group_read(raw: RawGroupView) -> Result<GroupView, ConfigErrorView> {
    match gain_read(raw.gain) {
        Err(e) => Err(e),
        Ok(gain) => match chain_read(raw.dsp) {
            Err(e) => Err(e),
            Ok(dsp) => match chord_read(raw.hotkey_mute) {
                Err(e) => Err(e),
                Ok(hotkey_mute) => match chord_read(raw.hotkey_volume_up) {
                    Err(e) => Err(e),
                    Ok(hotkey_volume_up) => match chord_read(raw.hotkey_volume_down) {
                        Err(e) => Err(e),
                        Ok(hotkey_volume_down) => Ok(
                            GroupView {
                                name: raw.name,
                                output_device: raw.output_device,
                                gain,
                                follow_master: raw.follow_master,
                                match_rules: raw.match_rules,
                                dsp,
                                duck: duck_read(raw.duck),
                                spatial: raw.spatial,
                                muted: raw.muted,
                                hotkey_mute,
                                hotkey_volume_up,
                                hotkey_volume_down,
                            },
                        ),
                    },
                },
            },
        },
    }
}

fn convert_group(raw: RawGroup) -> (r: Result<GroupConfig, ConfigError>)
    ensures
        match r {
            Ok(group) => group_read(raw.deep_view()) == Ok::<_, ConfigErrorView>(group.deep_view()),
            Err(e) => group_read(raw.deep_view()) == Err::<GroupView, _>(e.deep_view()),
        },
{
    let gain = match read_gain(raw.gain) {
        Ok(gain) => gain,
        Err(e) => {
            return Err(e);
        },
    };
    let dsp = match convert_chain(&raw.dsp) {
        Ok(dsp) => dsp,
        Err(e) => {
            return Err(e);
        },
    };
    let duck = convert_duck(&raw.duck);
    let hotkey_mute = match parse_hotkey(&raw.hotkey_mute) {
        Ok(chord) => chord,
        Err(e) => {
            return Err(e);
        },
    };
    let hotkey_volume_up = match parse_hotkey(&raw.hotkey_volume_up) {
        Ok(chord) => chord,
        Err(e) => {
            return Err(e);
        },
    };
    let hotkey_volume_down = match parse_hotkey(&raw.hotkey_volume_down) {
        Ok(chord) => chord,
        Err(e) => {
            return Err(e);
        },
    };
    Ok(
        GroupConfig {
            name: raw.name,
            output_device: raw.output_device,
            gain,
            follow_master: raw.follow_master,
            match_rules: raw.match_rules,
            dsp,
            duck,
            spatial: raw.spatial,
            muted: raw.muted,
            hotkey_mute,
            hotkey_volume_up,
            hotkey_volume_down,
        },
    )
}

/// The first `n` groups, or the error of the first that is not valid.
pub open spec fn groups_read(raw: Seq<RawGroupView>, n: int) -> Result<
    Seq<GroupView>,
    ConfigErrorView,
>
    decreases n,
{
    if n <= 0 {
        Ok(Seq::empty())
    } else {
        match groups_read(raw, n - 1) {
            Err(e) => Err(e),
            Ok(groups) => match group_read(raw[n - 1]) {
                Ok(group) => Ok(groups.push(group)),
                Err(e) => Err(e),
            },
        }
    }
}

proof fn lemma_groups_error(raw: Seq<RawGroupView>, n: int, m: int)
    requires
        n <= m,
        groups_read(raw, n) is Err,
    ensures
        groups_read(raw, m) == groups_read(raw, n),
    decreases m - n,
{
    if n < m {
        lemma_groups_error(raw, n, m - 1);
    }
}

fn convert_groups(raw: Vec<RawGroup>) -> (r: Result<Vec<GroupConfig>, ConfigError>)
    ensures
        match r {
            Ok(groups) => groups_read(raw.deep_view(), raw@.len() as int) == Ok::<
                _,
                ConfigErrorView,
            >(groups.deep_view()),
            Err(e) => groups_read(raw.deep_view(), raw@.len() as int) == Err::<Seq<GroupView>, _>(
                e.deep_view(),
            ),
        },
{
    let ghost all = raw.deep_view();
    let mut groups: Vec<GroupConfig> = Vec::new();
    assert(groups.deep_view() =~= Seq::empty());
    let ghost mut n: int = 0;
    for one in iter: raw
        invariant
            all == raw.deep_view(),
            iter.seq().len() == all.len(),
            forall|j: int| 0 <= j < all.len() ==> (#[trigger] iter.seq()[j]).deep_view() == all[j],
            n == iter.index(),
            groups_read(all, n) == Ok::<_, ConfigErrorView>(groups.deep_view()),
    {
        let ghost before = groups.deep_view();
        assert(one.deep_view() == all[n]);
        match convert_group(one) {
            Ok(group) => {
                groups.push(group);
                assert(groups.deep_view() =~= before.push(group.deep_view()));
            },
            Err(e) => {
                proof {
                    lemma_groups_error(all, n + 1, all.len() as int);
                }
                return Err(e);
            },
        }
        proof {
            n = n + 1;
        }
    }
    Ok(groups)
}

/// Position of the last group of that name that ducks, among the first `n`.
pub open spec fn ducker_upto(groups: Seq<GroupView>, name: Seq<char>, n: int) -> Option<int>
    decreases n,
{
    if n <= 0 {
        None
    } else if groups[n - 1].name == name && groups[n - 1].duck is Some {
        Some(n - 1)
    } else {
        ducker_upto(groups, name, n - 1)
    }
}

/// The name that triggers the ducking of the group `name`. Of several groups
/// of that name the last one that ducks decides.
pub open spec fn trigger_of(groups: Seq<GroupView>, name: Seq<char>) -> Option<Seq<char>> {
    match ducker_upto(groups, name, groups.len() as int) {
        Some(i) => Some(groups[i].duck->0.trigger),
        None => None,
    }
}

/// The name reached from `start` by `k` steps from a group to its trigger.
pub open spec fn chain_of(groups: Seq<GroupView>, start: Seq<char>, k: nat) -> Option<Seq<char>>
    decreases k,
{
    if k == 0 {
        Some(start)
    } else {
        match chain_of(groups, start, (k - 1) as nat) {
            Some(name) => trigger_of(groups, name),
            None => None,
        }
    }
}

/// Following the triggers from `start` leads back to it.
pub open spec fn in_cycle(groups: Seq<GroupView>, start: Seq<char>) -> bool {
    exists|k: nat| k >= 1 && #[trigger] chain_of(groups, start, k) == Some(start)
}

/// Position of the first group at or after `from` that ducks on a trigger
/// that is no group.
pub open spec fn stray_from(groups: Seq<GroupView>, from: int) -> Option<int>
    decreases groups.len() - from,
{
    if from < 0 || from >= groups.len() {
        None
    } else {
        match trigger_of(groups, groups[from].name) {
            Some(trigger) => if group_named(groups, trigger) is None {
                Some(from)
            } else {
                stray_from(groups, from + 1)
            },
            None => stray_from(groups, from + 1),
        }
    }
}

/// Position of the first group at or after `from` whose triggers lead back
/// to it.
pub open spec fn cycle_from(groups: Seq<GroupView>, from: int) -> Option<int>
    decreases groups.len() - from,
{
    if from < 0 || from >= groups.len() {
        None
    } else if in_cycle(groups, groups[from].name) {
        Some(from)
    } else {
        cycle_from(groups, from + 1)
    }
}

/// What is said of a trigger that is no group.
pub open spec fn stray_trigger(name: Seq<char>, trigger: Seq<char>) -> Seq<char> {
    "group '"@ + name + "': duck trigger '"@ + trigger + "' not found"@
}

/// What is said of a group that ducks on itself, over any number of steps.
pub open spec fn cycle_at(name: Seq<char>) -> Seq<char> {
    "duck cycle detected involving group '"@ + name + "'"@
}

/// What is wrong with the ducking of the groups as a whole: a trigger that is
/// no group, or else a cycle.
pub open spec fn duck_fault(groups: Seq<GroupView>) -> Option<Seq<char>> {
    match stray_from(groups, 0) {
        Some(i) => Some(stray_trigger(groups[i].name, trigger_of(groups, groups[i].name)->0)),
        None => match cycle_from(groups, 0) {
            Some(i) => Some(cycle_at(groups[i].name)),
            None => None,
        },
    }
}

proof fn lemma_ducker_upto(groups: Seq<GroupView>, name: Seq<char>, n: int)
    requires
        n <= groups.len(),
    ensures
        match ducker_upto(groups, name, n) {
            Some(i) => 0 <= i < n && groups[i].name == name && groups[i].duck is Some,
            None => true,
        },
    decreases n,
{
    if n > 0 {
        lemma_ducker_upto(groups, name, n - 1);
    }
}

fn last_ducker(groups: &Vec<GroupConfig>, name: &str) -> (r: Option<usize>)
    ensures
        match r {
            Some(i) => i < groups@.len() && ducker_upto(
                groups.deep_view(),
                name@,
                groups@.len() as int,
            ) == Some(i as int) && groups@[i as int].duck is Some,
            None => ducker_upto(groups.deep_view(), name@, groups@.len() as int) is None,
        },
{
    let mut n: usize = groups.len();
    while n > 0
        invariant
            n <= groups.len(),
            ducker_upto(groups.deep_view(), name@, groups@.len() as int) == ducker_upto(
                groups.deep_view(),
                name@,
                n as int,
            ),
        decreases n,
    {
        let i: usize = n - 1;
        if same_text(&groups[i].name, name) && groups[i].duck.is_some() {
            return Some(i);
        }
        n = n - 1;
    }
    None
}

fn trigger_name(groups: &Vec<GroupConfig>, name: &str) -> (r: Option<String>)
    ensures
        r.deep_view() == trigger_of(groups.deep_view(), name@),
{
    match last_ducker(groups, name) {
        Some(i) => match &groups[i].duck {
            Some(duck) => Some(duck.trigger.clone()),
            None => None,
        },
        None => None,
    }
}

/// Two places on one chain that hold the same name go on alike.
proof fn lemma_chain_shift(groups: Seq<GroupView>, start: Seq<char>, i: nat, j: nat, d: nat)
    requires
        chain_of(groups, start, i) == chain_of(groups, start, j),
    ensures
        chain_of(groups, start, i + d) == chain_of(groups, start, j + d),
    decreases d,
{
    if d > 0 {
        lemma_chain_shift(groups, start, i, j, (d - 1) as nat);
    }
}

proof fn lemma_chain_prefix(groups: Seq<GroupView>, start: Seq<char>, i: nat, k: nat)
    requires
        i <= k,
        chain_of(groups, start, k) is Some,
    ensures
        chain_of(groups, start, i) is Some,
    decreases k - i,
{
    if i < k {
        lemma_chain_prefix(groups, start, i, (k - 1) as nat);
    }
}

/// A chain that leads back to its start does so within as many steps as there
/// are groups: the names on the way are distinct, and each is a group's.
proof fn lemma_short_cycle(groups: Seq<GroupView>, start: Seq<char>)
    requires
        in_cycle(groups, start),
    ensures
        exists|k: nat|
            1 <= k <= groups.len() && #[trigger] chain_of(groups, start, k) == Some(start),
{
    let any = choose|k: nat| k >= 1 && #[trigger] chain_of(groups, start, k) == Some(start);
    lemma_least_cycle(groups, start, any);
    let k = choose|k: nat|
        1 <= k <= any && #[trigger] chain_of(groups, start, k) == Some(start) && forall|m: nat|
            1 <= m < k ==> chain_of(groups, start, m) != Some(start);
    let at = |i: int|
        ducker_upto(groups, chain_of(groups, start, i as nat)->0, groups.len() as int)->0;
    let places = Seq::<int>::new(k, at);
    assert forall|i: int| 0 <= i < k implies 0 <= #[trigger] places[i] < groups.len()
        && groups[places[i]].name == chain_of(groups, start, i as nat)->0 by {
        lemma_chain_prefix(groups, start, (i + 1) as nat, k);
        lemma_chain_prefix(groups, start, i as nat, k);
        lemma_ducker_upto(groups, chain_of(groups, start, i as nat)->0, groups.len() as int);
        assert(chain_of(groups, start, (i + 1) as nat) == trigger_of(
            groups,
            chain_of(groups, start, i as nat)->0,
        ));
    }
    assert forall|i: int, j: int| 0 <= i < j < k implies places[i] != places[j] by {
        if places[i] == places[j] {
            lemma_chain_prefix(groups, start, i as nat, k);
            lemma_chain_prefix(groups, start, j as nat, k);
            assert(chain_of(groups, start, i as nat) == chain_of(groups, start, j as nat));
            lemma_chain_shift(groups, start, i as nat, j as nat, (k - j) as nat);
            let m: nat = (i + k - j) as nat;
            assert(chain_of(groups, start, m) == Some(start));
            if m == 0 {
                assert(i == 0 && j == k);
            }
        }
    }
    assert(places.no_duplicates());
    lemma_distinct_places(places, groups.len());
}

proof fn lemma_least_cycle(groups: Seq<GroupView>, start: Seq<char>, k: nat)
    requires
        k >= 1,
        chain_of(groups, start, k) == Some(start),
    ensures
        exists|m: nat|
            1 <= m <= k && #[trigger] chain_of(groups, start, m) == Some(start) && forall|l: nat|
                1 <= l < m ==> chain_of(groups, start, l) != Some(start),
    decreases k,
{
    if exists|l: nat| 1 <= l < k && #[trigger] chain_of(groups, start, l) == Some(start) {
        let l = choose|l: nat| 1 <= l < k && #[trigger] chain_of(groups, start, l) == Some(start);
        lemma_least_cycle(groups, start, l);
    }
}

/// Distinct places below `n` are at most `n`.
proof fn lemma_distinct_places(places: Seq<int>, n: nat)
    requires
        places.no_duplicates(),
        forall|i: int| 0 <= i < places.len() ==> 0 <= #[trigger] places[i] < n,
    ensures
        places.len() <= n,
{
    places.unique_seq_to_set();
    let below = vstd::set_lib::set_int_range(0, n as int);
    vstd::set_lib::lemma_int_range(0, n as int);
    assert(places.to_set().subset_of(below)) by {
        assert forall|x: int| places.to_set().contains(x) implies below.contains(x) by {
            let i = choose|i: int| 0 <= i < places.len() && places[i] == x;
            assert(0 <= places[i] < n);
        }
    }
    vstd::set_lib::lemma_len_subset(places.to_set(), below);
}

/// Whether following the triggers from a group leads back to it.
fn leads_back(groups: &Vec<GroupConfig>, start: &str) -> (r: bool)
    ensures
        r == in_cycle(groups.deep_view(), start@),
{
    let ghost g = groups.deep_view();
    let mut current: String = start.to_owned();
    let mut steps: usize = 0;
    while steps < groups.len()
        invariant
            steps <= groups.len(),
            g == groups.deep_view(),
            chain_of(g, start@, steps as nat) == Some(current@),
            forall|k: nat| 1 <= k <= steps ==> #[trigger] chain_of(g, start@, k) != Some(start@),
        decreases groups.len() - steps,
    {
        match trigger_name(groups, &current) {
            None => {
                proof {
                    if in_cycle(g, start@) {
                        lemma_short_cycle(g, start@);
                        let k = choose|k: nat|
                            1 <= k <= g.len() && #[trigger] chain_of(g, start@, k) == Some(start@);
                        assert(chain_of(g, start@, (steps + 1) as nat) is None);
                        lemma_chain_prefix(g, start@, (steps + 1) as nat, k);
                    }
                }
                return false;
            },
            Some(next) => {
                assert(chain_of(g, start@, (steps + 1) as nat) == Some(next@));
                if same_text(&next, start) {
                    return true;
                }
                current = next;
            },
        }
        steps = steps + 1;
    }
    proof {
        if in_cycle(g, start@) {
            lemma_short_cycle(g, start@);
        }
    }
    false
}

/// Checks the ducking of the groups as a whole: every trigger is a group, and
/// following the triggers never leads back to where it started.
pub fn validate_duck_config(groups: &Vec<GroupConfig>) -> (r: Result<(), ConfigError>)
    ensures
        match r {
            Ok(()) => duck_fault(groups.deep_view()) is None,
            Err(e) => duck_fault(groups.deep_view()) is Some && e.deep_view() == invalid(
                duck_fault(groups.deep_view())->0,
            ),
        },
{
    let ghost g = groups.deep_view();
    let mut i: usize = 0;
    while i < groups.len()
        invariant
            i <= groups.len(),
            g == groups.deep_view(),
            stray_from(g, 0) == stray_from(g, i as int),
        decreases groups.len() - i,
    {
        let name = &groups[i].name;
        assert(g[i as int].name == name@);
        match trigger_name(groups, name) {
            None => {},
            Some(trigger) => {
                if crate::delta::group_index(groups, &trigger).is_none() {
                    let message = String::from_str("group '").concat(name.as_str()).concat(
                        "': duck trigger '",
                    ).concat(trigger.as_str()).concat("' not found");
                    return Err(refuse(message));
                }
            },
        }
        i = i + 1;
    }
    i = 0;
    while i < groups.len()
        invariant
            i <= groups.len(),
            g == groups.deep_view(),
            stray_from(g, 0) is None,
            cycle_from(g, 0) == cycle_from(g, i as int),
        decreases groups.len() - i,
    {
        let name = &groups[i].name;
        assert(g[i as int].name == name@);
        if leads_back(groups, name) {
            let message = String::from_str("duck cycle detected involving group '").concat(
                name.as_str(),
            ).concat("'");
            return Err(refuse(message));
        }
        i = i + 1;
    }
    Ok(())
}

proof fn lemma_stray_from(groups: Seq<GroupView>, from: int, i: int)
    requires
        0 <= from <= i < groups.len(),
        stray_from(groups, from) is None,
        trigger_of(groups, groups[i].name) is Some,
    ensures
        group_named(groups, trigger_of(groups, groups[i].name)->0) is Some,
    decreases i - from,
{
    if from < i {
        lemma_stray_from(groups, from + 1, i);
    }
}

proof fn lemma_cycle_from(groups: Seq<GroupView>, from: int, i: int)
    requires
        0 <= from <= i < groups.len(),
        cycle_from(groups, from) is None,
    ensures
        !in_cycle(groups, groups[i].name),
    decreases i - from,
{
    if from < i {
        lemma_cycle_from(groups, from + 1, i);
    }
}

/// Where nothing is wrong with the ducking, every trigger is a group, and no
/// chain of triggers from a group leads back to it, however long.
pub proof fn sound_ducking_has_no_cycles(groups: Seq<GroupView>, i: int)
    requires
        duck_fault(groups) is None,
        0 <= i < groups.len(),
    ensures
        trigger_of(groups, groups[i].name) matches Some(trigger) ==> group_named(groups, trigger)
            is Some,
        !in_cycle(groups, groups[i].name),
{
    lemma_cycle_from(groups, 0, i);
    if trigger_of(groups, groups[i].name) is Some {
        lemma_stray_from(groups, 0, i);
    }
}

/// A group of a profile, or the first of its errors: gain, then chain.
pub open spec fn profile_group_read(raw: RawProfileGroupView) -> Result<
    ProfileGroupView,
    ConfigErrorView,
> {
    match gain_read(raw.gain) {
        Err(e) => Err(e),
        Ok(gain) => match chain_read(raw.dsp) {
            Err(e) => Err(e),
            Ok(dsp) => Ok(
                ProfileGroupView {
                    name: raw.name,
                    gain,
                    follow_master: raw.follow_master,
                    output_device: raw.output_device,
                    dsp,
                    duck: duck_read(raw.duck),
                    spatial: raw.spatial,
                    muted: raw.muted,
                },
            ),
        },
    }
}

fn convert_profile_group(raw: RawProfileGroup) -> (r: Result<ProfileGroupConfig, ConfigError>)
    ensures
        match r {
            Ok(group) => profile_group_read(raw.deep_view()) == Ok::<_, ConfigErrorView>(
                group.deep_view(),
            ),
            Err(e) => profile_group_read(raw.deep_view()) == Err::<ProfileGroupView, _>(
                e.deep_view(),
            ),
        },
{
    let gain = match read_gain(raw.gain) {
        Ok(gain) => gain,
        Err(e) => {
            return Err(e);
        },
    };
    let dsp = match convert_chain(&raw.dsp) {
        Ok(dsp) => dsp,
        Err(e) => {
            return Err(e);
        },
    };
    let duck = convert_duck(&raw.duck);
    Ok(
        ProfileGroupConfig {
            name: raw.name,
            gain,
            follow_master: raw.follow_master,
            output_device: raw.output_device,
            dsp,
            duck,
            spatial: raw.spatial,
            muted: raw.muted,
        },
    )
}

/// The first `n` groups of a profile, or the error of the first that is not
/// valid.
pub open spec fn profile_groups_read(raw: Seq<RawProfileGroupView>, n: int) -> Result<
    Seq<ProfileGroupView>,
    ConfigErrorView,
>
    decreases n,
{
    if n <= 0 {
        Ok(Seq::empty())
    } else {
        match profile_groups_read(raw, n - 1) {
            Err(e) => Err(e),
            Ok(groups) => match profile_group_read(raw[n - 1]) {
                Ok(group) => Ok(groups.push(group)),
                Err(e) => Err(e),
            },
        }
    }
}

proof fn lemma_profile_groups_error(raw: Seq<RawProfileGroupView>, n: int, m: int)
    requires
        n <= m,
        profile_groups_read(raw, n) is Err,
    ensures
        profile_groups_read(raw, m) == profile_groups_read(raw, n),
    decreases m - n,
{
    if n < m {
        lemma_profile_groups_error(raw, n, m - 1);
    }
}

fn convert_profile_groups(raw: Vec<RawProfileGroup>) -> (r: Result<
    Vec<ProfileGroupConfig>,
    ConfigError,
>)
    ensures
        match r {
            Ok(groups) => profile_groups_read(raw.deep_view(), raw@.len() as int) == Ok::<
                _,
                ConfigErrorView,
            >(groups.deep_view()),
            Err(e) => profile_groups_read(raw.deep_view(), raw@.len() as int) == Err::<
                Seq<ProfileGroupView>,
                _,
            >(e.deep_view()),
        },
{
    let ghost all = raw.deep_view();
    let mut groups: Vec<ProfileGroupConfig> = Vec::new();
    assert(groups.deep_view() =~= Seq::empty());
    let ghost mut n: int = 0;
    for one in iter: raw
        invariant
            all == raw.deep_view(),
            iter.seq().len() == all.len(),
            forall|j: int| 0 <= j < all.len() ==> (#[trigger] iter.seq()[j]).deep_view() == all[j],
            n == iter.index(),
            profile_groups_read(all, n) == Ok::<_, ConfigErrorView>(groups.deep_view()),
    {
        let ghost before = groups.deep_view();
        assert(one.deep_view() == all[n]);
        match convert_profile_group(one) {
            Ok(group) => {
                groups.push(group);
                assert(groups.deep_view() =~= before.push(group.deep_view()));
            },
            Err(e) => {
                proof {
                    lemma_profile_groups_error(all, n + 1, all.len() as int);
                }
                return Err(e);
            },
        }
        proof {
            n = n + 1;
        }
    }
    Ok(groups)
}

/// A profile, or the first of its errors: master, chord, then its groups.
/// Its groups need not be groups of the configuration.
pub open spec fn profile_read(raw: RawProfileView) -> Result<ProfileView, ConfigErrorView> {
    match gain_read(raw.master) {
        Err(e) => Err(e),
        Ok(master) => match chord_read(raw.hotkey) {
            Err(e) => Err(e),
            Ok(hotkey) => match profile_groups_read(raw.group, raw.group.len() as int) {
                Err(e) => Err(e),
                Ok(groups) => Ok(
                    ProfileView { name: raw.name, hotkey, master, muted: raw.muted, groups },
                ),
            },
        },
    }
}

pub fn convert_profile(raw: RawProfile) -> (r: Result<ProfileConfig, ConfigError>)
    ensures
        match r {
            Ok(profile) => profile_read(raw.deep_view()) == Ok::<_, ConfigErrorView>(
                profile.deep_view(),
            ),
            Err(e) => profile_read(raw.deep_view()) == Err::<ProfileView, _>(e.deep_view()),
        },
{
    let master = match read_gain(raw.master) {
        Ok(gain) => gain,
        Err(e) => {
            return Err(e);
        },
    };
    let hotkey = match parse_hotkey(&raw.hotkey) {
        Ok(chord) => chord,
        Err(e) => {
            return Err(e);
        },
    };
    let groups = match convert_profile_groups(raw.group) {
        Ok(groups) => groups,
        Err(e) => {
            return Err(e);
        },
    };
    Ok(ProfileConfig { name: raw.name, hotkey, master, muted: raw.muted, groups })
}

/// The first `n` profiles, or the error of the first that is not valid.
pub open spec fn profiles_read(raw: Seq<RawProfileView>, n: int) -> Result<
    Seq<ProfileView>,
    ConfigErrorView,
>
    decreases n,
{
    if n <= 0 {
        Ok(Seq::empty())
    } else {
        match profiles_read(raw, n - 1) {
            Err(e) => Err(e),
            Ok(profiles) => match profile_read(raw[n - 1]) {
                Ok(profile) => Ok(profiles.push(profile)),
                Err(e) => Err(e),
            },
        }
    }
}

proof fn lemma_profiles_error(raw: Seq<RawProfileView>, n: int, m: int)
    requires
        n <= m,
        profiles_read(raw, n) is Err,
    ensures
        profiles_read(raw, m) == profiles_read(raw, n),
    decreases m - n,
{
    if n < m {
        lemma_profiles_error(raw, n, m - 1);
    }
}

fn convert_profiles(raw: Vec<RawProfile>) -> (r: Result<Vec<ProfileConfig>, ConfigError>)
    ensures
        match r {
            Ok(profiles) => profiles_read(raw.deep_view(), raw@.len() as int) == Ok::<
                _,
                ConfigErrorView,
            >(profiles.deep_view()),
            Err(e) => profiles_read(raw.deep_view(), raw@.len() as int) == Err::<
                Seq<ProfileView>,
                _,
            >(e.deep_view()),
        },
{
    let ghost all = raw.deep_view();
    let mut profiles: Vec<ProfileConfig> = Vec::new();
    assert(profiles.deep_view() =~= Seq::empty());
    let ghost mut n: int = 0;
    for one in iter: raw
        invariant
            all == raw.deep_view(),
            iter.seq().len() == all.len(),
            forall|j: int| 0 <= j < all.len() ==> (#[trigger] iter.seq()[j]).deep_view() == all[j],
            n == iter.index(),
            profiles_read(all, n) == Ok::<_, ConfigErrorView>(profiles.deep_view()),
    {
        let ghost before = profiles.deep_view();
        assert(one.deep_view() == all[n]);
        match convert_profile(one) {
            Ok(profile) => {
                profiles.push(profile);
                assert(profiles.deep_view() =~= before.push(profile.deep_view()));
            },
            Err(e) => {
                proof {
                    lemma_profiles_error(all, n + 1, all.len() as int);
                }
                return Err(e);
            },
        }
        proof {
            n = n + 1;
        }
    }
    Ok(profiles)
}

/// The four chords of the master, or the error of the first that is not one.
pub open spec fn hotkeys_read(raw: RawHotkeysView) -> Result<HotkeyMap, ConfigErrorView> {
    match chord_read(raw.mute_master) {
        Err(e) => Err(e),
        Ok(mute_master) => match chord_read(raw.push_to_mute) {
            Err(e) => Err(e),
            Ok(push_to_mute) => match chord_read(raw.master_volume_up) {
                Err(e) => Err(e),
                Ok(master_volume_up) => match chord_read(raw.master_volume_down) {
                    Err(e) => Err(e),
                    Ok(master_volume_down) => Ok(
                        HotkeyMap {
                            mute_master,
                            push_to_mute,
                            master_volume_up,
                            master_volume_down,
                        },
                    ),
                },
            },
        },
    }
}

fn convert_hotkeys(raw: &RawHotkeys) -> (r: Result<HotkeyMap, ConfigError>)
    ensures
        match r {
            Ok(map) => hotkeys_read(raw.deep_view()) == Ok::<_, ConfigErrorView>(map),
            Err(e) => hotkeys_read(raw.deep_view()) == Err::<HotkeyMap, _>(e.deep_view()),
        },
{
    let mute_master = match parse_hotkey(&raw.mute_master) {
        Ok(chord) => chord,
        Err(e) => {
            return Err(e);
        },
    };
    let push_to_mute = match parse_hotkey(&raw.push_to_mute) {
        Ok(chord) => chord,
        Err(e) => {
            return Err(e);
        },
    };
    let master_volume_up = match parse_hotkey(&raw.master_volume_up) {
        Ok(chord) => chord,
        Err(e) => {
            return Err(e);
        },
    };
    let master_volume_down = match parse_hotkey(&raw.master_volume_down) {
        Ok(chord) => chord,
        Err(e) => {
            return Err(e);
        },
    };
    Ok(HotkeyMap { mute_master, push_to_mute, master_volume_up, master_volume_down })
}

/// What is said of a schema that is too new.
pub open spec fn newer_schema(version: u32) -> Seq<char> {
    "schema_version "@ + decimal(version as nat) + " is newer than supported "@ + decimal(
        SUPPORTED_SCHEMA_VERSION as nat,
    )
}

/// The configuration that the values of a file make, or the first error in
/// the order in which they are checked: schema, master, groups, ducking as a
/// whole, chords, profiles, theme, accent.
pub open spec fn config_read(raw: RawConfigView) -> Result<SnapshotView, ConfigErrorView> {
    if raw.schema_version > SUPPORTED_SCHEMA_VERSION {
        Err(invalid(newer_schema(raw.schema_version)))
    } else {
        match gain_read(raw.master) {
            Err(e) => Err(e),
            Ok(master) => match groups_read(raw.group, raw.group.len() as int) {
                Err(e) => Err(e),
                Ok(groups) => match duck_fault(groups) {
                    Some(text) => Err(invalid(text)),
                    None => match hotkeys_read(raw.hotkeys) {
                        Err(e) => Err(e),
                        Ok(hotkeys) => match profiles_read(raw.profile, raw.profile.len() as int) {
                            Err(e) => Err(e),
                            Ok(profiles) => match theme_read(raw.app.theme) {
                                Err(e) => Err(e),
                                Ok(theme) => match accent_read(raw.app.accent) {
                                    Err(e) => Err(e),
                                    Ok(accent) => Ok(
                                        SnapshotView {
                                            schema_version: raw.schema_version,
                                            master,
                                            muted: raw.muted,
                                            groups,
                                            app: AppView {
                                                autostart: raw.app.autostart,
                                                hotkeys,
                                                active_profile: raw.app.active_profile,
                                                volume_bind: raw.app.volume_bind,
                                                theme,
                                                accent,
                                                sink_device: raw.app.sink_device,
                                                manage_default: raw.app.manage_default,
                                                previous_default: raw.app.previous_default,
                                                excluded: raw.app.excluded,
                                            },
                                            profiles,
                                        },
                                    ),
                                },
                            },
                        },
                    },
                },
            },
        }
    }
}

/// Checks the values of a file and makes a configuration of them.
pub fn parse(raw: RawConfig) -> (r: Result<ConfigSnapshot, ConfigError>)
    ensures
        match r {
            Ok(snapshot) => config_read(raw.deep_view()) == Ok::<_, ConfigErrorView>(
                snapshot.deep_view(),
            ),
            Err(e) => config_read(raw.deep_view()) == Err::<SnapshotView, _>(e.deep_view()),
        },
{
    if raw.schema_version > SUPPORTED_SCHEMA_VERSION {
        let found = decimal_of(raw.schema_version as usize);
        let supported = decimal_of(SUPPORTED_SCHEMA_VERSION as usize);
        let message = String::from_str("schema_version ").concat(found.as_str()).concat(
            " is newer than supported ",
        ).concat(supported.as_str());
        return Err(refuse(message));
    }
    let master = match read_gain(raw.master) {
        Ok(gain) => gain,
        Err(e) => {
            return Err(e);
        },
    };
    let groups = match convert_groups(raw.group) {
        Ok(groups) => groups,
        Err(e) => {
            return Err(e);
        },
    };
    match validate_duck_config(&groups) {
        Ok(()) => {},
        Err(e) => {
            return Err(e);
        },
    }
    let hotkeys = match convert_hotkeys(&raw.hotkeys) {
        Ok(map) => map,
        Err(e) => {
            return Err(e);
        },
    };
    let profiles = match convert_profiles(raw.profile) {
        Ok(profiles) => profiles,
        Err(e) => {
            return Err(e);
        },
    };
    let theme = match parse_theme(&raw.app.theme) {
        Ok(theme) => theme,
        Err(e) => {
            return Err(e);
        },
    };
    let accent = match parse_accent(&raw.app.accent) {
        Ok(accent) => accent,
        Err(e) => {
            return Err(e);
        },
    };
    Ok(
        ConfigSnapshot {
            schema_version: raw.schema_version,
            master,
            muted: raw.muted,
            groups,
            app: AppConfig {
                autostart: raw.app.autostart,
                hotkeys,
                active_profile: raw.app.active_profile,
                volume_bind: raw.app.volume_bind,
                theme,
                accent,
                sink_device: raw.app.sink_device,
                manage_default: raw.app.manage_default,
                previous_default: raw.app.previous_default,
                excluded: raw.app.excluded,
            },
            profiles,
        },
    )
}

/// The values of a file that sets up nothing: the newest schema, full level, an
/// application that starts with the system, and nothing else.
pub open spec fn seeded() -> RawConfigView {
    RawConfigView {
        schema_version: SUPPORTED_SCHEMA_VERSION,
        master: Float32 { bits: 0x3f80_0000 },
        muted: false,
        group: Seq::empty(),
        app: RawAppConfigView {
            autostart: true,
            active_profile: None,
            volume_bind: None,
            theme: None,
            accent: None,
            sink_device: None,
            manage_default: false,
            previous_default: None,
            excluded: Seq::empty(),
        },
        hotkeys: RawHotkeysView {
            mute_master: None,
            push_to_mute: None,
            master_volume_up: None,
            master_volume_down: None,
        },
        profile: Seq::empty(),
    }
}

/// A switch as a file spells it.
pub open spec fn flag_text(on: bool) -> Seq<char> {
    if on {
        "true"@
    } else {
        "false"@
    }
}

/// A file at full level that spells out its schema, its mute and its autostart,
/// and leaves the rest to the defaults.
pub open spec fn seed_text(raw: RawConfigView) -> Seq<char> {
    "# Splitstream configuration.\n# No audio group is configured yet — first-run onboarding adds one once you\n# pick an output device to route apps through.\nschema_version = "@
        + decimal(raw.schema_version as nat) + "\nmaster = 1.0\nmuted = "@ + flag_text(raw.muted)
        + "\n\n[app]\nautostart = "@ + flag_text(raw.app.autostart) + "\n"@
}

/// The seed of a new configuration file. It names no device, since none would
/// be right on every machine; the first group comes with onboarding.
pub fn default_config_template() -> (r: String)
    ensures
        r@ == seed_text(seeded()),
{
    let version = decimal_of(SUPPORTED_SCHEMA_VERSION as usize);
    String::from_str(
        "# Splitstream configuration.\n# No audio group is configured yet — first-run onboarding adds one once you\n# pick an output device to route apps through.\nschema_version = ",
    ).concat(version.as_str()).concat("\nmaster = 1.0\nmuted = ").concat("false").concat(
        "\n\n[app]\nautostart = ",
    ).concat("true").concat("\n")
}

/// The values that the seed spells are a valid configuration: of the newest
/// schema, at full level and not muted, started with the system, without groups
/// or profiles, and without a device anywhere.
pub proof fn the_seed_is_valid()
    ensures
        config_read(seeded()) is Ok,
        sound(config_read(seeded())->Ok_0),
        ({
            let s = config_read(seeded())->Ok_0;
            &&& s.schema_version == SUPPORTED_SCHEMA_VERSION
            &&& s.master.bits == 0x3f80_0000
            &&& !s.muted
            &&& s.app.autostart
            &&& s.groups.len() == 0
            &&& s.profiles.len() == 0
            &&& s.app.sink_device is None
            &&& s.app.previous_default is None
        }),
{
}

proof fn lemma_groups_read_ok(raw: Seq<RawGroupView>, n: int)
    requires
        0 <= n <= raw.len(),
        groups_read(raw, n) is Ok,
    ensures
        groups_read(raw, n)->Ok_0.len() == n,
        forall|i: int|
            0 <= i < n ==> group_read(#[trigger] raw[i]) == Ok::<_, ConfigErrorView>(
                groups_read(raw, n)->Ok_0[i],
            ),
    decreases n,
{
    if n > 0 {
        lemma_groups_read_ok(raw, n - 1);
    }
}

/// What every configuration keeps that was read from a file: a schema that is
/// understood, gains that are gains, and ducking without stray triggers or
/// cycles.
pub open spec fn sound(s: SnapshotView) -> bool {
    &&& s.schema_version <= SUPPORTED_SCHEMA_VERSION
    &&& valid_gain(s.master)
    &&& forall|i: int| 0 <= i < s.groups.len() ==> valid_gain((#[trigger] s.groups[i]).gain)
    &&& duck_fault(s.groups) is None
}

/// A configuration that was read is sound, and has a group for each group of
/// the file, under its name and in its order.
pub proof fn read_configurations_are_sound(raw: RawConfigView)
    requires
        config_read(raw) is Ok,
    ensures
        sound(config_read(raw)->Ok_0),
        config_read(raw)->Ok_0.groups.len() == raw.group.len(),
        forall|i: int|
            0 <= i < raw.group.len() ==> (#[trigger] config_read(raw)->Ok_0.groups[i]).name
                == raw.group[i].name,
{
    lemma_groups_read_ok(raw.group, raw.group.len() as int);
    let s = config_read(raw)->Ok_0;
    assert forall|i: int| 0 <= i < s.groups.len() implies valid_gain((#[trigger] s.groups[i]).gain)
        && s.groups[i].name == raw.group[i].name by {
        assert(group_read(raw.group[i]) == Ok::<_, ConfigErrorView>(s.groups[i]));
    }
}

/// A group that is read is as it stands in the file, setting by setting: nothing of it
/// is lost, swapped or made up.
pub proof fn a_group_is_read_as_it_stands(raw: RawGroupView, g: GroupView)
    requires
        group_read(raw) == Ok::<_, ConfigErrorView>(g),
    ensures
        g.name == raw.name && g.output_device == raw.output_device,
        g.gain == raw.gain,
        g.follow_master == raw.follow_master && g.spatial == raw.spatial && g.muted == raw.muted,
        g.match_rules == raw.match_rules,
        g.duck is Some <==> raw.duck is Some,
        raw.duck matches Some(d) ==> g.duck->0.trigger == d.trigger && g.duck->0.amount_db
            == d.amount_db && g.duck->0.threshold_db == d.threshold_db && g.duck->0.attack_ms
            == d.attack_ms && g.duck->0.release_ms == d.release_ms,
        chord_read(raw.hotkey_mute) == Ok::<_, ConfigErrorView>(g.hotkey_mute),
        chord_read(raw.hotkey_volume_up) == Ok::<_, ConfigErrorView>(g.hotkey_volume_up),
        chord_read(raw.hotkey_volume_down) == Ok::<_, ConfigErrorView>(g.hotkey_volume_down),
        chain_read(raw.dsp) == Ok::<_, ConfigErrorView>(g.dsp),
{
}

/// A stage that is read is of the kind, with the settings and with the switch that the
/// file has.
pub proof fn a_stage_is_read_as_it_stands(raw: RawDspStageView, stage: DspStageView, b: int)
    requires
        stage_read(raw) == Ok::<_, ConfigErrorView>(stage),
    ensures
        match (raw, stage.spec) {
            (RawDspStageView::Eq { bands: raw_bands, bypassed }, DspSpecView::Eq { bands }) => {
                &&& stage.bypassed == bypassed
                &&& bands.len() == raw_bands.len()
                &&& 0 <= b < bands.len() ==> bands[b].freq_hz == raw_bands[b].freq_hz
                    && bands[b].gain_db == raw_bands[b].gain_db && bands[b].q == raw_bands[b].q
            },
            (
                RawDspStageView::Limiter { ceiling_db: raw_db, bypassed },
                DspSpecView::Limiter { ceiling_db },
            ) => stage.bypassed == bypassed && ceiling_db == raw_db,
            _ => false,
        },
{
    if let RawDspStageView::Eq { bands, bypassed } = raw {
        lemma_bands_read(bands, bands.len() as int, b);
    }
}

proof fn lemma_bands_read(raw: Seq<RawEqBandView>, n: int, b: int)
    requires
        0 <= n <= raw.len(),
        bands_read(raw, n) is Ok,
    ensures
        bands_read(raw, n)->Ok_0.len() == n,
        0 <= b < n ==> bands_read(raw, n)->Ok_0[b] == (EqBandSpec {
            freq_hz: raw[b].freq_hz,
            gain_db: raw[b].gain_db,
            q: raw[b].q,
        }),
    decreases n,
{
    if n > 0 {
        lemma_bands_read(raw, n - 1, b);
    }
}

} // verus!
