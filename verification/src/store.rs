//! The single write path for edits: what an edit does to the document of the
//! configuration, and when it is refused.
//!
//! An edit becomes a list of operations on the document ([`DocOp`]). The
//! store keeps its own document across edits rather than reading the file
//! each time, and with it the syntax tree of the file, which keeps comments and
//! layout. A batch is tried on a draft; only a draft that reads as a valid
//! configuration and was written takes the place of the document.
use crate::config::{invalid, ConfigError, ConfigErrorView, Refusal};
use crate::doc::{
    after_op, after_ops, changed_at, copy_table, get, item_view, put, set_then_get,
    table_shaped, table_view, tables_at, tables_view, text_at, Change, ChangeView, DocOp,
    Entries, Item, ItemView, OpView, Step, StepView, Section, Value, ValueView,
};
use crate::dsp::{DspSpec, DspSpecView, EqBandSpec};
use crate::edit::{ConfigEdit, EditView};
use crate::float::Float32;
use crate::chord::{chord_text, HotkeyChord};
use crate::model::{
    AccentChoice, ConfigSnapshot, DspStageConfig, DspStageView, DuckSpecConfig, DuckView,
    GroupConfig, GroupView, ProfileConfig, ProfileGroupConfig, ProfileGroupView, ProfileView,
    SnapshotView, ThemeChoice,
};
use crate::sample::Gain;
use crate::text::{copy_texts, decimal, decimal_of, quote, quoted};
use crate::tree::{
    all_writable, change_writable, document_contents, document_of, document_outline, edited,
    edits_keep_comments, ending, item_writable, leads_kept, lemma_writable_put, mirrors,
    open_document, printed, relaid_ops, spelled_well, spells_numbers, writable,
};
use vstd::prelude::*;

verus! {

/// Why an edit was refused.
#[derive(Debug, Clone, PartialEq)]
pub enum StoreError {
    Io(String),
    Validation(ConfigError),
}

/// What a [`StoreError`] says.
pub enum StoreErrorView {
    Io(Seq<char>),
    Validation(ConfigErrorView),
}

impl DeepView for StoreError {
    type V = StoreErrorView;

    open spec fn deep_view(&self) -> StoreErrorView {
        match self {
            StoreError::Io(text) => StoreErrorView::Io(text@),
            StoreError::Validation(e) => StoreErrorView::Validation(e.deep_view()),
        }
    }
}

/// The refusal that says `text`.
pub open spec fn refused(text: Seq<char>) -> StoreErrorView {
    StoreErrorView::Validation(invalid(text))
}

fn refusal(text: String) -> (r: StoreError)
    ensures
        r.deep_view() == refused(text@),
{
    StoreError::Validation(ConfigError::Invalid(Refusal::Message(text)))
}

pub open spec fn no_such_group_text(name: Seq<char>) -> Seq<char> {
    "no group named "@ + quoted(name)
}

pub open spec fn no_such_profile_text(name: Seq<char>) -> Seq<char> {
    "no profile named "@ + quoted(name)
}

pub open spec fn malformed_shape_text(
    group: Seq<char>,
    key: Seq<char>,
    expected: Seq<char>,
) -> Seq<char> {
    "group "@ + quoted(group) + ": `"@ + key + "` must be written as `"@ + expected
        + "` blocks, not an inline array/table, to support live edits"@
}

pub open spec fn malformed_app_text() -> Seq<char> {
    "`app` must be written as a `[app]` table, not an inline table, to support live edits"@
}

pub open spec fn no_such_stage_text(group: Seq<char>, stage_type: Seq<char>) -> Seq<char> {
    "group "@ + quoted(group) + " has no "@ + stage_type + " dsp stage"@
}

pub open spec fn no_such_stage_index_text(group: Seq<char>, index: usize) -> Seq<char> {
    "group "@ + quoted(group) + " has no dsp stage at index "@ + decimal(index as nat)
}

pub open spec fn no_such_band_text(group: Seq<char>, index: usize) -> Seq<char> {
    "group "@ + quoted(group) + "'s eq stage has no band at index "@ + decimal(index as nat)
}

/// No group bears the name.
pub fn no_such_group(name: &str) -> (r: StoreError)
    ensures
        r.deep_view() == refused(no_such_group_text(name@)),
{
    let shown = quote(name);
    refusal(String::from_str("no group named ").concat(shown.as_str()))
}

/// No profile bears the name.
pub fn no_such_profile(name: &str) -> (r: StoreError)
    ensures
        r.deep_view() == refused(no_such_profile_text(name@)),
{
    let shown = quote(name);
    refusal(String::from_str("no profile named ").concat(shown.as_str()))
}

/// A key of the group is written in a shape that the file may have but that
/// cannot be edited in place.
pub fn malformed_shape(group: &str, key: &str, expected: &str) -> (r: StoreError)
    ensures
        r.deep_view() == refused(malformed_shape_text(group@, key@, expected@)),
{
    let shown = quote(group);
    refusal(
        String::from_str("group ").concat(shown.as_str()).concat(": `").concat(key).concat(
            "` must be written as `",
        ).concat(expected).concat("` blocks, not an inline array/table, to support live edits"),
    )
}

/// The settings of the shell are written as an inline table.
pub fn malformed_app_shape() -> (r: StoreError)
    ensures
        r.deep_view() == refused(malformed_app_text()),
{
    refusal(
        String::from_str(
            "`app` must be written as a `[app]` table, not an inline table, to support live edits",
        ),
    )
}

/// The group's chain has no stage of the type.
pub fn no_such_dsp_stage(group: &str, stage_type: &str) -> (r: StoreError)
    ensures
        r.deep_view() == refused(no_such_stage_text(group@, stage_type@)),
{
    let shown = quote(group);
    refusal(
        String::from_str("group ").concat(shown.as_str()).concat(" has no ").concat(
            stage_type,
        ).concat(" dsp stage"),
    )
}

/// The group's chain has no stage there.
pub fn no_such_dsp_stage_index(group: &str, index: usize) -> (r: StoreError)
    ensures
        r.deep_view() == refused(no_such_stage_index_text(group@, index)),
{
    let shown = quote(group);
    let at = decimal_of(index);
    refusal(
        String::from_str("group ").concat(shown.as_str()).concat(
            " has no dsp stage at index ",
        ).concat(at.as_str()),
    )
}

/// The stage has no band there.
pub fn no_such_band(group: &str, index: usize) -> (r: StoreError)
    ensures
        r.deep_view() == refused(no_such_band_text(group@, index)),
{
    let shown = quote(group);
    let at = decimal_of(index);
    refusal(
        String::from_str("group ").concat(shown.as_str()).concat(
            "'s eq stage has no band at index ",
        ).concat(at.as_str()),
    )
}

/// An item that holds a text.
pub open spec fn text_item(text: Seq<char>) -> ItemView {
    ItemView::Value(ValueView::Text(text))
}

/// An item that holds a switch.
pub open spec fn flag_item(on: bool) -> ItemView {
    ItemView::Value(ValueView::Flag(on))
}

/// An item that holds a number.
pub open spec fn number_item(number: Float32) -> ItemView {
    ItemView::Value(ValueView::Number(number))
}

/// An item that holds a list of texts.
pub open spec fn texts_item(texts: Seq<Seq<char>>) -> ItemView {
    ItemView::Value(ValueView::Texts(texts))
}

fn text_value(text: &str) -> (r: Item)
    ensures
        item_view(r) == text_item(text@),
{
    Item::Value(Value::Text(text.to_owned()))
}

fn flag_value(on: bool) -> (r: Item)
    ensures
        item_view(r) == flag_item(on),
{
    Item::Value(Value::Flag(on))
}

fn number_value(number: Float32) -> (r: Item)
    ensures
        item_view(r) == number_item(number),
{
    Item::Value(Value::Number(number))
}

fn gain_value(gain: Gain) -> (r: Item)
    ensures
        item_view(r) == number_item(gain.deep_view()),
{
    Item::Value(Value::Number(gain.value()))
}

fn string_array(texts: &Vec<String>) -> (r: Item)
    ensures
        item_view(r) == texts_item(texts.deep_view()),
{
    Item::Value(Value::Texts(copy_texts(texts)))
}

/// The table of one band.
pub open spec fn band_entries(band: EqBandSpec) -> Entries {
    let t = put(Seq::empty(), "freq_hz"@, number_item(band.freq_hz));
    let t = put(t, "gain_db"@, number_item(band.gain_db));
    put(t, "q"@, number_item(band.q))
}

/// The tables of a band list.
pub open spec fn bands_entries(bands: Seq<EqBandSpec>) -> Seq<Entries> {
    Seq::new(bands.len(), |i: int| band_entries(bands[i]))
}

/// The table of one stage.
pub open spec fn stage_entries(spec: DspSpecView, bypassed: bool) -> Entries {
    let t = match spec {
        DspSpecView::Eq { bands } => put(
            put(Seq::empty(), "type"@, text_item("eq"@)),
            "bands"@,
            ItemView::Tables(bands_entries(bands)),
        ),
        DspSpecView::Limiter { ceiling_db } => put(
            put(Seq::empty(), "type"@, text_item("limiter"@)),
            "ceiling_db"@,
            number_item(ceiling_db),
        ),
    };
    put(t, "bypassed"@, flag_item(bypassed))
}

/// The tables of a chain.
pub open spec fn chain_entries(stages: Seq<DspStageView>) -> Seq<Entries> {
    Seq::new(stages.len(), |i: int| stage_entries(stages[i].spec, stages[i].bypassed))
}

/// A table with the keys of the ducking set in it.
pub open spec fn with_duck_keys(t: Entries, duck: DuckView) -> Entries {
    let t = put(t, "trigger"@, text_item(duck.trigger));
    let t = put(t, "amount_db"@, number_item(duck.amount_db));
    let t = put(t, "threshold_db"@, number_item(duck.threshold_db));
    let t = put(t, "attack_ms"@, number_item(duck.attack_ms));
    put(t, "release_ms"@, number_item(duck.release_ms))
}

/// A group's table with its chain, which an empty chain leaves out.
pub open spec fn with_chain(t: Entries, stages: Seq<DspStageView>) -> Entries {
    if stages.len() == 0 {
        t
    } else {
        put(t, "dsp"@, ItemView::Tables(chain_entries(stages)))
    }
}

/// A group's table with its ducking, where it has any.
pub open spec fn with_duck(t: Entries, duck: Option<DuckView>) -> Entries {
    match duck {
        None => t,
        Some(d) => put(t, "duck"@, ItemView::Table(with_duck_keys(Seq::empty(), d))),
    }
}

/// A table with a chord, where there is one.
pub open spec fn with_chord(t: Entries, key: Seq<char>, chord: Option<HotkeyChord>) -> Entries {
    match chord {
        None => t,
        Some(c) => put(t, key, text_item(chord_text(c))),
    }
}

/// The settings that a group has for itself and in a profile.
pub open spec fn settings_entries(
    name: Seq<char>,
    output_device: Seq<char>,
    gain: Float32,
    follow_master: bool,
    spatial: bool,
    muted: bool,
) -> Entries {
    let t = put(Seq::empty(), "name"@, text_item(name));
    let t = put(t, "output_device"@, text_item(output_device));
    let t = put(t, "gain"@, number_item(gain));
    let t = put(t, "follow_master"@, flag_item(follow_master));
    let t = put(t, "spatial"@, flag_item(spatial));
    put(t, "muted"@, flag_item(muted))
}

/// The table of a group.
pub open spec fn group_entries(g: GroupView) -> Entries {
    let t = settings_entries(
        g.name,
        g.output_device,
        g.gain,
        g.follow_master,
        g.spatial,
        g.muted,
    );
    let t = put(t, "match_rules"@, texts_item(g.match_rules));
    let t = with_chain(t, g.dsp);
    let t = with_duck(t, g.duck);
    let t = with_chord(t, "hotkey_mute"@, g.hotkey_mute);
    let t = with_chord(t, "hotkey_volume_up"@, g.hotkey_volume_up);
    with_chord(t, "hotkey_volume_down"@, g.hotkey_volume_down)
}

/// The table of a group inside a profile.
pub open spec fn profile_group_entries(g: ProfileGroupView) -> Entries {
    let t = settings_entries(
        g.name,
        g.output_device,
        g.gain,
        g.follow_master,
        g.spatial,
        g.muted,
    );
    let t = with_chain(t, g.dsp);
    with_duck(t, g.duck)
}

/// The tables of the groups of a profile.
pub open spec fn profile_groups_entries(groups: Seq<ProfileGroupView>) -> Seq<Entries> {
    Seq::new(groups.len(), |i: int| profile_group_entries(groups[i]))
}

/// The table of a profile.
pub open spec fn profile_entries(p: ProfileView) -> Entries {
    let t = put(Seq::empty(), "name"@, text_item(p.name));
    let t = with_chord(t, "hotkey"@, p.hotkey);
    let t = put(t, "master"@, number_item(p.master));
    let t = put(t, "muted"@, flag_item(p.muted));
    if p.groups.len() == 0 {
        t
    } else {
        put(t, "group"@, ItemView::Tables(profile_groups_entries(p.groups)))
    }
}

fn band_table(band: &EqBandSpec) -> (r: Section)
    ensures
        table_view(r) == band_entries(*band),
{
    let mut t = Section::new();
    t.set("freq_hz", number_value(band.freq_hz));
    t.set("gain_db", number_value(band.gain_db));
    t.set("q", number_value(band.q));
    t
}

fn bands_item(bands: &Vec<EqBandSpec>) -> (r: Item)
    ensures
        item_view(r) == ItemView::Tables(bands_entries(bands.deep_view())),
{
    let mut out: Vec<Section> = Vec::new();
    let mut i: usize = 0;
    while i < bands.len()
        invariant
            i <= bands.len(),
            out@.len() == i,
            forall|j: int| 0 <= j < i ==> table_view(#[trigger] out@[j]) == band_entries(bands@[j]),
        decreases bands.len() - i,
    {
        out.push(band_table(&bands[i]));
        i = i + 1;
    }
    let r = Item::Tables(out);
    assert(item_view(r)->Tables_0 =~= bands_entries(bands.deep_view()));
    r
}

fn dsp_stage_table(spec: &DspSpec, bypassed: bool) -> (r: Section)
    ensures
        table_view(r) == stage_entries(spec.deep_view(), bypassed),
{
    let mut t = Section::new();
    match spec {
        DspSpec::Eq { bands } => {
            t.set("type", text_value("eq"));
            t.set("bands", bands_item(bands));
        },
        DspSpec::Limiter { ceiling_db } => {
            t.set("type", text_value("limiter"));
            t.set("ceiling_db", number_value(*ceiling_db));
        },
    }
    t.set("bypassed", flag_value(bypassed));
    t
}

fn chain_item(stages: &Vec<DspStageConfig>) -> (r: Item)
    ensures
        item_view(r) == ItemView::Tables(chain_entries(stages.deep_view())),
{
    let mut out: Vec<Section> = Vec::new();
    let mut i: usize = 0;
    while i < stages.len()
        invariant
            i <= stages.len(),
            out@.len() == i,
            forall|j: int|
                0 <= j < i ==> table_view(#[trigger] out@[j]) == stage_entries(
                    stages@[j].spec.deep_view(),
                    stages@[j].bypassed,
                ),
        decreases stages.len() - i,
    {
        out.push(dsp_stage_table(&stages[i].spec, stages[i].bypassed));
        i = i + 1;
    }
    let r = Item::Tables(out);
    assert(item_view(r)->Tables_0 =~= chain_entries(stages.deep_view()));
    r
}

fn write_dsp_stages(t: &mut Section, stages: &Vec<DspStageConfig>)
    ensures
        table_view(*final(t)) == with_chain(table_view(*old(t)), stages.deep_view()),
{
    if stages.len() != 0 {
        t.set("dsp", chain_item(stages));
    }
}

fn write_duck(t: &mut Section, duck: &Option<DuckSpecConfig>)
    ensures
        table_view(*final(t)) == with_duck(table_view(*old(t)), duck.deep_view()),
{
    match duck {
        None => {},
        Some(d) => {
            let mut dt = Section::new();
            dt.set("trigger", text_value(d.trigger.as_str()));
            dt.set("amount_db", number_value(d.amount_db));
            dt.set("threshold_db", number_value(d.threshold_db));
            dt.set("attack_ms", number_value(d.attack_ms));
            dt.set("release_ms", number_value(d.release_ms));
            t.set("duck", Item::Table(dt));
        },
    }
}

fn write_chord(t: &mut Section, key: &str, chord: &Option<HotkeyChord>)
    ensures
        table_view(*final(t)) == with_chord(table_view(*old(t)), key@, *chord),
{
    match chord {
        None => {},
        Some(c) => {
            let text = c.to_text();
            t.set(key, text_value(text.as_str()));
        },
    }
}

/// The table of a group.
pub fn group_table(g: &GroupConfig) -> (r: Section)
    ensures
        table_view(r) == group_entries(g.deep_view()),
{
    let mut t = Section::new();
    t.set("name", text_value(g.name.as_str()));
    t.set("output_device", text_value(g.output_device.as_str()));
    t.set("gain", gain_value(g.gain));
    t.set("follow_master", flag_value(g.follow_master));
    t.set("spatial", flag_value(g.spatial));
    t.set("muted", flag_value(g.muted));
    t.set("match_rules", string_array(&g.match_rules));
    write_dsp_stages(&mut t, &g.dsp);
    write_duck(&mut t, &g.duck);
    write_chord(&mut t, "hotkey_mute", &g.hotkey_mute);
    write_chord(&mut t, "hotkey_volume_up", &g.hotkey_volume_up);
    write_chord(&mut t, "hotkey_volume_down", &g.hotkey_volume_down);
    t
}

fn profile_group_table(g: &ProfileGroupConfig) -> (r: Section)
    ensures
        table_view(r) == profile_group_entries(g.deep_view()),
{
    let mut t = Section::new();
    t.set("name", text_value(g.name.as_str()));
    t.set("output_device", text_value(g.output_device.as_str()));
    t.set("gain", gain_value(g.gain));
    t.set("follow_master", flag_value(g.follow_master));
    t.set("spatial", flag_value(g.spatial));
    t.set("muted", flag_value(g.muted));
    write_dsp_stages(&mut t, &g.dsp);
    write_duck(&mut t, &g.duck);
    t
}

fn profile_groups_item(groups: &Vec<ProfileGroupConfig>) -> (r: Item)
    ensures
        item_view(r) == ItemView::Tables(profile_groups_entries(groups.deep_view())),
{
    let mut out: Vec<Section> = Vec::new();
    let mut i: usize = 0;
    while i < groups.len()
        invariant
            i <= groups.len(),
            out@.len() == i,
            forall|j: int|
                0 <= j < i ==> table_view(#[trigger] out@[j]) == profile_group_entries(
                    groups@[j].deep_view(),
                ),
        decreases groups.len() - i,
    {
        out.push(profile_group_table(&groups[i]));
        i = i + 1;
    }
    let r = Item::Tables(out);
    assert(item_view(r)->Tables_0 =~= profile_groups_entries(groups.deep_view()));
    r
}

/// The table of a profile.
pub fn profile_table(p: &ProfileConfig) -> (r: Section)
    ensures
        table_view(r) == profile_entries(p.deep_view()),
{
    let mut t = Section::new();
    t.set("name", text_value(p.name.as_str()));
    write_chord(&mut t, "hotkey", &p.hotkey);
    t.set("master", gain_value(p.master));
    t.set("muted", flag_value(p.muted));
    if p.groups.len() != 0 {
        t.set("group", profile_groups_item(&p.groups));
    }
    t
}

/// Position of the first table at or after `from` whose `name` is that.
pub open spec fn table_named_from(ts: Seq<Entries>, name: Seq<char>, from: int) -> Option<int>
    decreases ts.len() - from,
{
    if from < 0 || from >= ts.len() {
        None
    } else if text_at(ts[from], "name"@) == Some(name) {
        Some(from)
    } else {
        table_named_from(ts, name, from + 1)
    }
}

/// Position of the first stage at or after `from` of that type.
pub open spec fn stage_typed_from(ts: Seq<Entries>, stage_type: Seq<char>, from: int) -> Option<int>
    decreases ts.len() - from,
{
    if from < 0 || from >= ts.len() {
        None
    } else if text_at(ts[from], "type"@) == Some(stage_type) {
        Some(from)
    } else {
        stage_typed_from(ts, stage_type, from + 1)
    }
}

/// The groups of a document can be edited in place: there are none, or they are
/// an array of table blocks.
pub open spec fn has_groups(doc: Entries) -> bool {
    tables_at(doc, "group"@) is Some
}

/// The profiles of a document can be edited in place.
pub open spec fn has_profiles(doc: Entries) -> bool {
    tables_at(doc, "profile"@) is Some
}

/// An edit of a group, or of the list of them.
pub open spec fn touches_groups(edit: EditView) -> bool {
    match edit {
        EditView::SetGroupGain(_, _) => true,
        EditView::SetFollowMaster(_, _) => true,
        EditView::SetGroupMute(_, _) => true,
        EditView::SetGroupOutput(_, _) => true,
        EditView::AddGroup(_) => true,
        EditView::RemoveGroup(_) => true,
        EditView::SetRules(_, _) => true,
        EditView::SetEqBand(_, _, _, _) => true,
        EditView::SetEqBands(_, _, _) => true,
        EditView::SetLimiterCeiling(_, _) => true,
        EditView::SetDuck(_, _) => true,
        EditView::SetDspBypass(_, _, _) => true,
        EditView::AddDspStage(_, _) => true,
        EditView::RemoveDspStage(_, _) => true,
        EditView::SetSpatial(_, _) => true,
        EditView::SetDspChain(_, _) => true,
        _ => false,
    }
}

/// An edit of a profile, or of the list of them.
pub open spec fn touches_profiles(edit: EditView) -> bool {
    match edit {
        EditView::SetProfile(_) => true,
        EditView::RemoveProfile(_) => true,
        _ => false,
    }
}

/// What an edit touches is in a shape that can be edited.
pub open spec fn fits(doc: Entries, edit: EditView) -> bool {
    &&& touches_groups(edit) ==> has_groups(doc)
    &&& touches_profiles(edit) ==> has_profiles(doc)
}

/// What any of the edits touches is in a shape that can be edited.
pub open spec fn all_fit(doc: Entries, edits: Seq<EditView>) -> bool {
    forall|i: int| 0 <= i < edits.len() ==> fits(doc, #[trigger] edits[i])
}

/// What could be edited before can be edited after.
pub open spec fn shapes_kept(before: Entries, after: Entries) -> bool {
    &&& has_groups(before) ==> has_groups(after)
    &&& has_profiles(before) ==> has_profiles(after)
}

/// Position of the group's table.
pub open spec fn group_table_at(doc: Entries, name: Seq<char>) -> Option<int> {
    table_named_from(tables_at(doc, "group"@)->0, name, 0)
}

/// Position of the profile's table.
pub open spec fn profile_table_at(doc: Entries, name: Seq<char>) -> Option<int> {
    table_named_from(tables_at(doc, "profile"@)->0, name, 0)
}

/// The path to a group's table.
pub open spec fn group_path(i: int) -> Seq<StepView> {
    seq![StepView { key: "group"@, index: Some(i as usize) }]
}

/// The path to a stage's table.
pub open spec fn stage_path(i: int, stage: usize) -> Seq<StepView> {
    group_path(i).push(StepView { key: "dsp"@, index: Some(stage) })
}

/// The path to a band's table.
pub open spec fn band_path(i: int, stage: usize, band: usize) -> Seq<StepView> {
    stage_path(i, stage).push(StepView { key: "bands"@, index: Some(band) })
}

/// The path to the table of a group's ducking.
pub open spec fn duck_path(i: int) -> Seq<StepView> {
    group_path(i).push(StepView { key: "duck"@, index: None })
}

/// The path to the settings of the shell.
pub open spec fn app_path() -> Seq<StepView> {
    seq![StepView { key: "app"@, index: None }]
}

/// The operation that makes a key hold an item.
pub open spec fn put_op(path: Seq<StepView>, key: Seq<char>, item: ItemView) -> OpView {
    OpView { path, change: ChangeView::Put { key, item } }
}

/// What an edit comes to: operations, or a refusal.
pub type Planned = Result<Seq<OpView>, StoreErrorView>;

/// One key of a group's table.
pub open spec fn plan_in_group(
    doc: Entries,
    name: Seq<char>,
    key: Seq<char>,
    item: ItemView,
) -> Planned {
    match group_table_at(doc, name) {
        None => Err(refused(no_such_group_text(name))),
        Some(i) => Ok(seq![put_op(group_path(i), key, item)]),
    }
}

/// One key of the settings of the shell; `None` drops it.
pub open spec fn plan_in_app(doc: Entries, key: Seq<char>, item: Option<ItemView>) -> Planned {
    if !table_shaped(doc, "app"@) {
        Err(refused(malformed_app_text()))
    } else {
        match item {
            Some(item) => Ok(seq![put_op(app_path(), key, item)]),
            None => Ok(seq![OpView { path: app_path(), change: ChangeView::Remove { key } }]),
        }
    }
}

/// The group's position and its stages, or why they cannot be edited.
pub open spec fn stages_of(doc: Entries, name: Seq<char>) -> Result<
    (int, Seq<Entries>),
    StoreErrorView,
> {
    match group_table_at(doc, name) {
        None => Err(refused(no_such_group_text(name))),
        Some(i) => match tables_at(tables_at(doc, "group"@)->0[i], "dsp"@) {
            None => Err(refused(malformed_shape_text(name, "dsp"@, "[[group.dsp]]"@))),
            Some(stages) => Ok((i, stages)),
        },
    }
}

/// The group's position and one of its stages, or why it cannot be edited.
pub open spec fn stage_of(doc: Entries, name: Seq<char>, stage: usize) -> Result<
    (int, Entries),
    StoreErrorView,
> {
    match stages_of(doc, name) {
        Err(e) => Err(e),
        Ok(found) => if stage < found.1.len() {
            Ok((found.0, found.1[stage as int]))
        } else {
            Err(refused(no_such_stage_index_text(name, stage)))
        },
    }
}

/// The three keys of a band.
pub open spec fn band_ops(path: Seq<StepView>, band: EqBandSpec) -> Seq<OpView> {
    seq![
        put_op(path, "freq_hz"@, number_item(band.freq_hz)),
        put_op(path, "gain_db"@, number_item(band.gain_db)),
        put_op(path, "q"@, number_item(band.q)),
    ]
}

/// The five keys of a ducking.
pub open spec fn duck_ops(path: Seq<StepView>, duck: DuckView) -> Seq<OpView> {
    seq![
        put_op(path, "trigger"@, text_item(duck.trigger)),
        put_op(path, "amount_db"@, number_item(duck.amount_db)),
        put_op(path, "threshold_db"@, number_item(duck.threshold_db)),
        put_op(path, "attack_ms"@, number_item(duck.attack_ms)),
        put_op(path, "release_ms"@, number_item(duck.release_ms)),
    ]
}

/// How a theme is written.
pub open spec fn theme_text(theme: ThemeChoice) -> Seq<char> {
    match theme {
        ThemeChoice::Dark => "dark"@,
        ThemeChoice::Light => "light"@,
        ThemeChoice::System => "system"@,
    }
}

/// How an accent is written.
pub open spec fn accent_text(accent: AccentChoice) -> Seq<char> {
    match accent {
        AccentChoice::Brand => "brand"@,
        AccentChoice::Teal => "teal"@,
        AccentChoice::Amber => "amber"@,
        AccentChoice::Violet => "violet"@,
        AccentChoice::Slate => "slate"@,
    }
}

/// An optional text as an optional item.
pub open spec fn optional_text(text: Option<Seq<char>>) -> Option<ItemView> {
    match text {
        Some(text) => Some(text_item(text)),
        None => None,
    }
}

/// What an edit comes to on a document.
pub open spec fn plan(doc: Entries, edit: EditView) -> Planned {
    match edit {
        EditView::SetGroupGain(name, gain) => plan_in_group(doc, name, "gain"@, number_item(gain)),
        EditView::SetMaster(gain) => Ok(seq![put_op(Seq::empty(), "master"@, number_item(gain))]),
        EditView::SetMuted(muted) => Ok(seq![put_op(Seq::empty(), "muted"@, flag_item(muted))]),
        EditView::SetFollowMaster(name, follow) => plan_in_group(
            doc,
            name,
            "follow_master"@,
            flag_item(follow),
        ),
        EditView::SetGroupMute(name, muted) => plan_in_group(
            doc,
            name,
            "muted"@,
            flag_item(muted),
        ),
        EditView::SetGroupOutput(name, device) => plan_in_group(
            doc,
            name,
            "output_device"@,
            text_item(device),
        ),
        EditView::AddGroup(group) => Ok(
            seq![
                OpView {
                    path: Seq::empty(),
                    change: ChangeView::Push { key: "group"@, table: group_entries(group) },
                },
            ],
        ),
        EditView::RemoveGroup(name) => match group_table_at(doc, name) {
            None => Err(refused(no_such_group_text(name))),
            Some(i) => Ok(
                seq![
                    OpView {
                        path: Seq::empty(),
                        change: ChangeView::RemoveAt { key: "group"@, index: i as usize },
                    },
                ],
            ),
        },
        EditView::SetRules(name, rules) => plan_in_group(
            doc,
            name,
            "match_rules"@,
            texts_item(rules),
        ),
        EditView::SetEqBand(name, stage, band, spec) => match stage_of(doc, name, stage) {
            Err(e) => Err(e),
            Ok(found) => match tables_at(found.1, "bands"@) {
                None => Err(
                    refused(malformed_shape_text(name, "bands"@, "[[group.dsp.bands]]"@)),
                ),
                Some(bands) => if band < bands.len() {
                    Ok(band_ops(band_path(found.0, stage, band), spec))
                } else {
                    Err(refused(no_such_band_text(name, band)))
                },
            },
        },
        EditView::SetEqBands(name, stage, bands) => match stage_of(doc, name, stage) {
            Err(e) => Err(e),
            Ok(found) => Ok(
                seq![
                    put_op(
                        stage_path(found.0, stage),
                        "bands"@,
                        ItemView::Tables(bands_entries(bands)),
                    ),
                ],
            ),
        },
        EditView::SetLimiterCeiling(name, ceiling_db) => match stages_of(doc, name) {
            Err(e) => Err(e),
            Ok(found) => match stage_typed_from(found.1, "limiter"@, 0) {
                None => Err(refused(no_such_stage_text(name, "limiter"@))),
                Some(stage) => Ok(
                    seq![
                        put_op(
                            stage_path(found.0, stage as usize),
                            "ceiling_db"@,
                            number_item(ceiling_db),
                        ),
                    ],
                ),
            },
        },
        EditView::SetDuck(name, duck) => match group_table_at(doc, name) {
            None => Err(refused(no_such_group_text(name))),
            Some(i) => match duck {
                None => Ok(
                    seq![
                        OpView {
                            path: group_path(i),
                            change: ChangeView::Remove { key: "duck"@ },
                        },
                    ],
                ),
                Some(d) => if table_shaped(tables_at(doc, "group"@)->0[i], "duck"@) {
                    Ok(duck_ops(duck_path(i), d))
                } else {
                    Err(refused(malformed_shape_text(name, "duck"@, "[group.duck]"@)))
                },
            },
        },
        EditView::SetDspBypass(name, stage, bypassed) => match stage_of(doc, name, stage) {
            Err(e) => Err(e),
            Ok(found) => Ok(
                seq![put_op(stage_path(found.0, stage), "bypassed"@, flag_item(bypassed))],
            ),
        },
        EditView::AddDspStage(name, spec) => match stages_of(doc, name) {
            Err(e) => Err(e),
            Ok(found) => Ok(
                seq![
                    OpView {
                        path: group_path(found.0),
                        change: ChangeView::Push { key: "dsp"@, table: stage_entries(spec, false) },
                    },
                ],
            ),
        },
        EditView::RemoveDspStage(name, stage) => match stage_of(doc, name, stage) {
            Err(e) => Err(e),
            Ok(found) => Ok(
                seq![
                    OpView {
                        path: group_path(found.0),
                        change: ChangeView::RemoveAt { key: "dsp"@, index: stage },
                    },
                ],
            ),
        },
        EditView::SetSpatial(name, on) => plan_in_group(doc, name, "spatial"@, flag_item(on)),
        EditView::SetAutostart(on) => plan_in_app(doc, "autostart"@, Some(flag_item(on))),
        EditView::SetDspChain(name, stages) => plan_in_group(
            doc,
            name,
            "dsp"@,
            ItemView::Tables(chain_entries(stages)),
        ),
        EditView::SetProfile(profile) => match profile_table_at(doc, profile.name) {
            Some(i) => Ok(
                seq![
                    OpView {
                        path: Seq::empty(),
                        change: ChangeView::ReplaceAt {
                            key: "profile"@,
                            index: i as usize,
                            table: profile_entries(profile),
                        },
                    },
                ],
            ),
            None => Ok(
                seq![
                    OpView {
                        path: Seq::empty(),
                        change: ChangeView::Push {
                            key: "profile"@,
                            table: profile_entries(profile),
                        },
                    },
                ],
            ),
        },
        EditView::RemoveProfile(name) => match profile_table_at(doc, name) {
            None => Err(refused(no_such_profile_text(name))),
            Some(i) => Ok(
                seq![
                    OpView {
                        path: Seq::empty(),
                        change: ChangeView::RemoveAt { key: "profile"@, index: i as usize },
                    },
                ],
            ),
        },
        EditView::SetActiveProfile(name) => plan_in_app(
            doc,
            "active_profile"@,
            optional_text(name),
        ),
        EditView::SetTheme(theme) => plan_in_app(
            doc,
            "theme"@,
            Some(text_item(theme_text(theme))),
        ),
        EditView::SetAccent(accent) => plan_in_app(
            doc,
            "accent"@,
            Some(text_item(accent_text(accent))),
        ),
        EditView::SetExcluded(names) => plan_in_app(doc, "excluded"@, Some(texts_item(names))),
        EditView::SetSinkDevice(device) => plan_in_app(doc, "sink_device"@, optional_text(device)),
        EditView::SetManageDefault(on) => plan_in_app(doc, "manage_default"@, Some(flag_item(on))),
        EditView::SetPreviousDefault(device) => plan_in_app(
            doc,
            "previous_default"@,
            optional_text(device),
        ),
        EditView::SetVolumeBind(target) => plan_in_app(doc, "volume_bind"@, optional_text(target)),
    }
}

fn root_steps() -> (r: Vec<Step>)
    ensures
        r.deep_view() == Seq::<StepView>::empty(),
{
    let r: Vec<Step> = Vec::new();
    assert(r.deep_view() =~= Seq::empty());
    r
}

fn with_step(path: Vec<Step>, key: &str, index: Option<usize>) -> (r: Vec<Step>)
    ensures
        r.deep_view() == path.deep_view().push(StepView { key: key@, index }),
{
    let mut out = path;
    out.push(Step { key: key.to_owned(), index });
    assert(out.deep_view() =~= path.deep_view().push(StepView { key: key@, index }));
    out
}

fn group_steps(i: usize) -> (r: Vec<Step>)
    ensures
        r.deep_view() == group_path(i as int),
{
    let r = with_step(root_steps(), "group", Some(i));
    assert(r.deep_view() =~= group_path(i as int));
    r
}

fn stage_steps(i: usize, stage: usize) -> (r: Vec<Step>)
    ensures
        r.deep_view() == stage_path(i as int, stage),
{
    with_step(group_steps(i), "dsp", Some(stage))
}

fn one_op(path: Vec<Step>, change: Change) -> (r: Vec<DocOp>)
    ensures
        r.deep_view() == seq![OpView { path: path.deep_view(), change: change.deep_view() }],
{
    let mut r: Vec<DocOp> = Vec::new();
    r.push(DocOp { path, change });
    assert(r.deep_view() =~= seq![OpView { path: path.deep_view(), change: change.deep_view() }]);
    r
}

fn one_put(path: Vec<Step>, key: &str, item: Item) -> (r: Vec<DocOp>)
    ensures
        r.deep_view() == seq![put_op(path.deep_view(), key@, item_view(item))],
{
    one_op(path, Change::Put { key: key.to_owned(), item })
}

fn push_put(ops: &mut Vec<DocOp>, path: Vec<Step>, key: &str, item: Item)
    ensures
        final(ops).deep_view() == old(ops).deep_view().push(
            put_op(path.deep_view(), key@, item_view(item)),
        ),
{
    ops.push(DocOp { path, change: Change::Put { key: key.to_owned(), item } });
    assert(ops.deep_view() =~= old(ops).deep_view().push(
        put_op(path.deep_view(), key@, item_view(item)),
    ));
}

/// Position of the first table of that name.
fn find_named(ts: &Vec<Section>, name: &str) -> (r: Option<usize>)
    ensures
        match r {
            Some(i) => table_named_from(tables_view(ts@), name@, 0) == Some(i as int) && i
                < ts@.len(),
            None => table_named_from(tables_view(ts@), name@, 0) is None,
        },
{
    let mut i: usize = 0;
    while i < ts.len()
        invariant
            i <= ts.len(),
            table_named_from(tables_view(ts@), name@, 0) == table_named_from(
                tables_view(ts@),
                name@,
                i as int,
            ),
        decreases ts.len() - i,
    {
        match ts[i].text("name") {
            Some(found) => {
                if crate::text::same_text(found.as_str(), name) {
                    return Some(i);
                }
            },
            None => {},
        }
        i = i + 1;
    }
    None
}

fn find_typed(ts: &Vec<Section>, stage_type: &str) -> (r: Option<usize>)
    ensures
        match r {
            Some(i) => stage_typed_from(tables_view(ts@), stage_type@, 0) == Some(i as int) && i
                < ts@.len(),
            None => stage_typed_from(tables_view(ts@), stage_type@, 0) is None,
        },
{
    let mut i: usize = 0;
    while i < ts.len()
        invariant
            i <= ts.len(),
            stage_typed_from(tables_view(ts@), stage_type@, 0) == stage_typed_from(
                tables_view(ts@),
                stage_type@,
                i as int,
            ),
        decreases ts.len() - i,
    {
        match ts[i].text("type") {
            Some(found) => {
                if crate::text::same_text(found.as_str(), stage_type) {
                    return Some(i);
                }
            },
            None => {},
        }
        i = i + 1;
    }
    None
}

/// An array of tables as a key holds it.
enum Shape<'a> {
    Absent,
    Tables(&'a Vec<Section>),
    Malformed,
}

fn shape_of<'a>(t: &'a Section, key: &str) -> (r: Shape<'a>)
    ensures
        match r {
            Shape::Absent => get(table_view(*t), key@) is None,
            Shape::Tables(ts) => get(table_view(*t), key@) == Some(
                ItemView::Tables(tables_view(ts@)),
            ),
            Shape::Malformed => tables_at(table_view(*t), key@) is None,
        },
{
    match t.get(key) {
        None => Shape::Absent,
        Some(item) => match item {
            Item::Tables(ts) => {
                assert(item_view(*item)->Tables_0 =~= tables_view(ts@));
                Shape::Tables(ts)
            },
            _ => Shape::Malformed,
        },
    }
}

/// The group's table and its position.
fn find_group_table<'a>(doc: &'a Section, name: &str) -> (r: Result<(usize, &'a Section), StoreError>)
    requires
        has_groups(table_view(*doc)),
    ensures
        match r {
            Ok(found) => group_table_at(table_view(*doc), name@) == Some(found.0 as int)
                && table_view(*found.1) == tables_at(
                table_view(*doc),
                "group"@,
            )->0[found.0 as int],
            Err(e) => group_table_at(table_view(*doc), name@) is None && e.deep_view() == refused(
                no_such_group_text(name@),
            ),
        },
{
    match shape_of(doc, "group") {
        Shape::Tables(ts) => match find_named(ts, name) {
            Some(i) => Ok((i, &ts[i])),
            None => Err(no_such_group(name)),
        },
        _ => Err(no_such_group(name)),
    }
}

fn in_group(doc: &Section, name: &str, key: &str, item: Item) -> (r: Result<
    Vec<DocOp>,
    StoreError,
>)
    requires
        has_groups(table_view(*doc)),
    ensures
        agrees(r, plan_in_group(table_view(*doc), name@, key@, item_view(item))),
{
    match find_group_table(doc, name) {
        Err(e) => Err(e),
        Ok(found) => Ok(one_put(group_steps(found.0), key, item)),
    }
}

/// A result that says what was planned.
pub open spec fn agrees(r: Result<Vec<DocOp>, StoreError>, planned: Planned) -> bool {
    match r {
        Ok(ops) => planned == Ok::<_, StoreErrorView>(ops.deep_view()),
        Err(e) => planned == Err::<Seq<OpView>, _>(e.deep_view()),
    }
}

fn app_is_table(doc: &Section) -> (r: bool)
    ensures
        r == table_shaped(table_view(*doc), "app"@),
{
    match doc.get("app") {
        None => true,
        Some(Item::Table(_)) => true,
        _ => false,
    }
}

fn in_app(doc: &Section, key: &str, item: Item) -> (r: Result<Vec<DocOp>, StoreError>)
    ensures
        agrees(r, plan_in_app(table_view(*doc), key@, Some(item_view(item)))),
{
    if !app_is_table(doc) {
        return Err(malformed_app_shape());
    }
    let path = with_step(root_steps(), "app", None);
    assert(path.deep_view() =~= app_path());
    Ok(one_put(path, key, item))
}

fn text_in_app(doc: &Section, key: &str, text: &Option<String>) -> (r: Result<
    Vec<DocOp>,
    StoreError,
>)
    ensures
        agrees(r, plan_in_app(table_view(*doc), key@, optional_text(text.deep_view()))),
{
    match text {
        Some(text) => in_app(doc, key, text_value(text.as_str())),
        None => {
            if !app_is_table(doc) {
                return Err(malformed_app_shape());
            }
            let path = with_step(root_steps(), "app", None);
            assert(path.deep_view() =~= app_path());
            Ok(one_op(path, Change::Remove { key: key.to_owned() }))
        },
    }
}

/// The group's position and its stages, if it has any.
fn find_stages<'a>(doc: &'a Section, name: &str) -> (r: Result<
    (usize, Option<&'a Vec<Section>>),
    StoreError,
>)
    requires
        has_groups(table_view(*doc)),
    ensures
        match r {
            Ok(found) => stages_of(table_view(*doc), name@) == Ok::<_, StoreErrorView>(
                (
                    found.0 as int,
                    match found.1 {
                        Some(ts) => tables_view(ts@),
                        None => Seq::empty(),
                    },
                ),
            ),
            Err(e) => stages_of(table_view(*doc), name@) == Err::<(int, Seq<Entries>), _>(
                e.deep_view(),
            ),
        },
{
    match find_group_table(doc, name) {
        Err(e) => Err(e),
        Ok(found) => match shape_of(found.1, "dsp") {
            Shape::Absent => Ok((found.0, None)),
            Shape::Tables(ts) => Ok((found.0, Some(ts))),
            Shape::Malformed => Err(malformed_shape(name, "dsp", "[[group.dsp]]")),
        },
    }
}

/// The group's position and one of its stages.
fn find_stage<'a>(doc: &'a Section, name: &str, stage: usize) -> (r: Result<
    (usize, &'a Section),
    StoreError,
>)
    requires
        has_groups(table_view(*doc)),
    ensures
        match r {
            Ok(found) => stage_of(table_view(*doc), name@, stage) == Ok::<_, StoreErrorView>(
                (found.0 as int, table_view(*found.1)),
            ),
            Err(e) => stage_of(table_view(*doc), name@, stage) == Err::<(int, Entries), _>(
                e.deep_view(),
            ),
        },
{
    match find_stages(doc, name) {
        Err(e) => Err(e),
        Ok(found) => match found.1 {
            Some(ts) => {
                if stage < ts.len() {
                    Ok((found.0, &ts[stage]))
                } else {
                    Err(no_such_dsp_stage_index(name, stage))
                }
            },
            None => Err(no_such_dsp_stage_index(name, stage)),
        },
    }
}

fn band_changes(i: usize, stage: usize, band: usize, spec: &EqBandSpec) -> (r: Vec<DocOp>)
    ensures
        r.deep_view() == band_ops(band_path(i as int, stage, band), *spec),
{
    let mut ops: Vec<DocOp> = Vec::new();
    push_put(
        &mut ops,
        with_step(stage_steps(i, stage), "bands", Some(band)),
        "freq_hz",
        number_value(spec.freq_hz),
    );
    push_put(
        &mut ops,
        with_step(stage_steps(i, stage), "bands", Some(band)),
        "gain_db",
        number_value(spec.gain_db),
    );
    push_put(
        &mut ops,
        with_step(stage_steps(i, stage), "bands", Some(band)),
        "q",
        number_value(spec.q),
    );
    assert(ops.deep_view() =~= band_ops(band_path(i as int, stage, band), *spec));
    ops
}

fn duck_changes(i: usize, duck: &DuckSpecConfig) -> (r: Vec<DocOp>)
    ensures
        r.deep_view() == duck_ops(duck_path(i as int), duck.deep_view()),
{
    let mut ops: Vec<DocOp> = Vec::new();
    push_put(
        &mut ops,
        with_step(group_steps(i), "duck", None),
        "trigger",
        text_value(duck.trigger.as_str()),
    );
    push_put(
        &mut ops,
        with_step(group_steps(i), "duck", None),
        "amount_db",
        number_value(duck.amount_db),
    );
    push_put(
        &mut ops,
        with_step(group_steps(i), "duck", None),
        "threshold_db",
        number_value(duck.threshold_db),
    );
    push_put(
        &mut ops,
        with_step(group_steps(i), "duck", None),
        "attack_ms",
        number_value(duck.attack_ms),
    );
    push_put(
        &mut ops,
        with_step(group_steps(i), "duck", None),
        "release_ms",
        number_value(duck.release_ms),
    );
    assert(ops.deep_view() =~= duck_ops(duck_path(i as int), duck.deep_view()));
    ops
}

fn duck_is_table(group: &Section) -> (r: bool)
    ensures
        r == table_shaped(table_view(*group), "duck"@),
{
    match group.get("duck") {
        None => true,
        Some(Item::Table(_)) => true,
        _ => false,
    }
}

fn theme_name(theme: ThemeChoice) -> (r: &'static str)
    ensures
        r@ == theme_text(theme),
{
    match theme {
        ThemeChoice::Dark => "dark",
        ThemeChoice::Light => "light",
        ThemeChoice::System => "system",
    }
}

fn accent_name(accent: AccentChoice) -> (r: &'static str)
    ensures
        r@ == accent_text(accent),
{
    match accent {
        AccentChoice::Brand => "brand",
        AccentChoice::Teal => "teal",
        AccentChoice::Amber => "amber",
        AccentChoice::Violet => "violet",
        AccentChoice::Slate => "slate",
    }
}

/// What the edit comes to on the document: operations, or why it is refused.
pub fn plan_edit(doc: &Section, edit: &ConfigEdit) -> (r: Result<Vec<DocOp>, StoreError>)
    requires
        fits(table_view(*doc), edit.deep_view()),
    ensures
        agrees(r, plan(table_view(*doc), edit.deep_view())),
{
    match edit {
        ConfigEdit::SetGroupGain(name, gain) => in_group(doc, name, "gain", gain_value(*gain)),
        ConfigEdit::SetMaster(gain) => Ok(one_put(root_steps(), "master", gain_value(*gain))),
        ConfigEdit::SetMuted(muted) => Ok(one_put(root_steps(), "muted", flag_value(*muted))),
        ConfigEdit::SetFollowMaster(name, follow) => in_group(
            doc,
            name,
            "follow_master",
            flag_value(*follow),
        ),
        ConfigEdit::SetGroupMute(name, muted) => in_group(doc, name, "muted", flag_value(*muted)),
        ConfigEdit::SetGroupOutput(name, device) => in_group(
            doc,
            name,
            "output_device",
            text_value(device.as_str()),
        ),
        ConfigEdit::AddGroup(group) => Ok(
            one_op(
                root_steps(),
                Change::Push { key: "group".to_owned(), table: group_table(group) },
            ),
        ),
        ConfigEdit::RemoveGroup(name) => match find_group_table(doc, name) {
            Err(e) => Err(e),
            Ok(found) => Ok(
                one_op(root_steps(), Change::RemoveAt { key: "group".to_owned(), index: found.0 }),
            ),
        },
        ConfigEdit::SetRules(name, rules) => in_group(
            doc,
            name,
            "match_rules",
            string_array(rules),
        ),
        ConfigEdit::SetEqBand(name, stage, band, spec) => match find_stage(doc, name, *stage) {
            Err(e) => Err(e),
            Ok(found) => match shape_of(found.1, "bands") {
                Shape::Absent => Err(no_such_band(name.as_str(), *band)),
                Shape::Malformed => Err(
                    malformed_shape(name.as_str(), "bands", "[[group.dsp.bands]]"),
                ),
                Shape::Tables(bands) => {
                    if *band < bands.len() {
                        Ok(band_changes(found.0, *stage, *band, spec))
                    } else {
                        Err(no_such_band(name.as_str(), *band))
                    }
                },
            },
        },
        ConfigEdit::SetEqBands(name, stage, bands) => match find_stage(doc, name, *stage) {
            Err(e) => Err(e),
            Ok(found) => Ok(one_put(stage_steps(found.0, *stage), "bands", bands_item(bands))),
        },
        ConfigEdit::SetLimiterCeiling(name, ceiling_db) => match find_stages(doc, name) {
            Err(e) => Err(e),
            Ok(found) => match found.1 {
                None => Err(no_such_dsp_stage(name.as_str(), "limiter")),
                Some(ts) => match find_typed(ts, "limiter") {
                    None => Err(no_such_dsp_stage(name.as_str(), "limiter")),
                    Some(stage) => Ok(
                        one_put(
                            stage_steps(found.0, stage),
                            "ceiling_db",
                            number_value(*ceiling_db),
                        ),
                    ),
                },
            },
        },
        ConfigEdit::SetDuck(name, duck) => match find_group_table(doc, name) {
            Err(e) => Err(e),
            Ok(found) => match duck {
                None => Ok(
                    one_op(group_steps(found.0), Change::Remove { key: "duck".to_owned() }),
                ),
                Some(d) => {
                    if duck_is_table(found.1) {
                        Ok(duck_changes(found.0, d))
                    } else {
                        Err(malformed_shape(name.as_str(), "duck", "[group.duck]"))
                    }
                },
            },
        },
        ConfigEdit::SetDspBypass(name, stage, bypassed) => match find_stage(doc, name, *stage) {
            Err(e) => Err(e),
            Ok(found) => Ok(
                one_put(stage_steps(found.0, *stage), "bypassed", flag_value(*bypassed)),
            ),
        },
        ConfigEdit::AddDspStage(name, spec) => match find_stages(doc, name) {
            Err(e) => Err(e),
            Ok(found) => Ok(
                one_op(
                    group_steps(found.0),
                    Change::Push { key: "dsp".to_owned(), table: dsp_stage_table(spec, false) },
                ),
            ),
        },
        ConfigEdit::RemoveDspStage(name, stage) => match find_stage(doc, name, *stage) {
            Err(e) => Err(e),
            Ok(found) => Ok(
                one_op(
                    group_steps(found.0),
                    Change::RemoveAt { key: "dsp".to_owned(), index: *stage },
                ),
            ),
        },
        ConfigEdit::SetSpatial(name, on) => in_group(doc, name, "spatial", flag_value(*on)),
        ConfigEdit::SetAutostart(on) => in_app(doc, "autostart", flag_value(*on)),
        ConfigEdit::SetDspChain(name, stages) => in_group(doc, name, "dsp", chain_item(stages)),
        ConfigEdit::SetProfile(profile) => {
            let table = profile_table(profile);
            let index = match shape_of(doc, "profile") {
                Shape::Tables(ts) => find_named(ts, &profile.name),
                _ => None,
            };
            match index {
                Some(index) => Ok(
                    one_op(
                        root_steps(),
                        Change::ReplaceAt { key: "profile".to_owned(), index, table },
                    ),
                ),
                None => Ok(
                    one_op(root_steps(), Change::Push { key: "profile".to_owned(), table }),
                ),
            }
        },
        ConfigEdit::RemoveProfile(name) => {
            let index = match shape_of(doc, "profile") {
                Shape::Tables(ts) => find_named(ts, name),
                _ => None,
            };
            match index {
                Some(index) => Ok(
                    one_op(root_steps(), Change::RemoveAt { key: "profile".to_owned(), index }),
                ),
                None => Err(no_such_profile(name.as_str())),
            }
        },
        ConfigEdit::SetActiveProfile(name) => text_in_app(doc, "active_profile", name),
        ConfigEdit::SetTheme(theme) => in_app(doc, "theme", text_value(theme_name(*theme))),
        ConfigEdit::SetAccent(accent) => in_app(doc, "accent", text_value(accent_name(*accent))),
        ConfigEdit::SetExcluded(names) => in_app(doc, "excluded", string_array(names)),
        ConfigEdit::SetSinkDevice(device) => text_in_app(doc, "sink_device", device),
        ConfigEdit::SetManageDefault(on) => in_app(doc, "manage_default", flag_value(*on)),
        ConfigEdit::SetPreviousDefault(device) => text_in_app(doc, "previous_default", device),
        ConfigEdit::SetVolumeBind(target) => text_in_app(doc, "volume_bind", target),
    }
}

/// An operation that leaves groups and profiles in a shape that can be edited.
pub open spec fn keeps_shapes(op: OpView) -> bool {
    if op.path.len() > 0 {
        op.path[0].index is Some || op.path[0].key == "app"@
    } else {
        match op.change {
            ChangeView::Put { key, item } => key != "group"@ && key != "profile"@,
            ChangeView::Remove { key } => false,
            _ => true,
        }
    }
}

proof fn lemma_root_keys_differ()
    ensures
        "master"@ != "group"@,
        "master"@ != "profile"@,
        "muted"@ != "group"@,
        "muted"@ != "profile"@,
        "app"@ != "group"@,
        "app"@ != "profile"@,
        "group"@ != "profile"@,
{
    reveal_strlit("master");
    reveal_strlit("muted");
    reveal_strlit("app");
    reveal_strlit("group");
    reveal_strlit("profile");
    assert("master"@.len() == 6 && "app"@.len() == 3 && "group"@.len() == 5 && "profile"@.len() == 7
        && "muted"@.len() == 5);
    assert("muted"@[0] == 'm' && "group"@[0] == 'g');
}

proof fn lemma_put_keeps(doc: Entries, key: Seq<char>, item: ItemView)
    requires
        item is Tables || (key != "group"@ && key != "profile"@),
    ensures
        shapes_kept(doc, put(doc, key, item)),
{
    set_then_get(doc, key, item, "group"@);
    set_then_get(doc, key, item, "profile"@);
}

proof fn lemma_op_keeps(doc: Entries, op: OpView)
    requires
        keeps_shapes(op),
    ensures
        shapes_kept(doc, after_op(doc, op)),
{
    lemma_root_keys_differ();
    if op.path.len() > 0 {
        let step = op.path[0];
        match step.index {
            Some(i) => match get(doc, step.key) {
                Some(ItemView::Tables(ts)) => {
                    if i < ts.len() {
                        lemma_put_keeps(
                            doc,
                            step.key,
                            ItemView::Tables(
                                ts.update(
                                    i as int,
                                    changed_at(ts[i as int], op.path, 1, op.change),
                                ),
                            ),
                        );
                    }
                },
                _ => {},
            },
            None => match get(doc, step.key) {
                Some(ItemView::Table(inner)) => {
                    lemma_put_keeps(
                        doc,
                        step.key,
                        ItemView::Table(changed_at(inner, op.path, 1, op.change)),
                    );
                },
                None => {
                    lemma_put_keeps(
                        doc,
                        step.key,
                        ItemView::Table(changed_at(Seq::empty(), op.path, 1, op.change)),
                    );
                },
                _ => {},
            },
        }
    } else {
        match op.change {
            ChangeView::Put { key, item } => {
                lemma_put_keeps(doc, key, item);
            },
            ChangeView::Remove { key } => {},
            ChangeView::Push { key, table } => match tables_at(doc, key) {
                Some(ts) => {
                    lemma_put_keeps(doc, key, ItemView::Tables(ts.push(table)));
                },
                None => {},
            },
            ChangeView::RemoveAt { key, index } => match get(doc, key) {
                Some(ItemView::Tables(ts)) => {
                    lemma_put_keeps(doc, key, ItemView::Tables(ts.remove(index as int)));
                },
                _ => {},
            },
            ChangeView::ReplaceAt { key, index, table } => match get(doc, key) {
                Some(ItemView::Tables(ts)) => {
                    lemma_put_keeps(doc, key, ItemView::Tables(ts.update(index as int, table)));
                },
                _ => {},
            },
        }
    }
}

proof fn lemma_ops_keep(doc: Entries, ops: Seq<OpView>, n: int)
    requires
        0 <= n <= ops.len(),
        forall|i: int| 0 <= i < ops.len() ==> keeps_shapes(#[trigger] ops[i]),
    ensures
        shapes_kept(doc, after_ops(doc, ops, n)),
    decreases n,
{
    if n > 0 {
        lemma_ops_keep(doc, ops, n - 1);
        lemma_op_keeps(after_ops(doc, ops, n - 1), ops[n - 1]);
    }
}

proof fn lemma_plan_keeps(doc: Entries, edit: EditView)
    requires
        plan(doc, edit) is Ok,
    ensures
        forall|i: int|
            0 <= i < plan(doc, edit)->Ok_0.len() ==> keeps_shapes(
                #[trigger] plan(doc, edit)->Ok_0[i],
            ),
{
    lemma_root_keys_differ();
    let ops = plan(doc, edit)->Ok_0;
    match edit {
        EditView::SetGroupGain(_, _) => {
            assert forall|i: int| 0 <= i < ops.len() implies keeps_shapes(#[trigger] ops[i]) by {}
        },
        EditView::SetMaster(_) => {
            assert forall|i: int| 0 <= i < ops.len() implies keeps_shapes(#[trigger] ops[i]) by {}
        },
        EditView::SetMuted(_) => {
            assert forall|i: int| 0 <= i < ops.len() implies keeps_shapes(#[trigger] ops[i]) by {}
        },
        EditView::SetFollowMaster(_, _) => {
            assert forall|i: int| 0 <= i < ops.len() implies keeps_shapes(#[trigger] ops[i]) by {}
        },
        EditView::SetGroupMute(_, _) => {
            assert forall|i: int| 0 <= i < ops.len() implies keeps_shapes(#[trigger] ops[i]) by {}
        },
        EditView::SetGroupOutput(_, _) => {
            assert forall|i: int| 0 <= i < ops.len() implies keeps_shapes(#[trigger] ops[i]) by {}
        },
        EditView::AddGroup(_) => {
            assert forall|i: int| 0 <= i < ops.len() implies keeps_shapes(#[trigger] ops[i]) by {}
        },
        EditView::RemoveGroup(_) => {
            assert forall|i: int| 0 <= i < ops.len() implies keeps_shapes(#[trigger] ops[i]) by {}
        },
        EditView::SetRules(_, _) => {
            assert forall|i: int| 0 <= i < ops.len() implies keeps_shapes(#[trigger] ops[i]) by {}
        },
        EditView::SetEqBand(_, _, _, _) => {
            assert forall|i: int| 0 <= i < ops.len() implies keeps_shapes(#[trigger] ops[i]) by {}
        },
        EditView::SetEqBands(_, _, _) => {
            assert forall|i: int| 0 <= i < ops.len() implies keeps_shapes(#[trigger] ops[i]) by {}
        },
        EditView::SetLimiterCeiling(_, _) => {
            assert forall|i: int| 0 <= i < ops.len() implies keeps_shapes(#[trigger] ops[i]) by {}
        },
        EditView::SetDuck(_, _) => {
            assert forall|i: int| 0 <= i < ops.len() implies keeps_shapes(#[trigger] ops[i]) by {}
        },
        EditView::SetDspBypass(_, _, _) => {
            assert forall|i: int| 0 <= i < ops.len() implies keeps_shapes(#[trigger] ops[i]) by {}
        },
        EditView::AddDspStage(_, _) => {
            assert forall|i: int| 0 <= i < ops.len() implies keeps_shapes(#[trigger] ops[i]) by {}
        },
        EditView::RemoveDspStage(_, _) => {
            assert forall|i: int| 0 <= i < ops.len() implies keeps_shapes(#[trigger] ops[i]) by {}
        },
        EditView::SetSpatial(_, _) => {
            assert forall|i: int| 0 <= i < ops.len() implies keeps_shapes(#[trigger] ops[i]) by {}
        },
        EditView::SetDspChain(_, _) => {
            assert forall|i: int| 0 <= i < ops.len() implies keeps_shapes(#[trigger] ops[i]) by {}
        },
        EditView::SetProfile(_) => {
            assert forall|i: int| 0 <= i < ops.len() implies keeps_shapes(#[trigger] ops[i]) by {}
        },
        EditView::RemoveProfile(_) => {
            assert forall|i: int| 0 <= i < ops.len() implies keeps_shapes(#[trigger] ops[i]) by {}
        },
        _ => {
            assert forall|i: int| 0 <= i < ops.len() implies keeps_shapes(#[trigger] ops[i]) by {}
        },
    }
}

/// An edit leaves the document in a shape that can be edited, as far as it was
/// in one.
pub proof fn edits_keep_the_document_editable(doc: Entries, edit: EditView)
    requires
        plan(doc, edit) is Ok,
    ensures
        shapes_kept(
            doc,
            after_ops(doc, plan(doc, edit)->Ok_0, plan(doc, edit)->Ok_0.len() as int),
        ),
{
    lemma_plan_keeps(doc, edit);
    let ops = plan(doc, edit)->Ok_0;
    lemma_ops_keep(doc, ops, ops.len() as int);
}

fn run_all(doc: &mut Section, ops: &Vec<DocOp>)
    ensures
        table_view(*final(doc)) == after_ops(
            table_view(*old(doc)),
            ops.deep_view(),
            ops@.len() as int,
        ),
{
    let ghost before = table_view(*doc);
    let mut i: usize = 0;
    while i < ops.len()
        invariant
            i <= ops.len(),
            table_view(*doc) == after_ops(before, ops.deep_view(), i as int),
        decreases ops.len() - i,
    {
        assert(ops.deep_view()[i as int] == ops@[i as int].deep_view());
        doc.run(&ops[i]);
        i = i + 1;
    }
}

/// Makes one edit to the document and gives the operations that it took. A
/// refused edit leaves the document as it was.
pub fn apply_edit(doc: &mut Section, edit: &ConfigEdit) -> (r: Result<Vec<DocOp>, StoreError>)
    requires
        fits(table_view(*old(doc)), edit.deep_view()),
    ensures
        agrees(r, plan(table_view(*old(doc)), edit.deep_view())),
        shapes_kept(table_view(*old(doc)), table_view(*final(doc))),
        match r {
            Ok(ops) => table_view(*final(doc)) == after_ops(
                table_view(*old(doc)),
                ops.deep_view(),
                ops@.len() as int,
            ),
            Err(_) => *final(doc) == *old(doc),
        },
{
    match plan_edit(doc, edit) {
        Err(e) => Err(e),
        Ok(ops) => {
            proof {
                edits_keep_the_document_editable(table_view(*doc), edit.deep_view());
            }
            run_all(doc, &ops);
            Ok(ops)
        },
    }
}

/// The document after the first `n` edits with the operations that they took,
/// or the refusal of the first that is refused.
pub open spec fn batch(doc: Entries, edits: Seq<EditView>, n: int) -> Result<
    (Entries, Seq<OpView>),
    StoreErrorView,
>
    decreases n,
{
    if n <= 0 {
        Ok((doc, Seq::empty()))
    } else {
        match batch(doc, edits, n - 1) {
            Err(e) => Err(e),
            Ok(done) => match plan(done.0, edits[n - 1]) {
                Err(e) => Err(e),
                Ok(ops) => Ok((after_ops(done.0, ops, ops.len() as int), done.1 + ops)),
            },
        }
    }
}

proof fn lemma_batch_error(doc: Entries, edits: Seq<EditView>, n: int, m: int)
    requires
        n <= m,
        batch(doc, edits, n) is Err,
    ensures
        batch(doc, edits, m) == batch(doc, edits, n),
    decreases m - n,
{
    if n < m {
        lemma_batch_error(doc, edits, n, m - 1);
    }
}

/// Whether what an edit touches is in a shape that can be edited.
pub fn takes(doc: &Section, edit: &ConfigEdit) -> (r: bool)
    ensures
        r == fits(table_view(*doc), edit.deep_view()),
{
    match edit {
        ConfigEdit::SetProfile(_) | ConfigEdit::RemoveProfile(_) => {
            !matches!(shape_of(doc, "profile"), Shape::Malformed)
        },
        ConfigEdit::SetGroupGain(_, _)
        | ConfigEdit::SetFollowMaster(_, _)
        | ConfigEdit::SetGroupMute(_, _)
        | ConfigEdit::SetGroupOutput(_, _)
        | ConfigEdit::AddGroup(_)
        | ConfigEdit::RemoveGroup(_)
        | ConfigEdit::SetRules(_, _)
        | ConfigEdit::SetEqBand(_, _, _, _)
        | ConfigEdit::SetEqBands(_, _, _)
        | ConfigEdit::SetLimiterCeiling(_, _)
        | ConfigEdit::SetDuck(_, _)
        | ConfigEdit::SetDspBypass(_, _, _)
        | ConfigEdit::AddDspStage(_, _)
        | ConfigEdit::RemoveDspStage(_, _)
        | ConfigEdit::SetSpatial(_, _)
        | ConfigEdit::SetDspChain(_, _) => !matches!(shape_of(doc, "group"), Shape::Malformed),
        _ => true,
    }
}

/// Operations that can be written.
pub open spec fn ops_writable<F: Fn(Float32) -> String>(spell: F, ops: Seq<OpView>) -> bool {
    forall|i: int| 0 <= i < ops.len() ==> change_writable(spell, (#[trigger] ops[i]).change)
}

proof fn lemma_number_writable<F: Fn(Float32) -> String>(spell: F, number: Float32)
    requires
        spells_numbers(spell),
    ensures
        item_writable(spell, number_item(number)),
{
    assert(spelled_well(spell, number));
}

proof fn lemma_tables_writable<F: Fn(Float32) -> String>(spell: F, ts: Seq<Entries>)
    requires
        forall|i: int| 0 <= i < ts.len() ==> writable(spell, #[trigger] ts[i]),
    ensures
        item_writable(spell, ItemView::Tables(ts)),
{
    assert(all_writable(spell, ts));
}

proof fn lemma_band_writable<F: Fn(Float32) -> String>(spell: F, band: EqBandSpec)
    requires
        spells_numbers(spell),
    ensures
        writable(spell, band_entries(band)),
{
    let t = Seq::<(Seq<char>, ItemView)>::empty();
    assert(writable(spell, t));
    lemma_number_writable(spell, band.freq_hz);
    lemma_number_writable(spell, band.gain_db);
    lemma_number_writable(spell, band.q);
    lemma_writable_put(spell, t, "freq_hz"@, number_item(band.freq_hz));
    let t = put(t, "freq_hz"@, number_item(band.freq_hz));
    lemma_writable_put(spell, t, "gain_db"@, number_item(band.gain_db));
    let t = put(t, "gain_db"@, number_item(band.gain_db));
    lemma_writable_put(spell, t, "q"@, number_item(band.q));
}

proof fn lemma_bands_writable<F: Fn(Float32) -> String>(spell: F, bands: Seq<EqBandSpec>)
    requires
        spells_numbers(spell),
    ensures
        item_writable(spell, ItemView::Tables(bands_entries(bands))),
{
    let ts = bands_entries(bands);
    assert forall|i: int| 0 <= i < ts.len() implies writable(spell, #[trigger] ts[i]) by {
        lemma_band_writable(spell, bands[i]);
    }
    lemma_tables_writable(spell, ts);
}

proof fn lemma_stage_writable<F: Fn(Float32) -> String>(
    spell: F,
    spec: DspSpecView,
    bypassed: bool,
)
    requires
        spells_numbers(spell),
    ensures
        writable(spell, stage_entries(spec, bypassed)),
{
    let none = Seq::<(Seq<char>, ItemView)>::empty();
    assert(writable(spell, none));
    let t = match spec {
        DspSpecView::Eq { bands } => {
            let t = put(none, "type"@, text_item("eq"@));
            lemma_writable_put(spell, none, "type"@, text_item("eq"@));
            lemma_bands_writable(spell, bands);
            lemma_writable_put(spell, t, "bands"@, ItemView::Tables(bands_entries(bands)));
            put(t, "bands"@, ItemView::Tables(bands_entries(bands)))
        },
        DspSpecView::Limiter { ceiling_db } => {
            let t = put(none, "type"@, text_item("limiter"@));
            lemma_writable_put(spell, none, "type"@, text_item("limiter"@));
            lemma_number_writable(spell, ceiling_db);
            lemma_writable_put(spell, t, "ceiling_db"@, number_item(ceiling_db));
            put(t, "ceiling_db"@, number_item(ceiling_db))
        },
    };
    lemma_writable_put(spell, t, "bypassed"@, flag_item(bypassed));
}

proof fn lemma_chain_writable<F: Fn(Float32) -> String>(spell: F, stages: Seq<DspStageView>)
    requires
        spells_numbers(spell),
    ensures
        item_writable(spell, ItemView::Tables(chain_entries(stages))),
{
    let ts = chain_entries(stages);
    assert forall|i: int| 0 <= i < ts.len() implies writable(spell, #[trigger] ts[i]) by {
        lemma_stage_writable(spell, stages[i].spec, stages[i].bypassed);
    }
    lemma_tables_writable(spell, ts);
}

proof fn lemma_with_chain_writable<F: Fn(Float32) -> String>(
    spell: F,
    t: Entries,
    stages: Seq<DspStageView>,
)
    requires
        spells_numbers(spell),
        writable(spell, t),
    ensures
        writable(spell, with_chain(t, stages)),
{
    lemma_chain_writable(spell, stages);
    lemma_writable_put(spell, t, "dsp"@, ItemView::Tables(chain_entries(stages)));
}

proof fn lemma_with_duck_writable<F: Fn(Float32) -> String>(
    spell: F,
    t: Entries,
    duck: Option<DuckView>,
)
    requires
        spells_numbers(spell),
        writable(spell, t),
    ensures
        writable(spell, with_duck(t, duck)),
{
    match duck {
        None => {},
        Some(d) => {
            let u = Seq::<(Seq<char>, ItemView)>::empty();
            assert(writable(spell, u));
            lemma_number_writable(spell, d.amount_db);
            lemma_number_writable(spell, d.threshold_db);
            lemma_number_writable(spell, d.attack_ms);
            lemma_number_writable(spell, d.release_ms);
            lemma_writable_put(spell, u, "trigger"@, text_item(d.trigger));
            let u = put(u, "trigger"@, text_item(d.trigger));
            lemma_writable_put(spell, u, "amount_db"@, number_item(d.amount_db));
            let u = put(u, "amount_db"@, number_item(d.amount_db));
            lemma_writable_put(spell, u, "threshold_db"@, number_item(d.threshold_db));
            let u = put(u, "threshold_db"@, number_item(d.threshold_db));
            lemma_writable_put(spell, u, "attack_ms"@, number_item(d.attack_ms));
            let u = put(u, "attack_ms"@, number_item(d.attack_ms));
            lemma_writable_put(spell, u, "release_ms"@, number_item(d.release_ms));
            let u = put(u, "release_ms"@, number_item(d.release_ms));
            assert(u == with_duck_keys(Seq::empty(), d));
            assert(item_writable(spell, ItemView::Table(u)));
            lemma_writable_put(spell, t, "duck"@, ItemView::Table(u));
        },
    }
}

proof fn lemma_with_chord_writable<F: Fn(Float32) -> String>(
    spell: F,
    t: Entries,
    key: Seq<char>,
    chord: Option<HotkeyChord>,
)
    requires
        writable(spell, t),
    ensures
        writable(spell, with_chord(t, key, chord)),
{
    match chord {
        None => {},
        Some(c) => {
            lemma_writable_put(spell, t, key, text_item(chord_text(c)));
        },
    }
}

proof fn lemma_settings_writable<F: Fn(Float32) -> String>(
    spell: F,
    name: Seq<char>,
    output_device: Seq<char>,
    gain: Float32,
    follow_master: bool,
    spatial: bool,
    muted: bool,
)
    requires
        spells_numbers(spell),
    ensures
        writable(
            spell,
            settings_entries(name, output_device, gain, follow_master, spatial, muted),
        ),
{
    let t = Seq::<(Seq<char>, ItemView)>::empty();
    assert(writable(spell, t));
    lemma_number_writable(spell, gain);
    lemma_writable_put(spell, t, "name"@, text_item(name));
    let t = put(t, "name"@, text_item(name));
    lemma_writable_put(spell, t, "output_device"@, text_item(output_device));
    let t = put(t, "output_device"@, text_item(output_device));
    lemma_writable_put(spell, t, "gain"@, number_item(gain));
    let t = put(t, "gain"@, number_item(gain));
    lemma_writable_put(spell, t, "follow_master"@, flag_item(follow_master));
    let t = put(t, "follow_master"@, flag_item(follow_master));
    lemma_writable_put(spell, t, "spatial"@, flag_item(spatial));
    let t = put(t, "spatial"@, flag_item(spatial));
    lemma_writable_put(spell, t, "muted"@, flag_item(muted));
}

proof fn lemma_group_writable<F: Fn(Float32) -> String>(spell: F, g: GroupView)
    requires
        spells_numbers(spell),
    ensures
        writable(spell, group_entries(g)),
{
    lemma_settings_writable(
        spell,
        g.name,
        g.output_device,
        g.gain,
        g.follow_master,
        g.spatial,
        g.muted,
    );
    let t = settings_entries(
        g.name,
        g.output_device,
        g.gain,
        g.follow_master,
        g.spatial,
        g.muted,
    );
    lemma_writable_put(spell, t, "match_rules"@, texts_item(g.match_rules));
    let t = put(t, "match_rules"@, texts_item(g.match_rules));
    lemma_with_chain_writable(spell, t, g.dsp);
    let t = with_chain(t, g.dsp);
    lemma_with_duck_writable(spell, t, g.duck);
    let t = with_duck(t, g.duck);
    lemma_with_chord_writable(spell, t, "hotkey_mute"@, g.hotkey_mute);
    let t = with_chord(t, "hotkey_mute"@, g.hotkey_mute);
    lemma_with_chord_writable(spell, t, "hotkey_volume_up"@, g.hotkey_volume_up);
    let t = with_chord(t, "hotkey_volume_up"@, g.hotkey_volume_up);
    lemma_with_chord_writable(spell, t, "hotkey_volume_down"@, g.hotkey_volume_down);
}

proof fn lemma_profile_group_writable<F: Fn(Float32) -> String>(spell: F, g: ProfileGroupView)
    requires
        spells_numbers(spell),
    ensures
        writable(spell, profile_group_entries(g)),
{
    lemma_settings_writable(
        spell,
        g.name,
        g.output_device,
        g.gain,
        g.follow_master,
        g.spatial,
        g.muted,
    );
    let t = settings_entries(
        g.name,
        g.output_device,
        g.gain,
        g.follow_master,
        g.spatial,
        g.muted,
    );
    lemma_with_chain_writable(spell, t, g.dsp);
    lemma_with_duck_writable(spell, with_chain(t, g.dsp), g.duck);
}

proof fn lemma_profile_writable<F: Fn(Float32) -> String>(spell: F, p: ProfileView)
    requires
        spells_numbers(spell),
    ensures
        writable(spell, profile_entries(p)),
{
    let t = Seq::<(Seq<char>, ItemView)>::empty();
    assert(writable(spell, t));
    lemma_writable_put(spell, t, "name"@, text_item(p.name));
    let t = put(t, "name"@, text_item(p.name));
    lemma_with_chord_writable(spell, t, "hotkey"@, p.hotkey);
    let t = with_chord(t, "hotkey"@, p.hotkey);
    lemma_number_writable(spell, p.master);
    lemma_writable_put(spell, t, "master"@, number_item(p.master));
    let t = put(t, "master"@, number_item(p.master));
    lemma_writable_put(spell, t, "muted"@, flag_item(p.muted));
    let t = put(t, "muted"@, flag_item(p.muted));
    let ts = profile_groups_entries(p.groups);
    assert forall|i: int| 0 <= i < ts.len() implies writable(spell, #[trigger] ts[i]) by {
        lemma_profile_group_writable(spell, p.groups[i]);
    }
    lemma_tables_writable(spell, ts);
    lemma_writable_put(spell, t, "group"@, ItemView::Tables(ts));
}

#[verifier::spinoff_prover]
proof fn lemma_plain_edits_writable<F: Fn(Float32) -> String>(
    spell: F,
    doc: Entries,
    edit: EditView,
)
    requires
        plan(doc, edit) is Ok,
        match edit {
            EditView::SetMuted(_) => true,
            EditView::SetFollowMaster(_, _) => true,
            EditView::SetGroupMute(_, _) => true,
            EditView::SetGroupOutput(_, _) => true,
            EditView::RemoveGroup(_) => true,
            EditView::SetRules(_, _) => true,
            EditView::SetDspBypass(_, _, _) => true,
            EditView::RemoveDspStage(_, _) => true,
            EditView::SetSpatial(_, _) => true,
            EditView::RemoveProfile(_) => true,
            _ => !touches_groups(edit) && !touches_profiles(edit) && !(edit is SetMaster),
        },
    ensures
        ops_writable(spell, plan(doc, edit)->Ok_0),
{
}

/// Where every number is spelled as it is read, every edit that is not refused
/// can be written.
#[verifier::spinoff_prover]
pub proof fn accepted_edits_can_be_written<F: Fn(Float32) -> String>(
    spell: F,
    doc: Entries,
    edit: EditView,
)
    requires
        spells_numbers(spell),
        plan(doc, edit) is Ok,
    ensures
        ops_writable(spell, plan(doc, edit)->Ok_0),
{
    let ops = plan(doc, edit)->Ok_0;
    match edit {
        EditView::SetGroupGain(_, gain) => {
            lemma_number_writable(spell, gain);
            assert(ops_writable(spell, ops));
        },
        EditView::SetMaster(gain) => {
            lemma_number_writable(spell, gain);
            assert(ops_writable(spell, ops));
        },
        EditView::AddGroup(group) => {
            lemma_group_writable(spell, group);
            assert(ops_writable(spell, ops));
        },
        EditView::SetEqBand(_, _, _, band) => {
            lemma_number_writable(spell, band.freq_hz);
            lemma_number_writable(spell, band.gain_db);
            lemma_number_writable(spell, band.q);
            assert(ops_writable(spell, ops));
        },
        EditView::SetEqBands(_, _, bands) => {
            lemma_bands_writable(spell, bands);
            assert(ops_writable(spell, ops));
        },
        EditView::SetLimiterCeiling(_, ceiling_db) => {
            lemma_number_writable(spell, ceiling_db);
            assert(ops_writable(spell, ops));
        },
        EditView::SetDuck(_, duck) => {
            match duck {
                Some(d) => {
                    lemma_number_writable(spell, d.amount_db);
                    lemma_number_writable(spell, d.threshold_db);
                    lemma_number_writable(spell, d.attack_ms);
                    lemma_number_writable(spell, d.release_ms);
                },
                None => {},
            }
            assert(ops_writable(spell, ops));
        },
        EditView::AddDspStage(_, spec) => {
            lemma_stage_writable(spell, spec, false);
            assert(ops_writable(spell, ops));
        },
        EditView::SetDspChain(_, stages) => {
            lemma_chain_writable(spell, stages);
            assert(ops_writable(spell, ops));
        },
        EditView::SetProfile(profile) => {
            lemma_profile_writable(spell, profile);
            assert(ops_writable(spell, ops));
        },
        _ => {
            lemma_plain_edits_writable(spell, doc, edit);
        },
    }
}

proof fn lemma_ops_joined(doc: Entries, a: Seq<OpView>, b: Seq<OpView>, n: int)
    requires
        0 <= n <= a.len() + b.len(),
    ensures
        after_ops(doc, a + b, n) == if n <= a.len() {
            after_ops(doc, a, n)
        } else {
            after_ops(after_ops(doc, a, a.len() as int), b, n - a.len())
        },
    decreases n,
{
    reveal_with_fuel(after_ops, 2);
    if n > 0 {
        lemma_ops_joined(doc, a, b, n - 1);
        if n > a.len() {
            assert((a + b)[n - 1] == b[n - 1 - a.len()]);
        } else {
            assert((a + b)[n - 1] == a[n - 1]);
        }
    }
}

/// What is said of a number that was not spelled as it is read.
pub open spec fn misspelled_text() -> Seq<char> {
    "a number was not spelled as one"@
}

/// A batch that was tried: the document that it makes, the syntax tree that
/// holds it, and the text of the tree.
pub struct Draft {
    doc: Section,
    tree: toml_edit::DocumentMut,
    text: String,
}

impl Draft {
    /// The document that the batch makes.
    pub closed spec fn document(self) -> Entries {
        table_view(self.doc)
    }

    /// The syntax tree that the batch makes.
    pub closed spec fn tree(self) -> toml_edit::DocumentMut {
        self.tree
    }

    /// The text that the batch makes.
    pub closed spec fn words(self) -> Seq<char> {
        self.text@
    }

    /// The tree holds the document, and the text is that of the tree.
    pub open spec fn wf(self) -> bool {
        &&& mirrors(self.document(), document_contents(self.tree()))
        &&& self.words() == printed(self.tree())
    }

    /// The text to be written.
    pub fn text(&self) -> (r: &str)
        ensures
            r@ == self.words(),
    {
        self.text.as_str()
    }
}

/// The document of the configuration file as it was last read or written, with
/// the syntax tree that holds it, and the configuration that was last written.
pub struct ConfigStore {
    doc: Section,
    tree: toml_edit::DocumentMut,
    last_written: Option<ConfigSnapshot>,
}

impl ConfigStore {
    /// The document that edits start from.
    pub closed spec fn document(self) -> Entries {
        table_view(self.doc)
    }

    /// The syntax tree that edits start from.
    pub closed spec fn tree(self) -> toml_edit::DocumentMut {
        self.tree
    }

    /// The configuration that was last written.
    pub closed spec fn written(self) -> Option<SnapshotView> {
        self.last_written.deep_view()
    }

    /// The tree holds the document.
    pub open spec fn wf(self) -> bool {
        mirrors(self.document(), document_contents(self.tree()))
    }

    /// A store on the text of a configuration file, given how the text reads
    /// as a configuration.
    pub fn open(text: &str, parsed: Result<ConfigSnapshot, ConfigError>) -> (r: Result<
        ConfigStore,
        StoreError,
    >)
        ensures
            match document_of(text@) {
                Err(e) => r is Err && r->Err_0.deep_view() == StoreErrorView::Validation(
                    ConfigErrorView::Parse(e),
                ),
                Ok(held) => match parsed {
                    Err(e) => r is Err && r->Err_0 == StoreError::Validation(e),
                    Ok(_) => {
                        &&& r is Ok
                        &&& r->Ok_0.wf()
                        &&& document_contents(r->Ok_0.tree()) == held
                        &&& r->Ok_0.written() is None
                    },
                },
            },
    {
        match open_document(text) {
            Err(e) => Err(StoreError::Validation(ConfigError::Parse(e))),
            Ok((tree, doc)) => match parsed {
                Err(e) => Err(StoreError::Validation(e)),
                Ok(_) => Ok(ConfigStore { doc, tree, last_written: None }),
            },
        }
    }

    /// Whether what the edits touch is in a shape that can be edited.
    pub fn takes(&self, edits: &Vec<ConfigEdit>) -> (r: bool)
        ensures
            r == all_fit(self.document(), edits.deep_view()),
    {
        let mut i: usize = 0;
        while i < edits.len()
            invariant
                i <= edits@.len(),
                forall|j: int|
                    0 <= j < i ==> fits(self.document(), #[trigger] edits.deep_view()[j]),
            decreases edits@.len() - i,
        {
            assert(edits.deep_view()[i as int] == edits@[i as int].deep_view());
            if !takes(&self.doc, &edits[i]) {
                return false;
            }
            i = i + 1;
        }
        true
    }

    /// Tries the edits, in order, on a copy of the document. `spell` gives the
    /// digits of a number; digits that are not read as that number end the
    /// batch. Comments and order survive: the draft is written as the batch
    /// leaves the tree, and every key of the root is where it was, with what
    /// stood before it.
    pub fn draft<F: Fn(Float32) -> String>(&self, edits: &Vec<ConfigEdit>, spell: &F) -> (r: Result<
        Draft,
        StoreError,
    >)
        requires
            self.wf(),
            all_fit(self.document(), edits.deep_view()),
            forall|number: Float32| call_requires(*spell, (number,)),
        ensures
            match r {
                Ok(draft) => {
                    &&& batch(self.document(), edits.deep_view(), edits@.len() as int) is Ok
                    &&& batch(self.document(), edits.deep_view(), edits@.len() as int)->Ok_0.0
                        == draft.document()
                    &&& shapes_kept(self.document(), draft.document())
                    &&& draft.wf()
                    &&& document_outline(draft.tree()) == relaid_ops(
                        document_outline(self.tree()),
                        self.document(),
                        batch(self.document(), edits.deep_view(), edits@.len() as int)->Ok_0.1,
                        batch(
                            self.document(),
                            edits.deep_view(),
                            edits@.len() as int,
                        )->Ok_0.1.len() as int,
                    )
                    &&& leads_kept(document_outline(self.tree()), document_outline(draft.tree()))
                    &&& ending(draft.tree()) == ending(self.tree())
                },
                Err(e) => match batch(self.document(), edits.deep_view(), edits@.len() as int) {
                    Err(refusal) => e.deep_view() == refusal,
                    Ok(_) => {
                        &&& !spells_numbers(*spell)
                        &&& e.deep_view() == StoreErrorView::Validation(
                            ConfigErrorView::Parse(misspelled_text()),
                        )
                    },
                },
            },
    {
        let ghost start = table_view(self.doc);
        let mut doc = copy_table(&self.doc);
        let mut ops: Vec<DocOp> = Vec::new();
        assert(ops.deep_view() =~= Seq::empty());
        let mut i: usize = 0;
        while i < edits.len()
            invariant
                i <= edits.len(),
                start == self.document(),
                all_fit(start, edits.deep_view()),
                shapes_kept(start, table_view(doc)),
                batch(start, edits.deep_view(), i as int) == Ok::<_, StoreErrorView>(
                    (table_view(doc), ops.deep_view()),
                ),
                table_view(doc) == after_ops(start, ops.deep_view(), ops@.len() as int),
                spells_numbers(*spell) ==> ops_writable(*spell, ops.deep_view()),
                forall|k: int|
                    0 <= k < ops@.len() ==> keeps_shapes(#[trigger] ops.deep_view()[k]),
            decreases edits.len() - i,
        {
            assert(edits.deep_view()[i as int] == edits@[i as int].deep_view());
            let ghost so_far = table_view(doc);
            match apply_edit(&mut doc, &edits[i]) {
                Err(e) => {
                    proof {
                        lemma_batch_error(start, edits.deep_view(), i + 1, edits@.len() as int);
                    }
                    return Err(e);
                },
                Ok(more) => {
                    let ghost before = ops.deep_view();
                    let mut more = more;
                    let ghost added = more.deep_view();
                    ops.append(&mut more);
                    assert(ops.deep_view() =~= before + added);
                    proof {
                        lemma_plan_keeps(so_far, edits@[i as int].deep_view());
                        assert forall|k: int| 0 <= k < ops@.len() implies keeps_shapes(
                            #[trigger] ops.deep_view()[k],
                        ) by {
                            if k >= before.len() {
                                assert(ops.deep_view()[k] == added[k - before.len()]);
                            } else {
                                assert(ops.deep_view()[k] == before[k]);
                            }
                        }
                        lemma_ops_joined(start, before, added, (before.len() + added.len()) as int);
                        if spells_numbers(*spell) {
                            let edit = edits@[i as int].deep_view();
                            accepted_edits_can_be_written(*spell, so_far, edit);
                            assert(ops_writable(*spell, before + added));
                        }
                    }
                },
            }
            i = i + 1;
        }
        match edited(&self.tree, Ghost(start), &ops, spell) {
            Some((tree, text)) => {
                proof {
                    edits_keep_comments(
                        document_outline(self.tree),
                        start,
                        ops.deep_view(),
                        ops@.len() as int,
                        Seq::empty(),
                    );
                }
                Ok(Draft { doc, tree, text })
            },
            None => Err(
                StoreError::Validation(
                    ConfigError::Parse("a number was not spelled as one".to_owned()),
                ),
            ),
        }
    }

    /// Ends a batch, given how the text of the draft reads as a configuration
    /// and whether it was written. A draft that does not read as a valid
    /// configuration, or that could not be written, leaves the store as it was.
    pub fn apply(
        &mut self,
        draft: Draft,
        parsed: Result<ConfigSnapshot, ConfigError>,
        written: Result<(), String>,
    ) -> (r: Result<ConfigSnapshot, StoreError>)
        requires
            old(self).wf(),
            draft.wf(),
        ensures
            final(self).wf(),
            match parsed {
                Err(e) => {
                    &&& r == Err::<ConfigSnapshot, _>(StoreError::Validation(e))
                    &&& *final(self) == *old(self)
                },
                Ok(snapshot) => match written {
                    Err(text) => {
                        &&& r == Err::<ConfigSnapshot, _>(StoreError::Io(text))
                        &&& *final(self) == *old(self)
                    },
                    Ok(()) => {
                        &&& r is Ok
                        &&& r->Ok_0.deep_view() == snapshot.deep_view()
                        &&& final(self).document() == draft.document()
                        &&& final(self).tree() == draft.tree()
                        &&& final(self).written() == Some(snapshot.deep_view())
                    },
                },
            },
    {
        match parsed {
            Err(e) => Err(StoreError::Validation(e)),
            Ok(snapshot) => match written {
                Err(text) => Err(StoreError::Io(text)),
                Ok(()) => {
                    self.doc = draft.doc;
                    self.tree = draft.tree;
                    self.last_written = Some(snapshot.clone());
                    Ok(snapshot)
                },
            },
        }
    }

    /// Whether the configuration is exactly what this store last wrote, so
    /// that its own write is not taken for somebody else's edit.
    pub fn is_echo(&self, snapshot: &ConfigSnapshot) -> (r: bool)
        ensures
            r == match self.written() {
                Some(last) => last.equals(snapshot.deep_view()),
                None => false,
            },
    {
        match &self.last_written {
            Some(last) => last.same(snapshot),
            None => false,
        }
    }
}

proof fn lemma_one_op(doc: Entries, op: OpView)
    ensures
        after_ops(doc, seq![op], 1) == after_op(doc, op),
{
    reveal_with_fuel(after_ops, 2);
}

proof fn lemma_table_named_from(ts: Seq<Entries>, name: Seq<char>, from: int)
    requires
        0 <= from,
    ensures
        match table_named_from(ts, name, from) {
            Some(i) => from <= i < ts.len() && text_at(ts[i], "name"@) == Some(name) && forall|j: int|
                from <= j < i ==> text_at(#[trigger] ts[j], "name"@) != Some(name),
            None => forall|j: int|
                from <= j < ts.len() ==> text_at(#[trigger] ts[j], "name"@) != Some(name),
        },
    decreases ts.len() - from,
{
    if from < ts.len() && text_at(ts[from], "name"@) != Some(name) {
        lemma_table_named_from(ts, name, from + 1);
    }
}

proof fn lemma_table_named_is(ts: Seq<Entries>, name: Seq<char>, from: int, i: int)
    requires
        0 <= from <= i < ts.len(),
        text_at(ts[i], "name"@) == Some(name),
        forall|j: int| from <= j < i ==> text_at(#[trigger] ts[j], "name"@) != Some(name),
    ensures
        table_named_from(ts, name, from) == Some(i),
    decreases i - from,
{
    if from < i {
        lemma_table_named_is(ts, name, from + 1, i);
    }
}

/// An edit of one key of a group changes that key of the group that bears the
/// name, and nothing else in the document: every other key of the group,
/// every other group and every other root key stay as they were.
pub proof fn a_group_edit_touches_one_key(
    doc: Entries,
    name: Seq<char>,
    key: Seq<char>,
    item: ItemView,
    other: Seq<char>,
)
    requires
        has_groups(doc),
        tables_at(doc, "group"@)->0.len() <= usize::MAX,
        group_table_at(doc, name) is Some,
    ensures
        plan_in_group(doc, name, key, item) is Ok,
        ({
            let i = group_table_at(doc, name)->0;
            let groups = tables_at(doc, "group"@)->0;
            let after = after_ops(doc, plan_in_group(doc, name, key, item)->Ok_0, 1);
            &&& 0 <= i < groups.len()
            &&& tables_at(after, "group"@) == Some(groups.update(i, put(groups[i], key, item)))
            &&& get(tables_at(after, "group"@)->0[i], key) == Some(item)
            &&& other != key ==> get(tables_at(after, "group"@)->0[i], other) == get(
                groups[i],
                other,
            )
            &&& other != "group"@ ==> get(after, other) == get(doc, other)
        }),
{
    let i = group_table_at(doc, name)->0;
    let groups = tables_at(doc, "group"@)->0;
    lemma_table_named_from(groups, name, 0);
    let op = put_op(group_path(i), key, item);
    lemma_one_op(doc, op);
    reveal_with_fuel(changed_at, 3);
    let inner = groups.update(i, put(groups[i], key, item));
    assert(after_op(doc, op) == put(doc, "group"@, ItemView::Tables(inner)));
    set_then_get(doc, "group"@, ItemView::Tables(inner), other);
    set_then_get(groups[i], key, item, other);
}

/// A setting of the shell that was written reads back, and nothing outside
/// the settings changed.
pub proof fn an_app_edit_reads_back(doc: Entries, key: Seq<char>, item: ItemView, other: Seq<char>)
    requires
        table_shaped(doc, "app"@),
    ensures
        ({
            let after = after_ops(doc, plan_in_app(doc, key, Some(item))->Ok_0, 1);
            &&& get(after, "app"@) matches Some(ItemView::Table(app)) && get(app, key) == Some(item)
            &&& other != "app"@ ==> get(after, other) == get(doc, other)
        }),
{
    let op = put_op(app_path(), key, item);
    lemma_one_op(doc, op);
    reveal_with_fuel(changed_at, 3);
    let inner = match get(doc, "app"@) {
        Some(ItemView::Table(inner)) => inner,
        _ => Seq::empty(),
    };
    assert(after_op(doc, op) == put(doc, "app"@, ItemView::Table(put(inner, key, item))));
    set_then_get(doc, "app"@, ItemView::Table(put(inner, key, item)), other);
    set_then_get(inner, key, item, other);
}

proof fn lemma_name_of_profile(p: ProfileView)
    ensures
        text_at(profile_entries(p), "name"@) == Some(p.name),
{
    reveal_strlit("name");
    reveal_strlit("hotkey");
    reveal_strlit("master");
    reveal_strlit("muted");
    reveal_strlit("group");
    assert("name"@.len() == 4 && "hotkey"@.len() == 6 && "master"@.len() == 6 && "muted"@.len() == 5
        && "group"@.len() == 5);
    let t0 = put(Seq::empty(), "name"@, text_item(p.name));
    set_then_get(Seq::empty(), "name"@, text_item(p.name), "name"@);
    let t1 = with_chord(t0, "hotkey"@, p.hotkey);
    match p.hotkey {
        Some(c) => {
            set_then_get(t0, "hotkey"@, text_item(chord_text(c)), "name"@);
        },
        None => {},
    }
    let t2 = put(t1, "master"@, number_item(p.master));
    set_then_get(t1, "master"@, number_item(p.master), "name"@);
    let t3 = put(t2, "muted"@, flag_item(p.muted));
    set_then_get(t2, "muted"@, flag_item(p.muted), "name"@);
    set_then_get(t3, "group"@, ItemView::Tables(profile_groups_entries(p.groups)), "name"@);
}

/// Saving a profile makes the table of its name hold it. A profile of that
/// name is overwritten where it stands, a new one joins the end, and every
/// other profile and every other key stays as it was.
pub proof fn a_saved_profile_reads_back(doc: Entries, p: ProfileView)
    requires
        has_profiles(doc),
        tables_at(doc, "profile"@)->0.len() <= usize::MAX,
    ensures
        plan(doc, EditView::SetProfile(p)) is Ok,
        ({
            let before = tables_at(doc, "profile"@)->0;
            let after = after_ops(doc, plan(doc, EditView::SetProfile(p))->Ok_0, 1);
            let at = match profile_table_at(doc, p.name) {
                Some(i) => i,
                None => before.len() as int,
            };
            &&& profile_table_at(after, p.name) == Some(at)
            &&& tables_at(after, "profile"@)->0[at] == profile_entries(p)
            &&& tables_at(after, "profile"@)->0.len() == if at < before.len() {
                before.len()
            } else {
                before.len() + 1
            }
            &&& forall|other: Seq<char>|
                other != "profile"@ ==> #[trigger] get(after, other) == get(doc, other)
            &&& forall|j: int|
                0 <= j < before.len() && j != at ==> (#[trigger] tables_at(
                    after,
                    "profile"@,
                )->0[j]) == before[j]
        }),
{
    let before = tables_at(doc, "profile"@)->0;
    lemma_table_named_from(before, p.name, 0);
    lemma_name_of_profile(p);
    match profile_table_at(doc, p.name) {
        Some(i) => {
            let op = OpView {
                path: Seq::empty(),
                change: ChangeView::ReplaceAt {
                    key: "profile"@,
                    index: i as usize,
                    table: profile_entries(p),
                },
            };
            lemma_one_op(doc, op);
            let inner = before.update(i, profile_entries(p));
            assert(after_op(doc, op) == put(doc, "profile"@, ItemView::Tables(inner)));
            set_then_get(doc, "profile"@, ItemView::Tables(inner), "profile"@);
            assert forall|other: Seq<char>| other != "profile"@ implies #[trigger] get(
                after_op(doc, op),
                other,
            ) == get(doc, other) by {
                set_then_get(doc, "profile"@, ItemView::Tables(inner), other);
            }
            lemma_table_named_is(inner, p.name, 0, i);
        },
        None => {
            let op = OpView {
                path: Seq::empty(),
                change: ChangeView::Push { key: "profile"@, table: profile_entries(p) },
            };
            lemma_one_op(doc, op);
            let inner = before.push(profile_entries(p));
            assert(after_op(doc, op) == put(doc, "profile"@, ItemView::Tables(inner)));
            set_then_get(doc, "profile"@, ItemView::Tables(inner), "profile"@);
            assert forall|other: Seq<char>| other != "profile"@ implies #[trigger] get(
                after_op(doc, op),
                other,
            ) == get(doc, other) by {
                set_then_get(doc, "profile"@, ItemView::Tables(inner), other);
            }
            lemma_table_named_is(inner, p.name, 0, before.len() as int);
        },
    }
}

/// No NaN among the numbers of the ducking.
pub open spec fn duck_is_numeric(duck: Option<DuckView>) -> bool {
    duck matches Some(d) ==> !d.amount_db.nan() && !d.threshold_db.nan() && !d.attack_ms.nan()
        && !d.release_ms.nan()
}

/// No NaN among the numbers of the chain.
pub open spec fn chain_is_numeric(stages: Seq<DspStageView>) -> bool {
    forall|i: int|
        0 <= i < stages.len() ==> match (#[trigger] stages[i]).spec {
            DspSpecView::Eq { bands } => forall|j: int|
                0 <= j < bands.len() ==> !(#[trigger] bands[j]).freq_hz.nan()
                    && !bands[j].gain_db.nan() && !bands[j].q.nan(),
            DspSpecView::Limiter { ceiling_db } => !ceiling_db.nan(),
        }
}

/// No NaN anywhere in the configuration.
pub open spec fn is_numeric(s: SnapshotView) -> bool {
    &&& !s.master.nan()
    &&& forall|i: int|
        0 <= i < s.groups.len() ==> !(#[trigger] s.groups[i]).gain.nan() && chain_is_numeric(
            s.groups[i].dsp,
        ) && duck_is_numeric(s.groups[i].duck)
    &&& forall|i: int| 0 <= i < s.profiles.len() ==> profile_is_numeric(#[trigger] s.profiles[i])
}

/// No NaN anywhere in the profile.
pub open spec fn profile_is_numeric(p: ProfileView) -> bool {
    &&& !p.master.nan()
    &&& forall|i: int|
        0 <= i < p.groups.len() ==> !(#[trigger] p.groups[i]).gain.nan() && chain_is_numeric(
            p.groups[i].dsp,
        ) && duck_is_numeric(p.groups[i].duck)
}

/// A configuration without NaN equals itself, so the store that wrote it
/// knows it again.
pub proof fn a_written_configuration_is_an_echo(s: SnapshotView)
    requires
        is_numeric(s),
    ensures
        s.equals(s),
{
    assert forall|i: int| 0 <= i < s.groups.len() implies (#[trigger] s.groups[i]).equals(
        s.groups[i],
    ) by {}
    assert forall|i: int| 0 <= i < s.profiles.len() implies (#[trigger] s.profiles[i]).equals(
        s.profiles[i],
    ) by {
        let p = s.profiles[i];
        assert(profile_is_numeric(p));
        assert forall|j: int| 0 <= j < p.groups.len() implies (#[trigger] p.groups[j]).equals(
            p.groups[j],
        ) by {}
    }
}

/// The table of a group as a reader finds it, key by key.
proof fn lemma_group_table(g: GroupView, key: Seq<char>)
    ensures
        get(group_entries(g), key) == if key == "hotkey_volume_down"@ && g.hotkey_volume_down
            is Some {
            Some(text_item(chord_text(g.hotkey_volume_down->0)))
        } else if key == "hotkey_volume_up"@ && g.hotkey_volume_up is Some {
            Some(text_item(chord_text(g.hotkey_volume_up->0)))
        } else if key == "hotkey_mute"@ && g.hotkey_mute is Some {
            Some(text_item(chord_text(g.hotkey_mute->0)))
        } else if key == "duck"@ && g.duck is Some {
            Some(ItemView::Table(with_duck_keys(Seq::empty(), g.duck->0)))
        } else if key == "dsp"@ && g.dsp.len() > 0 {
            Some(ItemView::Tables(chain_entries(g.dsp)))
        } else if key == "match_rules"@ {
            Some(texts_item(g.match_rules))
        } else if key == "muted"@ {
            Some(flag_item(g.muted))
        } else if key == "spatial"@ {
            Some(flag_item(g.spatial))
        } else if key == "follow_master"@ {
            Some(flag_item(g.follow_master))
        } else if key == "gain"@ {
            Some(number_item(g.gain))
        } else if key == "output_device"@ {
            Some(text_item(g.output_device))
        } else if key == "name"@ {
            Some(text_item(g.name))
        } else {
            None
        },
{
    let t0: Entries = Seq::empty();
    set_then_get(t0, "name"@, text_item(g.name), key);
    let t1 = put(t0, "name"@, text_item(g.name));
    set_then_get(t1, "output_device"@, text_item(g.output_device), key);
    let t2 = put(t1, "output_device"@, text_item(g.output_device));
    set_then_get(t2, "gain"@, number_item(g.gain), key);
    let t3 = put(t2, "gain"@, number_item(g.gain));
    set_then_get(t3, "follow_master"@, flag_item(g.follow_master), key);
    let t4 = put(t3, "follow_master"@, flag_item(g.follow_master));
    set_then_get(t4, "spatial"@, flag_item(g.spatial), key);
    let t5 = put(t4, "spatial"@, flag_item(g.spatial));
    set_then_get(t5, "muted"@, flag_item(g.muted), key);
    let t6 = put(t5, "muted"@, flag_item(g.muted));
    set_then_get(t6, "match_rules"@, texts_item(g.match_rules), key);
    let t7 = put(t6, "match_rules"@, texts_item(g.match_rules));
    set_then_get(t7, "dsp"@, ItemView::Tables(chain_entries(g.dsp)), key);
    let t8 = with_chain(t7, g.dsp);
    let t9 = with_duck(t8, g.duck);
    if let Some(d) = g.duck {
        set_then_get(t8, "duck"@, ItemView::Table(with_duck_keys(Seq::empty(), d)), key);
    }
    let t10 = with_chord(t9, "hotkey_mute"@, g.hotkey_mute);
    if let Some(c) = g.hotkey_mute {
        set_then_get(t9, "hotkey_mute"@, text_item(chord_text(c)), key);
    }
    let t11 = with_chord(t10, "hotkey_volume_up"@, g.hotkey_volume_up);
    if let Some(c) = g.hotkey_volume_up {
        set_then_get(t10, "hotkey_volume_up"@, text_item(chord_text(c)), key);
    }
    if let Some(c) = g.hotkey_volume_down {
        set_then_get(t11, "hotkey_volume_down"@, text_item(chord_text(c)), key);
    }
}

proof fn lemma_group_keys()
    ensures
        "name"@ != "gain"@,
        "name"@ != "output_device"@,
        "name"@ != "follow_master"@,
        "name"@ != "spatial"@,
        "name"@ != "muted"@,
        "name"@ != "match_rules"@,
        "gain"@ != "output_device"@,
        "gain"@ != "follow_master"@,
        "gain"@ != "spatial"@,
        "gain"@ != "muted"@,
        "gain"@ != "match_rules"@,
        "output_device"@ != "follow_master"@,
        "output_device"@ != "spatial"@,
        "output_device"@ != "muted"@,
        "output_device"@ != "match_rules"@,
        "follow_master"@ != "spatial"@,
        "follow_master"@ != "muted"@,
        "follow_master"@ != "match_rules"@,
        "spatial"@ != "muted"@,
        "spatial"@ != "match_rules"@,
        "muted"@ != "match_rules"@,
        forall|key: Seq<char>|
            #![trigger key.len()]
            (key == "dsp"@ || key == "duck"@ || key == "hotkey_mute"@ || key
                == "hotkey_volume_up"@ || key == "hotkey_volume_down"@) ==> key != "name"@ && key
                != "gain"@ && key != "output_device"@ && key != "follow_master"@ && key
                != "spatial"@ && key != "muted"@ && key != "match_rules"@,
{
    reveal_strlit("name");
    reveal_strlit("gain");
    reveal_strlit("output_device");
    reveal_strlit("follow_master");
    reveal_strlit("spatial");
    reveal_strlit("muted");
    reveal_strlit("match_rules");
    reveal_strlit("dsp");
    reveal_strlit("duck");
    reveal_strlit("hotkey_mute");
    reveal_strlit("hotkey_volume_up");
    reveal_strlit("hotkey_volume_down");
    assert("name"@.len() == 4 && "gain"@.len() == 4 && "duck"@.len() == 4 && "dsp"@.len() == 3);
    assert("output_device"@.len() == 13 && "follow_master"@.len() == 13);
    assert("spatial"@.len() == 7 && "muted"@.len() == 5);
    assert("match_rules"@.len() == 11 && "hotkey_mute"@.len() == 11);
    assert("hotkey_volume_up"@.len() == 16 && "hotkey_volume_down"@.len() == 18);
    assert("name"@[0] == 'n' && "gain"@[0] == 'g' && "duck"@[0] == 'd');
    assert("output_device"@[0] == 'o' && "follow_master"@[0] == 'f');
    assert("match_rules"@[0] == 'm' && "hotkey_mute"@[0] == 'h');
}

/// A group after an edit of one of its plain settings.
pub open spec fn group_edited(g: GroupView, edit: EditView) -> Option<GroupView> {
    match edit {
        EditView::SetGroupGain(_, gain) => Some(GroupView { gain, ..g }),
        EditView::SetFollowMaster(_, on) => Some(GroupView { follow_master: on, ..g }),
        EditView::SetGroupMute(_, on) => Some(GroupView { muted: on, ..g }),
        EditView::SetGroupOutput(_, device) => Some(GroupView { output_device: device, ..g }),
        EditView::SetSpatial(_, on) => Some(GroupView { spatial: on, ..g }),
        EditView::SetRules(_, rules) => Some(GroupView { match_rules: rules, ..g }),
        _ => None,
    }
}

/// An edit of a plain setting makes of a group's table what a new table of the
/// edited group would hold, key by key: every setting is written where the table
/// has it.
pub proof fn an_edited_group_is_written_like_a_new_one(
    doc: Entries,
    g: GroupView,
    edit: EditView,
    after: GroupView,
    key: Seq<char>,
)
    requires
        has_groups(doc),
        tables_at(doc, "group"@)->0.len() <= usize::MAX,
        group_edited(g, edit) == Some(after),
        group_table_at(doc, edited_name(edit)) matches Some(i) && tables_at(doc, "group"@)->0[i]
            == group_entries(g),
    ensures
        ({
            let i = group_table_at(doc, edited_name(edit))->0;
            let then = after_ops(doc, plan(doc, edit)->Ok_0, 1);
            &&& plan(doc, edit) is Ok
            &&& get(tables_at(then, "group"@)->0[i], key) == get(group_entries(after), key)
        }),
{
    lemma_group_table(g, key);
    lemma_group_table(after, key);
    lemma_group_keys();
    let name = edited_name(edit);
    assert(key.len() >= 0);
    match edit {
        EditView::SetGroupGain(_, gain) => {
            lemma_group_table(after, "gain"@);
            a_group_edit_touches_one_key(doc, name, "gain"@, number_item(gain), key);
        },
        EditView::SetFollowMaster(_, on) => {
            a_group_edit_touches_one_key(doc, name, "follow_master"@, flag_item(on), key);
        },
        EditView::SetGroupMute(_, on) => {
            a_group_edit_touches_one_key(doc, name, "muted"@, flag_item(on), key);
        },
        EditView::SetGroupOutput(_, device) => {
            a_group_edit_touches_one_key(doc, name, "output_device"@, text_item(device), key);
        },
        EditView::SetSpatial(_, on) => {
            a_group_edit_touches_one_key(doc, name, "spatial"@, flag_item(on), key);
        },
        EditView::SetRules(_, rules) => {
            a_group_edit_touches_one_key(doc, name, "match_rules"@, texts_item(rules), key);
        },
        _ => {},
    }
}

/// The name of the group that an edit of a plain setting is of.
pub open spec fn edited_name(edit: EditView) -> Seq<char> {
    match edit {
        EditView::SetGroupGain(name, _) => name,
        EditView::SetFollowMaster(name, _) => name,
        EditView::SetGroupMute(name, _) => name,
        EditView::SetGroupOutput(name, _) => name,
        EditView::SetSpatial(name, _) => name,
        EditView::SetRules(name, _) => name,
        _ => Seq::empty(),
    }
}

} // verus!
