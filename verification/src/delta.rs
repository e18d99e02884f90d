//! What changed between two configurations, and which path carries each
//! change to the running engine.
use crate::command::{CommandView, MixerCommand};
use crate::dsp::{DspSpec, DspSpecView};
use crate::model::{
    ducks_equal, same_duck, ConfigSnapshot, DspStageConfig, DspStageView, DuckSpecConfig, DuckView,
    GroupConfig, GroupView, SnapshotView,
};
use crate::rules::{all_rules, group_rules, GroupRules, GroupRulesView};
use crate::sample::{DuckSpec, GroupId};
use crate::text::{copy_texts, same_text, same_texts};
use vstd::prelude::*;

verus! {

/// Position of the first group of that name at or after `from`.
pub open spec fn named_from(groups: Seq<GroupView>, name: Seq<char>, from: int) -> Option<int>
    decreases groups.len() - from,
{
    if from < 0 || from >= groups.len() {
        None
    } else if groups[from].name == name {
        Some(from)
    } else {
        named_from(groups, name, from + 1)
    }
}

/// Position of the first group of that name.
pub open spec fn group_named(groups: Seq<GroupView>, name: Seq<char>) -> Option<int> {
    named_from(groups, name, 0)
}

proof fn lemma_named_from(groups: Seq<GroupView>, name: Seq<char>, from: int)
    requires
        0 <= from,
    ensures
        match named_from(groups, name, from) {
            Some(i) => from <= i < groups.len() && groups[i].name == name && forall|j: int|
                from <= j < i ==> (#[trigger] groups[j]).name != name,
            None => forall|j: int| from <= j < groups.len() ==> (#[trigger] groups[j]).name != name,
        },
    decreases groups.len() - from,
{
    if from < groups.len() && groups[from].name != name {
        lemma_named_from(groups, name, from + 1);
    }
}

/// The group found by name is the first that bears it, and none is found
/// only where none bears it.
pub proof fn group_named_is_the_first(groups: Seq<GroupView>, name: Seq<char>)
    ensures
        match group_named(groups, name) {
            Some(i) => 0 <= i < groups.len() && groups[i].name == name && forall|j: int|
                0 <= j < i ==> (#[trigger] groups[j]).name != name,
            None => forall|j: int| 0 <= j < groups.len() ==> (#[trigger] groups[j]).name != name,
        },
{
    lemma_named_from(groups, name, 0);
}

/// Position of the first group of that name.
pub fn group_index(groups: &Vec<GroupConfig>, name: &str) -> (r: Option<usize>)
    ensures
        match r {
            Some(i) => group_named(groups.deep_view(), name@) == Some(i as int) && i < groups@.len()
                && groups@[i as int].name@ == name@,
            None => group_named(groups.deep_view(), name@) is None,
        },
{
    let mut i: usize = 0;
    while i < groups.len()
        invariant
            i <= groups.len(),
            group_named(groups.deep_view(), name@) == named_from(
                groups.deep_view(),
                name@,
                i as int,
            ),
        decreases groups.len() - i,
    {
        if same_text(&groups[i].name, name) {
            return Some(i);
        }
        i = i + 1;
    }
    None
}

/// What one configuration changes against another. A structural change
/// carries nothing else: a rebuild makes the positional ids of every other
/// change moot.
#[derive(Debug)]
pub struct ConfigDelta {
    pub structural: bool,
    pub params: Vec<MixerCommand>,
    pub rules: Option<Vec<GroupRules>>,
    /// Chains whose stages changed. A bypass switch alone stays in `params`.
    pub dsp_chains: Option<Vec<(GroupId, Vec<DspSpec>)>>,
    pub spatial: Option<Vec<(GroupId, bool)>>,
    pub excluded: Option<Vec<String>>,
}

/// What a [`ConfigDelta`] holds.
pub struct DeltaView {
    pub structural: bool,
    pub params: Seq<CommandView>,
    pub rules: Option<Seq<GroupRulesView>>,
    pub dsp_chains: Option<Seq<(GroupId, Seq<DspSpecView>)>>,
    pub spatial: Option<Seq<(GroupId, bool)>>,
    pub excluded: Option<Seq<Seq<char>>>,
}

impl DeepView for ConfigDelta {
    type V = DeltaView;

    open spec fn deep_view(&self) -> DeltaView {
        DeltaView {
            structural: self.structural,
            params: self.params.deep_view(),
            rules: self.rules.deep_view(),
            dsp_chains: self.dsp_chains.deep_view(),
            spatial: self.spatial.deep_view(),
            excluded: self.excluded.deep_view(),
        }
    }
}

impl DeltaView {
    /// Nothing changed.
    pub open spec fn unchanged(self) -> bool {
        !self.structural && self.params.len() == 0 && self.rules is None && self.dsp_chains is None
            && self.spatial is None && self.excluded is None
    }
}

/// The delta that asks for a rebuild.
pub open spec fn rebuild_delta() -> DeltaView {
    DeltaView {
        structural: true,
        params: Seq::empty(),
        rules: None,
        dsp_chains: None,
        spatial: None,
        excluded: None,
    }
}

impl ConfigDelta {
    pub fn is_unchanged(&self) -> (r: bool)
        ensures
            r == self.deep_view().unchanged(),
    {
        !self.structural && self.params.len() == 0 && self.rules.is_none()
            && self.dsp_chains.is_none() && self.spatial.is_none() && self.excluded.is_none()
    }

    fn rebuild() -> (r: ConfigDelta)
        ensures
            r.deep_view() == rebuild_delta(),
    {
        let r = ConfigDelta {
            structural: true,
            params: Vec::new(),
            rules: None,
            dsp_chains: None,
            spatial: None,
            excluded: None,
        };
        assert(r.params.deep_view() =~= Seq::empty());
        r
    }
}

/// The command alone where it is called for, else nothing.
pub open spec fn when(called_for: bool, command: CommandView) -> Seq<CommandView> {
    if called_for {
        seq![command]
    } else {
        Seq::empty()
    }
}

/// Whether two chains have equal stages in the same order, bypassed or not.
pub open spec fn specs_equal(a: Seq<DspStageView>, b: Seq<DspStageView>) -> bool {
    a.len() == b.len() && forall|i: int|
        0 <= i < a.len() ==> (#[trigger] a[i]).spec.equals(b[i].spec)
}

/// The bypass switches that differ among the first `n` stages.
pub open spec fn bypass_changes(
    old: Seq<DspStageView>,
    new: Seq<DspStageView>,
    id: GroupId,
    n: int,
) -> Seq<CommandView>
    decreases n,
{
    if n <= 0 {
        Seq::empty()
    } else {
        bypass_changes(old, new, id, n - 1) + when(
            old[n - 1].bypassed != new[n - 1].bypassed,
            CommandView::SetDspBypass {
                group: id,
                stage: (n - 1) as usize,
                bypassed: new[n - 1].bypassed,
            },
        )
    }
}

/// Ducking with its trigger found among the groups; none where no group bears
/// the trigger's name.
pub open spec fn resolved_duck(groups: Seq<GroupView>, duck: Option<DuckView>) -> Option<DuckSpec> {
    match duck {
        None => None,
        Some(d) => match group_named(groups, d.trigger) {
            None => None,
            Some(i) => Some(
                DuckSpec {
                    trigger: GroupId(i as u16),
                    amount_db: d.amount_db,
                    threshold_db: d.threshold_db,
                    attack_ms: d.attack_ms,
                    release_ms: d.release_ms,
                },
            ),
        },
    }
}

/// The commands for one group, in order.
pub open spec fn group_params(
    o: GroupView,
    n: GroupView,
    id: GroupId,
    groups: Seq<GroupView>,
) -> Seq<CommandView> {
    when(!o.gain.equals(n.gain), CommandView::SetGroupGain(id, n.gain)) + when(
        o.follow_master != n.follow_master,
        CommandView::SetFollowMaster(id, n.follow_master),
    ) + when(o.muted != n.muted, CommandView::SetGroupMute(id, n.muted)) + (if specs_equal(
        o.dsp,
        n.dsp,
    ) {
        bypass_changes(o.dsp, n.dsp, id, o.dsp.len() as int)
    } else {
        Seq::empty()
    }) + when(
        !ducks_equal(o.duck, n.duck),
        CommandView::SetDuck { group: id, duck: resolved_duck(groups, n.duck) },
    )
}

/// The commands for the first `k` groups, in order.
pub open spec fn params_upto(old: Seq<GroupView>, new: Seq<GroupView>, k: int) -> Seq<CommandView>
    decreases k,
{
    if k <= 0 {
        Seq::empty()
    } else {
        params_upto(old, new, k - 1) + group_params(
            old[k - 1],
            new[k - 1],
            GroupId((k - 1) as u16),
            new,
        )
    }
}

/// The stages of a chain without their switches.
pub open spec fn specs_of(stages: Seq<DspStageView>) -> Seq<DspSpecView> {
    Seq::new(stages.len(), |i: int| stages[i].spec)
}

/// The chains that differ among the first `k` groups.
pub open spec fn chains_upto(old: Seq<GroupView>, new: Seq<GroupView>, k: int) -> Seq<
    (GroupId, Seq<DspSpecView>),
>
    decreases k,
{
    if k <= 0 {
        Seq::empty()
    } else if specs_equal(old[k - 1].dsp, new[k - 1].dsp) {
        chains_upto(old, new, k - 1)
    } else {
        chains_upto(old, new, k - 1).push((GroupId((k - 1) as u16), specs_of(new[k - 1].dsp)))
    }
}

/// The spatial switches that differ among the first `k` groups.
pub open spec fn spatial_upto(old: Seq<GroupView>, new: Seq<GroupView>, k: int) -> Seq<
    (GroupId, bool),
>
    decreases k,
{
    if k <= 0 {
        Seq::empty()
    } else if old[k - 1].spatial == new[k - 1].spatial {
        spatial_upto(old, new, k - 1)
    } else {
        spatial_upto(old, new, k - 1).push((GroupId((k - 1) as u16), new[k - 1].spatial))
    }
}

/// A change that only a rebuild can carry: another set or order of groups, or
/// a group on another device.
pub open spec fn needs_rebuild(old: Seq<GroupView>, new: Seq<GroupView>) -> bool {
    old.len() != new.len() || exists|i: int|
        0 <= i < old.len() && ((#[trigger] old[i]).name != new[i].name || old[i].output_device
            != new[i].output_device)
}

/// Some group's match rules differ.
pub open spec fn rules_changed(old: Seq<GroupView>, new: Seq<GroupView>) -> bool {
    exists|i: int| 0 <= i < old.len() && (#[trigger] old[i]).match_rules != new[i].match_rules
}

/// The list itself, or nothing where it is empty.
pub open spec fn non_empty<T>(list: Seq<T>) -> Option<Seq<T>> {
    if list.len() == 0 {
        None
    } else {
        Some(list)
    }
}

/// The commands for the master, in order.
pub open spec fn master_params(old: SnapshotView, new: SnapshotView) -> Seq<CommandView> {
    when(!old.master.equals(new.master), CommandView::SetMaster(new.master)) + when(
        old.muted != new.muted,
        CommandView::SetMuted(new.muted),
    )
}

/// What `new` changes against `old`.
pub open spec fn delta_of(old: SnapshotView, new: SnapshotView) -> DeltaView {
    if needs_rebuild(old.groups, new.groups) {
        rebuild_delta()
    } else {
        DeltaView {
            structural: false,
            params: master_params(old, new) + params_upto(
                old.groups,
                new.groups,
                old.groups.len() as int,
            ),
            rules: if rules_changed(old.groups, new.groups) {
                Some(all_rules(new.groups))
            } else {
                None
            },
            dsp_chains: non_empty(
                chains_upto(old.groups, new.groups, old.groups.len() as int),
            ),
            spatial: non_empty(spatial_upto(old.groups, new.groups, old.groups.len() as int)),
            excluded: if old.app.excluded == new.app.excluded {
                None
            } else {
                Some(new.app.excluded)
            },
        }
    }
}

fn push_when(params: &mut Vec<MixerCommand>, called_for: bool, command: MixerCommand)
    ensures
        final(params).deep_view() == old(params).deep_view() + when(
            called_for,
            command.deep_view(),
        ),
{
    if called_for {
        params.push(command);
    }
    assert(params.deep_view() =~= old(params).deep_view() + when(called_for, command.deep_view()));
}

proof fn lemma_regroup(
    b: Seq<CommandView>,
    p: Seq<CommandView>,
    q: Seq<CommandView>,
    r: Seq<CommandView>,
    s: Seq<CommandView>,
    t: Seq<CommandView>,
)
    ensures
        ((((b + p) + q) + r) + s) + t == b + ((((p + q) + r) + s) + t),
{
    assert(((((b + p) + q) + r) + s) + t =~= b + ((((p + q) + r) + s) + t));
}

fn same_specs(a: &Vec<DspStageConfig>, b: &Vec<DspStageConfig>) -> (r: bool)
    ensures
        r == specs_equal(a.deep_view(), b.deep_view()),
{
    if a.len() != b.len() {
        return false;
    }
    let mut i: usize = 0;
    while i < a.len()
        invariant
            i <= a.len() == b.len(),
            forall|j: int|
                0 <= j < i ==> (#[trigger] a.deep_view()[j]).spec.equals(b.deep_view()[j].spec),
        decreases a.len() - i,
    {
        if !a[i].spec.same(&b[i].spec) {
            assert(!a.deep_view()[i as int].spec.equals(b.deep_view()[i as int].spec));
            return false;
        }
        i = i + 1;
    }
    true
}

/// The stages of a chain without their switches.
pub fn chain_specs(stages: &Vec<DspStageConfig>) -> (r: Vec<DspSpec>)
    ensures
        r.deep_view() == specs_of(stages.deep_view()),
{
    let mut out: Vec<DspSpec> = Vec::new();
    let mut i: usize = 0;
    while i < stages.len()
        invariant
            i <= stages.len(),
            out@.len() == i,
            forall|j: int| 0 <= j < i ==> (#[trigger] out@[j]).deep_view() == stages@[j].spec.deep_view(),
        decreases stages.len() - i,
    {
        out.push(stages[i].spec.clone());
        i = i + 1;
    }
    assert(out.deep_view() =~= specs_of(stages.deep_view()));
    out
}

/// Ducking with its trigger found among the groups.
pub fn resolve_duck(groups: &Vec<GroupConfig>, duck: &Option<DuckSpecConfig>) -> (r: Option<DuckSpec>)
    ensures
        r == resolved_duck(groups.deep_view(), duck.deep_view()),
{
    match duck {
        None => None,
        Some(d) => match group_index(groups, &d.trigger) {
            None => None,
            Some(i) => Some(
                DuckSpec {
                    trigger: GroupId(i as u16),
                    amount_db: d.amount_db,
                    threshold_db: d.threshold_db,
                    attack_ms: d.attack_ms,
                    release_ms: d.release_ms,
                },
            ),
        },
    }
}

fn push_bypass_changes(
    params: &mut Vec<MixerCommand>,
    old_stages: &Vec<DspStageConfig>,
    new_stages: &Vec<DspStageConfig>,
    id: GroupId,
)
    requires
        old_stages@.len() == new_stages@.len(),
    ensures
        final(params).deep_view() == old(params).deep_view() + bypass_changes(
            old_stages.deep_view(),
            new_stages.deep_view(),
            id,
            old_stages@.len() as int,
        ),
{
    let ghost before = params.deep_view();
    let mut stage: usize = 0;
    assert(before =~= before + bypass_changes(old_stages.deep_view(), new_stages.deep_view(), id, 0));
    while stage < old_stages.len()
        invariant
            stage <= old_stages.len() == new_stages.len(),
            params.deep_view() == before + bypass_changes(
                old_stages.deep_view(),
                new_stages.deep_view(),
                id,
                stage as int,
            ),
        decreases old_stages.len() - stage,
    {
        let bypassed = new_stages[stage].bypassed;
        push_when(
            params,
            old_stages[stage].bypassed != bypassed,
            MixerCommand::SetDspBypass { group: id, stage, bypassed },
        );
        stage = stage + 1;
        assert(params.deep_view() =~= before + bypass_changes(
            old_stages.deep_view(),
            new_stages.deep_view(),
            id,
            stage as int,
        ));
    }
}

fn push_group_params(
    params: &mut Vec<MixerCommand>,
    o: &GroupConfig,
    n: &GroupConfig,
    id: GroupId,
    groups: &Vec<GroupConfig>,
    chain_kept: bool,
)
    requires
        chain_kept == specs_equal(o.deep_view().dsp, n.deep_view().dsp),
    ensures
        final(params).deep_view() == old(params).deep_view() + group_params(
            o.deep_view(),
            n.deep_view(),
            id,
            groups.deep_view(),
        ),
{
    let ghost before = params.deep_view();
    push_when(params, !o.gain.same(n.gain), MixerCommand::SetGroupGain(id, n.gain));
    push_when(
        params,
        o.follow_master != n.follow_master,
        MixerCommand::SetFollowMaster(id, n.follow_master),
    );
    push_when(params, o.muted != n.muted, MixerCommand::SetGroupMute(id, n.muted));
    let ghost bypass = if chain_kept {
        bypass_changes(o.deep_view().dsp, n.deep_view().dsp, id, o.dsp@.len() as int)
    } else {
        Seq::empty()
    };
    let ghost middle = params.deep_view();
    if chain_kept {
        push_bypass_changes(params, &o.dsp, &n.dsp, id);
    }
    assert(params.deep_view() =~= middle + bypass);
    let duck = resolve_duck(groups, &n.duck);
    push_when(
        params,
        !same_duck(&o.duck, &n.duck),
        MixerCommand::SetDuck { group: id, duck },
    );
    proof {
        let ov = o.deep_view();
        let nv = n.deep_view();
        lemma_regroup(
            before,
            when(!ov.gain.equals(nv.gain), CommandView::SetGroupGain(id, nv.gain)),
            when(
                ov.follow_master != nv.follow_master,
                CommandView::SetFollowMaster(id, nv.follow_master),
            ),
            when(ov.muted != nv.muted, CommandView::SetGroupMute(id, nv.muted)),
            bypass,
            when(
                !ducks_equal(ov.duck, nv.duck),
                CommandView::SetDuck { group: id, duck: resolved_duck(groups.deep_view(), nv.duck) },
            ),
        );
    }
}

fn groups_need_rebuild(old_groups: &Vec<GroupConfig>, new_groups: &Vec<GroupConfig>) -> (r: bool)
    ensures
        r == needs_rebuild(old_groups.deep_view(), new_groups.deep_view()),
{
    if old_groups.len() != new_groups.len() {
        return true;
    }
    let mut i: usize = 0;
    while i < old_groups.len()
        invariant
            i <= old_groups.len() == new_groups.len(),
            forall|j: int|
                0 <= j < i ==> (#[trigger] old_groups.deep_view()[j]).name
                    == new_groups.deep_view()[j].name && old_groups.deep_view()[j].output_device
                    == new_groups.deep_view()[j].output_device,
        decreases old_groups.len() - i,
    {
        if old_groups[i].name != new_groups[i].name || old_groups[i].output_device
            != new_groups[i].output_device {
            assert(old_groups.deep_view()[i as int].name != new_groups.deep_view()[i as int].name
                || old_groups.deep_view()[i as int].output_device
                != new_groups.deep_view()[i as int].output_device);
            return true;
        }
        i = i + 1;
    }
    false
}

fn groups_changed_rules(old_groups: &Vec<GroupConfig>, new_groups: &Vec<GroupConfig>) -> (r: bool)
    requires
        old_groups@.len() == new_groups@.len(),
    ensures
        r == rules_changed(old_groups.deep_view(), new_groups.deep_view()),
{
    let mut i: usize = 0;
    while i < old_groups.len()
        invariant
            i <= old_groups.len() == new_groups.len(),
            forall|j: int|
                0 <= j < i ==> (#[trigger] old_groups.deep_view()[j]).match_rules
                    == new_groups.deep_view()[j].match_rules,
        decreases old_groups.len() - i,
    {
        if !same_texts(&old_groups[i].match_rules, &new_groups[i].match_rules) {
            assert(old_groups.deep_view()[i as int].match_rules
                != new_groups.deep_view()[i as int].match_rules);
            return true;
        }
        i = i + 1;
    }
    false
}

/// What `new` changes against `old`. Ids are positions, valid as long as
/// `old` is the configuration that the engine was last built from.
pub fn diff(old: &ConfigSnapshot, new: &ConfigSnapshot) -> (r: ConfigDelta)
    ensures
        r.deep_view() == delta_of(old.deep_view(), new.deep_view()),
{
    let og: &Vec<GroupConfig> = &old.groups;
    let ng: &Vec<GroupConfig> = &new.groups;
    if groups_need_rebuild(og, ng) {
        return ConfigDelta::rebuild();
    }
    let mut params: Vec<MixerCommand> = Vec::new();
    assert(params.deep_view() =~= Seq::empty());
    push_when(&mut params, !old.master.same(new.master), MixerCommand::SetMaster(new.master));
    push_when(&mut params, old.muted != new.muted, MixerCommand::SetMuted(new.muted));
    let ghost head = master_params(old.deep_view(), new.deep_view());
    assert(params.deep_view() =~= head + params_upto(og.deep_view(), ng.deep_view(), 0));
    let mut dsp_chains: Vec<(GroupId, Vec<DspSpec>)> = Vec::new();
    assert(dsp_chains.deep_view() =~= chains_upto(og.deep_view(), ng.deep_view(), 0));
    let mut spatial: Vec<(GroupId, bool)> = Vec::new();
    assert(spatial.deep_view() =~= spatial_upto(og.deep_view(), ng.deep_view(), 0));
    let mut i: usize = 0;
    while i < og.len()
        invariant
            i <= og.len() == ng.len(),
            params.deep_view() == head + params_upto(og.deep_view(), ng.deep_view(), i as int),
            dsp_chains.deep_view() == chains_upto(og.deep_view(), ng.deep_view(), i as int),
            spatial.deep_view() == spatial_upto(og.deep_view(), ng.deep_view(), i as int),
        decreases og.len() - i,
    {
        let o: &GroupConfig = &og[i];
        let n: &GroupConfig = &ng[i];
        let id = GroupId(i as u16);
        let ghost k: int = i + 1;
        assert(og.deep_view()[i as int] == o.deep_view());
        assert(ng.deep_view()[i as int] == n.deep_view());
        if o.spatial != n.spatial {
            spatial.push((id, n.spatial));
        }
        assert(spatial.deep_view() =~= spatial_upto(og.deep_view(), ng.deep_view(), k));
        let chain_kept = same_specs(&o.dsp, &n.dsp);
        if !chain_kept {
            dsp_chains.push((id, chain_specs(&n.dsp)));
        }
        assert(dsp_chains.deep_view() =~= chains_upto(og.deep_view(), ng.deep_view(), k));
        push_group_params(&mut params, o, n, id, ng, chain_kept);
        assert(params.deep_view() =~= head + params_upto(og.deep_view(), ng.deep_view(), k));
        i = i + 1;
    }
    let rules = if groups_changed_rules(og, ng) {
        Some(group_rules(new))
    } else {
        None
    };
    let excluded = if same_texts(&old.app.excluded, &new.app.excluded) {
        None
    } else {
        Some(copy_texts(&new.app.excluded))
    };
    assert(og.deep_view().len() == i);
    ConfigDelta {
        structural: false,
        params,
        rules,
        dsp_chains: if dsp_chains.len() == 0 {
            None
        } else {
            Some(dsp_chains)
        },
        spatial: if spatial.len() == 0 {
            None
        } else {
            Some(spatial)
        },
        excluded,
    }
}

/// A change that needs a rebuild carries nothing else.
pub proof fn structural_delta_carries_nothing_else(old: SnapshotView, new: SnapshotView)
    ensures
        delta_of(old, new).structural <==> needs_rebuild(old.groups, new.groups),
        delta_of(old, new).structural ==> delta_of(old, new) == rebuild_delta(),
{
}

/// The numbers of a configuration that an equality test can hold equal to
/// themselves: no NaN anywhere among them.
pub open spec fn free_of_nan(s: SnapshotView) -> bool {
    &&& !s.master.nan()
    &&& forall|i: int| 0 <= i < s.groups.len() ==> group_free_of_nan(#[trigger] s.groups[i])
}

/// No NaN among the numbers of a group.
pub open spec fn group_free_of_nan(g: GroupView) -> bool {
    &&& !g.gain.nan()
    &&& specs_equal(g.dsp, g.dsp)
    &&& ducks_equal(g.duck, g.duck)
}

proof fn lemma_no_bypass_changes(stages: Seq<DspStageView>, id: GroupId, n: int)
    requires
        0 <= n <= stages.len(),
    ensures
        bypass_changes(stages, stages, id, n) == Seq::<CommandView>::empty(),
    decreases n,
{
    if n > 0 {
        lemma_no_bypass_changes(stages, id, n - 1);
        assert(bypass_changes(stages, stages, id, n) =~= Seq::empty());
    }
}

proof fn lemma_no_changes(groups: Seq<GroupView>, k: int)
    requires
        0 <= k <= groups.len(),
        forall|i: int| 0 <= i < groups.len() ==> group_free_of_nan(#[trigger] groups[i]),
    ensures
        params_upto(groups, groups, k) == Seq::<CommandView>::empty(),
        chains_upto(groups, groups, k) == Seq::<(GroupId, Seq<DspSpecView>)>::empty(),
        spatial_upto(groups, groups, k) == Seq::<(GroupId, bool)>::empty(),
    decreases k,
{
    if k > 0 {
        lemma_no_changes(groups, k - 1);
        let g = groups[k - 1];
        assert(group_free_of_nan(g));
        lemma_no_bypass_changes(g.dsp, GroupId((k - 1) as u16), g.dsp.len() as int);
        assert(group_params(g, g, GroupId((k - 1) as u16), groups) =~= Seq::empty());
        assert(params_upto(groups, groups, k) =~= Seq::empty());
    }
}

/// A configuration changes nothing against itself.
pub proof fn no_change_against_itself(s: SnapshotView)
    requires
        free_of_nan(s),
    ensures
        delta_of(s, s).unchanged(),
{
    lemma_no_changes(s.groups, s.groups.len() as int);
}

} // verus!
