//! Switching to a profile, saving one, and telling whether the live state
//! still is the saved one.
//!
//! Switching compares the profile with the live state field by field, so a
//! profile that only changes gains makes only edits that need no rebuild.
use crate::delta::{group_index, group_named, group_named_is_the_first};
use crate::edit::{path_of, ConfigEdit, EditPath, EditView};
use crate::model::{
    copy_duck, copy_stages, ducks_equal, same_duck, same_stages, stages_equal, ConfigSnapshot,
    GroupConfig, GroupView, ProfileConfig, ProfileGroupConfig, ProfileGroupView, ProfileView,
    SnapshotView,
};
use crate::text::same_text;
use crate::store::{chain_is_numeric, duck_is_numeric, is_numeric};
use vstd::prelude::*;
use vstd::seq_lib::lemma_seq_concat_contains_all_elements;

verus! {

/// Position of the first profile of that name at or after `from`.
pub open spec fn profile_from(profiles: Seq<ProfileView>, name: Seq<char>, from: int) -> Option<int>
    decreases profiles.len() - from,
{
    if from < 0 || from >= profiles.len() {
        None
    } else if profiles[from].name == name {
        Some(from)
    } else {
        profile_from(profiles, name, from + 1)
    }
}

/// Position of the first profile of that name.
pub open spec fn profile_named(profiles: Seq<ProfileView>, name: Seq<char>) -> Option<int> {
    profile_from(profiles, name, 0)
}

fn profile_index(profiles: &Vec<ProfileConfig>, name: &str) -> (r: Option<usize>)
    ensures
        match r {
            Some(i) => profile_named(profiles.deep_view(), name@) == Some(i as int) && i
                < profiles@.len(),
            None => profile_named(profiles.deep_view(), name@) is None,
        },
{
    let mut i: usize = 0;
    while i < profiles.len()
        invariant
            i <= profiles.len(),
            profile_named(profiles.deep_view(), name@) == profile_from(
                profiles.deep_view(),
                name@,
                i as int,
            ),
        decreases profiles.len() - i,
    {
        if same_text(&profiles[i].name, name) {
            return Some(i);
        }
        i = i + 1;
    }
    None
}

/// The edit alone where it is called for, else nothing.
pub open spec fn edit_when(called_for: bool, edit: EditView) -> Seq<EditView> {
    if called_for {
        seq![edit]
    } else {
        Seq::empty()
    }
}

/// The edits that bring a live group to the state that a profile has for it.
pub open spec fn group_edits(live: GroupView, target: ProfileGroupView) -> Seq<EditView> {
    let name = target.name;
    edit_when(!live.gain.equals(target.gain), EditView::SetGroupGain(name, target.gain))
        + edit_when(
        live.follow_master != target.follow_master,
        EditView::SetFollowMaster(name, target.follow_master),
    ) + edit_when(live.muted != target.muted, EditView::SetGroupMute(name, target.muted))
        + edit_when(
        live.output_device != target.output_device,
        EditView::SetGroupOutput(name, target.output_device),
    ) + edit_when(live.spatial != target.spatial, EditView::SetSpatial(name, target.spatial))
        + edit_when(
        !stages_equal(live.dsp, target.dsp),
        EditView::SetDspChain(name, target.dsp),
    ) + edit_when(!ducks_equal(live.duck, target.duck), EditView::SetDuck(name, target.duck))
}

/// The edits for the first `n` groups of a profile. A group that is no longer
/// there is passed over.
pub open spec fn profile_group_edits(
    groups: Seq<GroupView>,
    targets: Seq<ProfileGroupView>,
    n: int,
) -> Seq<EditView>
    decreases n,
{
    if n <= 0 {
        Seq::empty()
    } else {
        profile_group_edits(groups, targets, n - 1) + match group_named(
            groups,
            targets[n - 1].name,
        ) {
            Some(i) => group_edits(groups[i], targets[n - 1]),
            None => Seq::empty(),
        }
    }
}

/// The edits that bring the live state to a profile.
pub open spec fn switch_edits(s: SnapshotView, p: ProfileView) -> Seq<EditView> {
    edit_when(!s.master.equals(p.master), EditView::SetMaster(p.master)) + edit_when(
        s.muted != p.muted,
        EditView::SetMuted(p.muted),
    ) + profile_group_edits(s.groups, p.groups, p.groups.len() as int)
}

/// The edits that bring the live state to the profile of that name; none
/// where no profile bears it.
pub open spec fn profile_edits(s: SnapshotView, name: Seq<char>) -> Seq<EditView> {
    match profile_named(s.profiles, name) {
        Some(i) => switch_edits(s, s.profiles[i]),
        None => Seq::empty(),
    }
}

fn push_edit_when(edits: &mut Vec<ConfigEdit>, called_for: bool, edit: ConfigEdit)
    ensures
        final(edits).deep_view() == old(edits).deep_view() + edit_when(
            called_for,
            edit.deep_view(),
        ),
{
    if called_for {
        edits.push(edit);
    }
    assert(edits.deep_view() =~= old(edits).deep_view() + edit_when(called_for, edit.deep_view()));
}

proof fn lemma_regroup(
    b: Seq<EditView>,
    p: Seq<EditView>,
    q: Seq<EditView>,
    r: Seq<EditView>,
    s: Seq<EditView>,
    t: Seq<EditView>,
    u: Seq<EditView>,
    v: Seq<EditView>,
)
    ensures
        ((((((b + p) + q) + r) + s) + t) + u) + v == b + ((((((p + q) + r) + s) + t) + u) + v),
{
    assert(((((((b + p) + q) + r) + s) + t) + u) + v =~= b + ((((((p + q) + r) + s) + t) + u) + v));
}

fn diff_group(edits: &mut Vec<ConfigEdit>, live: &GroupConfig, target: &ProfileGroupConfig)
    ensures
        final(edits).deep_view() == old(edits).deep_view() + group_edits(
            live.deep_view(),
            target.deep_view(),
        ),
{
    let ghost before = edits.deep_view();
    let name = &target.name;
    push_edit_when(
        edits,
        !live.gain.same(target.gain),
        ConfigEdit::SetGroupGain(name.clone(), target.gain),
    );
    push_edit_when(
        edits,
        live.follow_master != target.follow_master,
        ConfigEdit::SetFollowMaster(name.clone(), target.follow_master),
    );
    push_edit_when(
        edits,
        live.muted != target.muted,
        ConfigEdit::SetGroupMute(name.clone(), target.muted),
    );
    push_edit_when(
        edits,
        live.output_device != target.output_device,
        ConfigEdit::SetGroupOutput(name.clone(), target.output_device.clone()),
    );
    push_edit_when(
        edits,
        live.spatial != target.spatial,
        ConfigEdit::SetSpatial(name.clone(), target.spatial),
    );
    push_edit_when(
        edits,
        !same_stages(&live.dsp, &target.dsp),
        ConfigEdit::SetDspChain(name.clone(), copy_stages(&target.dsp)),
    );
    push_edit_when(
        edits,
        !same_duck(&live.duck, &target.duck),
        ConfigEdit::SetDuck(name.clone(), copy_duck(&target.duck)),
    );
    proof {
        let l = live.deep_view();
        let t = target.deep_view();
        lemma_regroup(
            before,
            edit_when(!l.gain.equals(t.gain), EditView::SetGroupGain(t.name, t.gain)),
            edit_when(
                l.follow_master != t.follow_master,
                EditView::SetFollowMaster(t.name, t.follow_master),
            ),
            edit_when(l.muted != t.muted, EditView::SetGroupMute(t.name, t.muted)),
            edit_when(
                l.output_device != t.output_device,
                EditView::SetGroupOutput(t.name, t.output_device),
            ),
            edit_when(l.spatial != t.spatial, EditView::SetSpatial(t.name, t.spatial)),
            edit_when(!stages_equal(l.dsp, t.dsp), EditView::SetDspChain(t.name, t.dsp)),
            edit_when(!ducks_equal(l.duck, t.duck), EditView::SetDuck(t.name, t.duck)),
        );
    }
}

/// The edits that switch the live state to the profile of that name. Groups
/// that the profile does not mention are left alone, and match rules are
/// never touched: a profile has none.
pub fn apply_profile(snapshot: &ConfigSnapshot, name: &str) -> (r: Vec<ConfigEdit>)
    ensures
        r.deep_view() == profile_edits(snapshot.deep_view(), name@),
{
    let mut edits: Vec<ConfigEdit> = Vec::new();
    assert(edits.deep_view() =~= Seq::empty());
    let index = match profile_index(&snapshot.profiles, name) {
        None => {
            return edits;
        },
        Some(index) => index,
    };
    let profile: &ProfileConfig = &snapshot.profiles[index];
    let ghost p = profile.deep_view();
    let ghost s = snapshot.deep_view();
    assert(s.profiles[index as int] == p);
    push_edit_when(
        &mut edits,
        !snapshot.master.same(profile.master),
        ConfigEdit::SetMaster(profile.master),
    );
    push_edit_when(
        &mut edits,
        snapshot.muted != profile.muted,
        ConfigEdit::SetMuted(profile.muted),
    );
    let ghost head = edit_when(!s.master.equals(p.master), EditView::SetMaster(p.master))
        + edit_when(s.muted != p.muted, EditView::SetMuted(p.muted));
    assert(edits.deep_view() =~= head + profile_group_edits(s.groups, p.groups, 0));
    let groups: &Vec<GroupConfig> = &snapshot.groups;
    let targets: &Vec<ProfileGroupConfig> = &profile.groups;
    let mut i: usize = 0;
    while i < targets.len()
        invariant
            i <= targets.len(),
            s.groups == groups.deep_view(),
            p.groups == targets.deep_view(),
            edits.deep_view() == head + profile_group_edits(s.groups, p.groups, i as int),
        decreases targets.len() - i,
    {
        let ghost before = edits.deep_view();
        assert(p.groups[i as int] == targets@[i as int].deep_view());
        match group_index(groups, &targets[i].name) {
            Some(g) => {
                assert(s.groups[g as int] == groups@[g as int].deep_view());
                diff_group(&mut edits, &groups[g], &targets[i]);
            },
            None => {},
        }
        i = i + 1;
        assert(edits.deep_view() =~= head + profile_group_edits(s.groups, p.groups, i as int));
    }
    edits
}

/// A live group as a profile keeps it.
pub open spec fn captured_group(g: GroupView) -> ProfileGroupView {
    ProfileGroupView {
        name: g.name,
        gain: g.gain,
        follow_master: g.follow_master,
        output_device: g.output_device,
        dsp: g.dsp,
        duck: g.duck,
        spatial: g.spatial,
        muted: g.muted,
    }
}

/// The live state as a profile of that name: every group, and the chord of
/// the profile of that name where there is one.
pub open spec fn captured(s: SnapshotView, name: Seq<char>) -> ProfileView {
    ProfileView {
        name,
        hotkey: match profile_named(s.profiles, name) {
            Some(i) => s.profiles[i].hotkey,
            None => None,
        },
        master: s.master,
        muted: s.muted,
        groups: Seq::new(s.groups.len(), |i: int| captured_group(s.groups[i])),
    }
}

fn capture_group(g: &GroupConfig) -> (r: ProfileGroupConfig)
    ensures
        r.deep_view() == captured_group(g.deep_view()),
{
    ProfileGroupConfig {
        name: g.name.clone(),
        gain: g.gain,
        follow_master: g.follow_master,
        output_device: g.output_device.clone(),
        dsp: copy_stages(&g.dsp),
        duck: copy_duck(&g.duck),
        spatial: g.spatial,
        muted: g.muted,
    }
}

/// The live state as a profile. Saving over a profile keeps its chord.
pub fn capture_profile(snapshot: &ConfigSnapshot, name: &str) -> (r: ProfileConfig)
    ensures
        r.deep_view() == captured(snapshot.deep_view(), name@),
{
    let hotkey = match profile_index(&snapshot.profiles, name) {
        Some(i) => snapshot.profiles[i].hotkey,
        None => None,
    };
    let live: &Vec<GroupConfig> = &snapshot.groups;
    let mut groups: Vec<ProfileGroupConfig> = Vec::new();
    let mut i: usize = 0;
    while i < live.len()
        invariant
            i <= live.len(),
            groups@.len() == i,
            forall|j: int|
                0 <= j < i ==> (#[trigger] groups@[j]).deep_view() == captured_group(
                    live@[j].deep_view(),
                ),
        decreases live.len() - i,
    {
        groups.push(capture_group(&live[i]));
        i = i + 1;
    }
    let r = ProfileConfig {
        name: name.to_owned(),
        hotkey,
        master: snapshot.master,
        muted: snapshot.muted,
        groups,
    };
    assert(r.deep_view().groups =~= captured(snapshot.deep_view(), name@).groups);
    r
}

/// The live state differs from the profile of that name. A name that no
/// profile bears counts as unmodified.
pub open spec fn modified(s: SnapshotView, name: Seq<char>) -> bool {
    match profile_named(s.profiles, name) {
        Some(i) => !captured(s, name).equals(s.profiles[i]),
        None => false,
    }
}

pub fn profile_is_modified(snapshot: &ConfigSnapshot, name: &str) -> (r: bool)
    ensures
        r == modified(snapshot.deep_view(), name@),
{
    match profile_index(&snapshot.profiles, name) {
        Some(i) => {
            let now = capture_profile(snapshot, name);
            !now.same(&snapshot.profiles[i])
        },
        None => false,
    }
}

/// Edits that a profile switch can make.
pub open spec fn switch_edit(e: EditView) -> bool {
    match e {
        EditView::SetMaster(_) => true,
        EditView::SetMuted(_) => true,
        EditView::SetGroupGain(_, _) => true,
        EditView::SetFollowMaster(_, _) => true,
        EditView::SetGroupMute(_, _) => true,
        EditView::SetGroupOutput(_, _) => true,
        EditView::SetSpatial(_, _) => true,
        EditView::SetDspChain(_, _) => true,
        EditView::SetDuck(_, _) => true,
        _ => false,
    }
}

/// All of the edits are such.
#[verifier::opaque]
pub open spec fn only_switch_edits(edits: Seq<EditView>) -> bool {
    forall|i: int| 0 <= i < edits.len() ==> switch_edit(#[trigger] edits[i])
}

proof fn lemma_one_switch(called_for: bool, edit: EditView)
    requires
        switch_edit(edit),
    ensures
        only_switch_edits(edit_when(called_for, edit)),
{
    reveal(only_switch_edits);
}

proof fn lemma_switch_join(a: Seq<EditView>, b: Seq<EditView>)
    requires
        only_switch_edits(a),
        only_switch_edits(b),
    ensures
        only_switch_edits(a + b),
{
    reveal(only_switch_edits);
}

proof fn lemma_group_edits(live: GroupView, target: ProfileGroupView)
    ensures
        only_switch_edits(group_edits(live, target)),
{
    let name = target.name;
    let p = edit_when(!live.gain.equals(target.gain), EditView::SetGroupGain(name, target.gain));
    lemma_one_switch(!live.gain.equals(target.gain), EditView::SetGroupGain(name, target.gain));
    let q = edit_when(
        live.follow_master != target.follow_master,
        EditView::SetFollowMaster(name, target.follow_master),
    );
    lemma_one_switch(
        live.follow_master != target.follow_master,
        EditView::SetFollowMaster(name, target.follow_master),
    );
    let r = edit_when(live.muted != target.muted, EditView::SetGroupMute(name, target.muted));
    lemma_one_switch(live.muted != target.muted, EditView::SetGroupMute(name, target.muted));
    let s = edit_when(
        live.output_device != target.output_device,
        EditView::SetGroupOutput(name, target.output_device),
    );
    lemma_one_switch(
        live.output_device != target.output_device,
        EditView::SetGroupOutput(name, target.output_device),
    );
    let t = edit_when(live.spatial != target.spatial, EditView::SetSpatial(name, target.spatial));
    lemma_one_switch(live.spatial != target.spatial, EditView::SetSpatial(name, target.spatial));
    let u = edit_when(
        !stages_equal(live.dsp, target.dsp),
        EditView::SetDspChain(name, target.dsp),
    );
    lemma_one_switch(
        !stages_equal(live.dsp, target.dsp),
        EditView::SetDspChain(name, target.dsp),
    );
    let v = edit_when(!ducks_equal(live.duck, target.duck), EditView::SetDuck(name, target.duck));
    lemma_one_switch(
        !ducks_equal(live.duck, target.duck),
        EditView::SetDuck(name, target.duck),
    );
    lemma_switch_join(p, q);
    lemma_switch_join(p + q, r);
    lemma_switch_join(p + q + r, s);
    lemma_switch_join(p + q + r + s, t);
    lemma_switch_join(p + q + r + s + t, u);
    lemma_switch_join(p + q + r + s + t + u, v);
}

proof fn lemma_switch_edits(groups: Seq<GroupView>, targets: Seq<ProfileGroupView>, n: int)
    requires
        0 <= n <= targets.len(),
    ensures
        only_switch_edits(profile_group_edits(groups, targets, n)),
    decreases n,
{
    if n > 0 {
        lemma_switch_edits(groups, targets, n - 1);
        match group_named(groups, targets[n - 1].name) {
            Some(g) => {
                lemma_group_edits(groups[g], targets[n - 1]);
                lemma_switch_join(
                    profile_group_edits(groups, targets, n - 1),
                    group_edits(groups[g], targets[n - 1]),
                );
            },
            None => {
                assert(profile_group_edits(groups, targets, n) =~= profile_group_edits(
                    groups,
                    targets,
                    n - 1,
                ));
            },
        }
    } else {
        reveal(only_switch_edits);
    }
}

/// Switching to a profile never adds or removes a group and never touches
/// match rules, whatever the profile holds.
pub proof fn switching_never_touches_groups_or_rules(s: SnapshotView, name: Seq<char>)
    ensures
        forall|i: int|
            0 <= i < profile_edits(s, name).len() ==> switch_edit(
                #[trigger] profile_edits(s, name)[i],
            ),
{
    match profile_named(s.profiles, name) {
        Some(p) => {
            let profile = s.profiles[p];
            lemma_switch_edits(s.groups, profile.groups, profile.groups.len() as int);
            lemma_one_switch(
                !s.master.equals(profile.master),
                EditView::SetMaster(profile.master),
            );
            lemma_one_switch(s.muted != profile.muted, EditView::SetMuted(profile.muted));
            let head = edit_when(
                !s.master.equals(profile.master),
                EditView::SetMaster(profile.master),
            );
            let next = edit_when(s.muted != profile.muted, EditView::SetMuted(profile.muted));
            lemma_switch_join(head, next);
            lemma_switch_join(
                head + next,
                profile_group_edits(s.groups, profile.groups, profile.groups.len() as int),
            );
        },
        None => {},
    }
    reveal(only_switch_edits);
}

/// The profile differs from the live group in nothing that needs more than a
/// command to the mixer.
pub open spec fn same_devices_and_chains(live: GroupView, target: ProfileGroupView) -> bool {
    live.output_device == target.output_device && live.spatial == target.spatial && stages_equal(
        live.dsp,
        target.dsp,
    )
}

proof fn lemma_param_edits(groups: Seq<GroupView>, targets: Seq<ProfileGroupView>, n: int)
    requires
        0 <= n <= targets.len(),
        forall|i: int|
            0 <= i < targets.len() ==> (group_named(groups, (#[trigger] targets[i]).name) matches Some(
                g,
            ) ==> same_devices_and_chains(groups[g], targets[i])),
    ensures
        forall|i: int|
            0 <= i < profile_group_edits(groups, targets, n).len() ==> path_of(
                #[trigger] profile_group_edits(groups, targets, n)[i],
            ) == EditPath::Param,
    decreases n,
{
    if n > 0 {
        lemma_param_edits(groups, targets, n - 1);
        match group_named(groups, targets[n - 1].name) {
            Some(g) => {
                let added = group_edits(groups[g], targets[n - 1]);
                assert(same_devices_and_chains(groups[g], targets[n - 1]));
                assert forall|i: int| 0 <= i < added.len() implies path_of(#[trigger] added[i])
                    == EditPath::Param by {}
            },
            None => {},
        }
    }
}

/// A profile that keeps devices, chains and spatial switches as they are is
/// switched to without a rebuild and without a swap.
pub proof fn gain_profiles_need_no_rebuild(s: SnapshotView, p: ProfileView)
    requires
        forall|i: int|
            0 <= i < p.groups.len() ==> (group_named(s.groups, (#[trigger] p.groups[i]).name) matches Some(
                g,
            ) ==> same_devices_and_chains(s.groups[g], p.groups[i])),
    ensures
        forall|i: int|
            0 <= i < switch_edits(s, p).len() ==> path_of(#[trigger] switch_edits(s, p)[i])
                == EditPath::Param,
{
    lemma_param_edits(s.groups, p.groups, p.groups.len() as int);
    let edits = switch_edits(s, p);
    assert forall|i: int| 0 <= i < edits.len() implies path_of(#[trigger] edits[i])
        == EditPath::Param by {}
}

/// No two groups bear one name.
pub open spec fn distinct_names(groups: Seq<GroupView>) -> bool {
    forall|i: int, j: int|
        0 <= i < j < groups.len() ==> (#[trigger] groups[i]).name != (#[trigger] groups[j]).name
}

proof fn lemma_nothing_to_switch(s: SnapshotView, name: Seq<char>, n: int)
    requires
        is_numeric(s),
        distinct_names(s.groups),
        0 <= n <= s.groups.len(),
    ensures
        profile_group_edits(s.groups, captured(s, name).groups, n) == Seq::<EditView>::empty(),
    decreases n,
{
    if n > 0 {
        lemma_nothing_to_switch(s, name, n - 1);
        let g = s.groups[n - 1];
        let targets = captured(s, name).groups;
        assert(targets[n - 1] == captured_group(g));
        group_named_is_the_first(s.groups, g.name);
        let found = group_named(s.groups, g.name);
        assert(found == Some(n - 1)) by {
            match found {
                Some(i) => {
                    if i < n - 1 {
                        assert(s.groups[i].name != s.groups[n - 1].name);
                    }
                    if i > n - 1 {
                        assert(s.groups[n - 1].name != g.name);
                    }
                },
                None => {
                    assert(s.groups[n - 1].name != g.name);
                },
            }
        }
        assert(chain_is_numeric(g.dsp) && duck_is_numeric(g.duck) && !g.gain.nan());
        assert(group_edits(g, captured_group(g)) =~= Seq::empty());
        assert(profile_group_edits(s.groups, targets, n) =~= Seq::empty());
    }
}

/// Switching to a profile that was just saved changes nothing.
pub proof fn switching_to_the_saved_state_changes_nothing(s: SnapshotView, name: Seq<char>)
    requires
        is_numeric(s),
        distinct_names(s.groups),
    ensures
        switch_edits(s, captured(s, name)) == Seq::<EditView>::empty(),
{
    lemma_nothing_to_switch(s, name, s.groups.len() as int);
    assert(switch_edits(s, captured(s, name)) =~= Seq::empty());
}

/// A profile that was just saved is not modified.
pub proof fn a_saved_profile_is_unmodified(s: SnapshotView, name: Seq<char>)
    requires
        is_numeric(s),
        profile_named(s.profiles, name) matches Some(i) ==> s.profiles[i] == captured(s, name),
    ensures
        !modified(s, name),
{
    let c = captured(s, name);
    assert forall|i: int| 0 <= i < c.groups.len() implies (#[trigger] c.groups[i]).equals(
        c.groups[i],
    ) by {
        let g = s.groups[i];
        assert(chain_is_numeric(g.dsp) && duck_is_numeric(g.duck) && !g.gain.nan());
    }
    assert(c.equals(c));
}

/// An edit sets something of a live group to what a profile has for it, and the
/// group has something else there.
pub open spec fn is_called_for(live: GroupView, target: ProfileGroupView, edit: EditView) -> bool {
    match edit {
        EditView::SetGroupGain(name, gain) => name == target.name && gain == target.gain
            && !live.gain.equals(gain),
        EditView::SetFollowMaster(name, on) => name == target.name && on == target.follow_master
            && live.follow_master != on,
        EditView::SetGroupMute(name, on) => name == target.name && on == target.muted
            && live.muted != on,
        EditView::SetGroupOutput(name, device) => name == target.name && device
            == target.output_device && live.output_device != device,
        EditView::SetSpatial(name, on) => name == target.name && on == target.spatial
            && live.spatial != on,
        EditView::SetDspChain(name, dsp) => name == target.name && dsp == target.dsp
            && !stages_equal(live.dsp, dsp),
        EditView::SetDuck(name, duck) => name == target.name && duck == target.duck
            && !ducks_equal(live.duck, duck),
        _ => false,
    }
}

proof fn lemma_contains_when(called_for: bool, edit: EditView, e: EditView)
    ensures
        edit_when(called_for, edit).contains(e) <==> called_for && e == edit,
{
    if called_for {
        assert(seq![edit][0] == edit);
    }
}

proof fn lemma_group_called_for(live: GroupView, target: ProfileGroupView, e: EditView)
    ensures
        group_edits(live, target).contains(e) <==> is_called_for(live, target, e),
{
    let name = target.name;
    let c1 = !live.gain.equals(target.gain);
    let e1 = EditView::SetGroupGain(name, target.gain);
    let c2 = live.follow_master != target.follow_master;
    let e2 = EditView::SetFollowMaster(name, target.follow_master);
    let c3 = live.muted != target.muted;
    let e3 = EditView::SetGroupMute(name, target.muted);
    let c4 = live.output_device != target.output_device;
    let e4 = EditView::SetGroupOutput(name, target.output_device);
    let c5 = live.spatial != target.spatial;
    let e5 = EditView::SetSpatial(name, target.spatial);
    let c6 = !stages_equal(live.dsp, target.dsp);
    let e6 = EditView::SetDspChain(name, target.dsp);
    let c7 = !ducks_equal(live.duck, target.duck);
    let e7 = EditView::SetDuck(name, target.duck);
    lemma_contains_when(c1, e1, e);
    lemma_contains_when(c2, e2, e);
    lemma_contains_when(c3, e3, e);
    lemma_contains_when(c4, e4, e);
    lemma_contains_when(c5, e5, e);
    lemma_contains_when(c6, e6, e);
    lemma_contains_when(c7, e7, e);
    let a = edit_when(c1, e1);
    lemma_seq_concat_contains_all_elements(a, edit_when(c2, e2), e);
    let b = a + edit_when(c2, e2);
    lemma_seq_concat_contains_all_elements(b, edit_when(c3, e3), e);
    let c = b + edit_when(c3, e3);
    lemma_seq_concat_contains_all_elements(c, edit_when(c4, e4), e);
    let d = c + edit_when(c4, e4);
    lemma_seq_concat_contains_all_elements(d, edit_when(c5, e5), e);
    let f = d + edit_when(c5, e5);
    lemma_seq_concat_contains_all_elements(f, edit_when(c6, e6), e);
    let g = f + edit_when(c6, e6);
    lemma_seq_concat_contains_all_elements(g, edit_when(c7, e7), e);
    assert(group_edits(live, target) == g + edit_when(c7, e7));
}

/// Some of the first `n` groups of a profile calls for an edit. A group calls for
/// nothing that is no longer there.
pub open spec fn some_calls_for(
    groups: Seq<GroupView>,
    targets: Seq<ProfileGroupView>,
    n: int,
    edit: EditView,
) -> bool {
    exists|t: int|
        0 <= t < n && group_named(groups, (#[trigger] targets[t]).name) is Some && is_called_for(
            groups[group_named(groups, targets[t].name)->0],
            targets[t],
            edit,
        )
}

proof fn lemma_groups_called_for(
    groups: Seq<GroupView>,
    targets: Seq<ProfileGroupView>,
    n: int,
    e: EditView,
)
    requires
        0 <= n <= targets.len(),
    ensures
        profile_group_edits(groups, targets, n).contains(e) <==> some_calls_for(
            groups,
            targets,
            n,
            e,
        ),
    decreases n,
{
    if n > 0 {
        lemma_groups_called_for(groups, targets, n - 1, e);
        let target = targets[n - 1];
        let own = match group_named(groups, target.name) {
            Some(i) => group_edits(groups[i], target),
            None => Seq::empty(),
        };
        lemma_seq_concat_contains_all_elements(profile_group_edits(groups, targets, n - 1), own, e);
        if let Some(i) = group_named(groups, target.name) {
            lemma_group_called_for(groups[i], target, e);
        }
    }
}

/// Switching to a profile sets what the profile has otherwise than the live state,
/// each to the profile's own value, and nothing else.
pub proof fn switching_brings_what_the_profile_holds(s: SnapshotView, p: ProfileView, e: EditView)
    ensures
        switch_edits(s, p).contains(e) <==> match e {
            EditView::SetMaster(gain) => gain == p.master && !s.master.equals(gain),
            EditView::SetMuted(muted) => muted == p.muted && s.muted != muted,
            _ => some_calls_for(s.groups, p.groups, p.groups.len() as int, e),
        },
{
    let n = p.groups.len() as int;
    lemma_groups_called_for(s.groups, p.groups, n, e);
    let a = edit_when(!s.master.equals(p.master), EditView::SetMaster(p.master));
    let b = edit_when(s.muted != p.muted, EditView::SetMuted(p.muted));
    lemma_contains_when(!s.master.equals(p.master), EditView::SetMaster(p.master), e);
    lemma_contains_when(s.muted != p.muted, EditView::SetMuted(p.muted), e);
    lemma_seq_concat_contains_all_elements(a, b, e);
    lemma_seq_concat_contains_all_elements(a + b, profile_group_edits(s.groups, p.groups, n), e);
}

} // verus!
