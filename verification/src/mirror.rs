//! The running mixer plays what is configured: a mixer that was just built, one
//! that was told of an edit, and one that was told of another configuration.
use crate::chain::fresh;
use crate::command::CommandView;
use crate::delta::{
    bypass_changes, chains_upto, delta_of, group_named, group_named_is_the_first, group_params,
    params_upto, resolved_duck, rules_changed, spatial_upto, specs_equal, specs_of,
};
use crate::dsp::{DspSpecView, EqBandSpec};
use crate::edit::EditView;
use crate::float::{equality_of_numbers, Float32};
use crate::mixer::{group_at, groups_after, muted_after, GroupView as Playing};
use crate::model::{ducks_equal, DspStageView, DuckView, GroupView, SnapshotView};
use crate::plan::{
    all_switches, first_commands, heard_in, planned, planned_group, switches, DeviceView,
};
use crate::rules::RuleView;
use crate::sample::{DuckSpec, Format, GroupId, OutputId, Topology};
use crate::shell::{
    command_of, gain_edit_of, limiter_from, mute_edit_of, sets_gain_of, sets_mute_of, state_of,
    TargetView,
};
use crate::topology::starts_as;
use vstd::prelude::*;

verus! {

/// Two numbers are one and the same, or equal as numbers.
pub open spec fn alike(a: Float32, b: Float32) -> bool {
    a == b || a.equals(b)
}

/// Two bands have the same settings.
pub open spec fn band_alike(a: EqBandSpec, b: EqBandSpec) -> bool {
    alike(a.freq_hz, b.freq_hz) && alike(a.gain_db, b.gain_db) && alike(a.q, b.q)
}

/// Two stages are of one kind and have the same settings.
pub open spec fn spec_alike(a: DspSpecView, b: DspSpecView) -> bool {
    match (a, b) {
        (DspSpecView::Eq { bands: x }, DspSpecView::Eq { bands: y }) => x.len() == y.len()
            && forall|i: int| 0 <= i < x.len() ==> band_alike(#[trigger] x[i], y[i]),
        (DspSpecView::Limiter { ceiling_db: x }, DspSpecView::Limiter { ceiling_db: y }) => alike(
            x,
            y,
        ),
        _ => false,
    }
}

/// A stage runs as it is configured.
pub open spec fn stage_alike(a: DspStageView, b: DspStageView) -> bool {
    a.bypassed == b.bypassed && spec_alike(a.spec, b.spec)
}

/// A chain runs as it is configured, stage by stage.
pub open spec fn chain_alike(a: Seq<DspStageView>, b: Seq<DspStageView>) -> bool {
    a.len() == b.len() <= usize::MAX && forall|k: int|
        0 <= k < a.len() ==> stage_alike(#[trigger] a[k], b[k])
}

/// A group ducks as it is configured: under the first group of the trigger's
/// name, with the numbers that stand there, and under none where no group bears
/// that name.
pub open spec fn ducks_as(
    duck: Option<DuckSpec>,
    groups: Seq<GroupView>,
    asked: Option<DuckView>,
) -> bool {
    match (duck, asked) {
        (None, None) => true,
        (None, Some(a)) => forall|j: int|
            0 <= j < groups.len() ==> (#[trigger] groups[j]).name != a.trigger,
        (Some(d), Some(a)) => {
            &&& d.trigger.0 < groups.len()
            &&& groups[d.trigger.0 as int].name == a.trigger
            &&& forall|j: int| 0 <= j < d.trigger.0 ==> (#[trigger] groups[j]).name != a.trigger
            &&& alike(d.amount_db, a.amount_db)
            &&& alike(d.threshold_db, a.threshold_db)
            &&& alike(d.attack_ms, a.attack_ms)
            &&& alike(d.release_ms, a.release_ms)
        },
        (Some(d), None) => false,
    }
}

/// A group plays as group `i` is configured, whatever stages it has.
pub open spec fn plays_as<T>(g: Playing<T>, s: SnapshotView, i: int) -> bool {
    &&& g.id.0 == i
    &&& alike(g.gain, s.groups[i].gain)
    &&& g.follow_master == s.groups[i].follow_master
    &&& g.mute == s.groups[i].muted
    &&& alike(g.master, s.master)
    &&& ducks_as(g.duck, s.groups, s.groups[i].duck)
}

/// The groups play what is configured.
pub open spec fn mirrors<T>(groups: Seq<Playing<T>>, muted: bool, s: SnapshotView) -> bool {
    &&& groups.len() == s.groups.len() <= 0x1_0000
    &&& muted == s.muted
    &&& forall|i: int|
        0 <= i < groups.len() ==> plays_as(#[trigger] groups[i], s, i) && chain_alike(
            groups[i].chain,
            s.groups[i].dsp,
        )
}

/// The groups once they were told one command after the other.
pub open spec fn told<T>(groups: Seq<Playing<T>>, commands: Seq<CommandView>) -> Seq<Playing<T>>
    decreases commands.len(),
{
    if commands.len() == 0 {
        groups
    } else {
        groups_after(told(groups, commands.drop_last()), commands.last())
    }
}

/// Whether everything is muted once the commands were told.
pub open spec fn muted_once_told(muted: bool, commands: Seq<CommandView>) -> bool
    decreases commands.len(),
{
    if commands.len() == 0 {
        muted
    } else {
        muted_after(muted_once_told(muted, commands.drop_last()), commands.last())
    }
}

proof fn lemma_told_adds<T>(groups: Seq<Playing<T>>, a: Seq<CommandView>, b: Seq<CommandView>)
    ensures
        told(groups, a + b) == told(told(groups, a), b),
    decreases b.len(),
{
    if b.len() == 0 {
        assert(a + b =~= a);
    } else {
        lemma_told_adds(groups, a, b.drop_last());
        assert((a + b).drop_last() =~= a + b.drop_last());
        assert((a + b).last() == b.last());
    }
}

proof fn lemma_told_when<T>(groups: Seq<Playing<T>>, called_for: bool, command: CommandView)
    ensures
        told(groups, crate::delta::when(called_for, command)) == (if called_for {
            groups_after(groups, command)
        } else {
            groups
        }),
{
    reveal_with_fuel(told, 2);
    assert(seq![command].drop_last() =~= Seq::<CommandView>::empty());
}

proof fn lemma_muted_adds(muted: bool, a: Seq<CommandView>, b: Seq<CommandView>)
    ensures
        muted_once_told(muted, a + b) == muted_once_told(muted_once_told(muted, a), b),
    decreases b.len(),
{
    if b.len() == 0 {
        assert(a + b =~= a);
    } else {
        lemma_muted_adds(muted, a, b.drop_last());
        assert((a + b).drop_last() =~= a + b.drop_last());
        assert((a + b).last() == b.last());
    }
}

/// The commands leave the mute of everything alone.
spec fn leaves_mute(commands: Seq<CommandView>) -> bool {
    forall|k: int| 0 <= k < commands.len() ==> !((#[trigger] commands[k]) is SetMuted)
}

proof fn lemma_mute_left(muted: bool, commands: Seq<CommandView>)
    requires
        leaves_mute(commands),
    ensures
        muted_once_told(muted, commands) == muted,
    decreases commands.len(),
{
    if commands.len() > 0 {
        assert forall|k: int| 0 <= k < commands.len() - 1 implies !((
        #[trigger] commands.drop_last()[k]) is SetMuted) by {
            assert(commands.drop_last()[k] == commands[k]);
        }
        lemma_mute_left(muted, commands.drop_last());
        assert(!(commands[commands.len() - 1] is SetMuted));
    }
}

/// Every group has its position for an id.
spec fn are_numbered<T>(groups: Seq<Playing<T>>) -> bool {
    groups.len() <= 0x1_0000 && forall|i: int|
        0 <= i < groups.len() ==> (#[trigger] groups[i]).id == GroupId(i as u16)
}

proof fn lemma_found<T>(groups: Seq<Playing<T>>, k: int, from: int)
    requires
        are_numbered(groups),
        0 <= from <= k < groups.len(),
    ensures
        group_at(groups, GroupId(k as u16), from) == Some(k),
    decreases k - from,
{
    if from < k {
        assert(groups[from].id == GroupId(from as u16));
        lemma_found(groups, k, from + 1);
    } else {
        assert(groups[k].id == GroupId(k as u16));
    }
}

proof fn lemma_resolved(groups: Seq<GroupView>, duck: Option<DuckView>)
    requires
        groups.len() <= 0x1_0000,
    ensures
        ducks_as(resolved_duck(groups, duck), groups, duck),
{
    if let Some(d) = duck {
        group_named_is_the_first(groups, d.trigger);
    }
}

proof fn lemma_numbers_alike(a: Float32, b: Float32, c: Float32)
    requires
        alike(a, b),
        b.equals(c),
    ensures
        alike(a, c),
{
    equality_of_numbers(a, b, c);
}

proof fn lemma_specs_alike(a: DspSpecView, b: DspSpecView, c: DspSpecView)
    requires
        spec_alike(a, b),
        b.equals(c),
    ensures
        spec_alike(a, c),
{
    match (a, b, c) {
        (DspSpecView::Eq { bands: x }, DspSpecView::Eq { bands: y }, DspSpecView::Eq { bands: z }) => {
            assert forall|i: int| 0 <= i < x.len() implies band_alike(#[trigger] x[i], z[i]) by {
                assert(band_alike(x[i], y[i]) && y[i].equals(z[i]));
                lemma_numbers_alike(x[i].freq_hz, y[i].freq_hz, z[i].freq_hz);
                lemma_numbers_alike(x[i].gain_db, y[i].gain_db, z[i].gain_db);
                lemma_numbers_alike(x[i].q, y[i].q, z[i].q);
            }
        },
        (
            DspSpecView::Limiter { ceiling_db: x },
            DspSpecView::Limiter { ceiling_db: y },
            DspSpecView::Limiter { ceiling_db: z },
        ) => {
            lemma_numbers_alike(x, y, z);
        },
        _ => {},
    }
}

/// What the switches of a chain make of group `k`: the first `n` stages have the
/// new switches, and all else is as it was.
proof fn lemma_switched<T>(
    groups: Seq<Playing<T>>,
    k: int,
    old: Seq<DspStageView>,
    new: Seq<DspStageView>,
    n: int,
)
    requires
        are_numbered(groups),
        0 <= k < groups.len(),
        0 <= n <= old.len() == new.len() == groups[k].chain.len() <= usize::MAX,
        forall|j: int| 0 <= j < old.len() ==> (#[trigger] groups[k].chain[j]).bypassed
            == old[j].bypassed,
    ensures
        ({
            let now = told(groups, bypass_changes(old, new, GroupId(k as u16), n));
            &&& now == groups.update(k, Playing { chain: now[k].chain, ..groups[k] })
            &&& now[k].chain.len() == old.len()
            &&& forall|j: int|
                0 <= j < old.len() ==> (#[trigger] now[k].chain[j]).spec == groups[k].chain[j].spec
                    && now[k].chain[j].bypassed == (if j < n {
                    new[j].bypassed
                } else {
                    old[j].bypassed
                })
        }),
        leaves_mute(bypass_changes(old, new, GroupId(k as u16), n)),
    decreases n,
{
    let id = GroupId(k as u16);
    if n == 0 {
        assert(groups.update(k, Playing { chain: groups[k].chain, ..groups[k] }) =~= groups);
    } else {
        lemma_switched(groups, k, old, new, n - 1);
        let before = bypass_changes(old, new, id, n - 1);
        let then = told(groups, before);
        let command = CommandView::SetDspBypass {
            group: id,
            stage: (n - 1) as usize,
            bypassed: new[n - 1].bypassed,
        };
        let called_for = old[n - 1].bypassed != new[n - 1].bypassed;
        lemma_told_adds(groups, before, crate::delta::when(called_for, command));
        lemma_told_when(then, called_for, command);
        assert forall|i: int| 0 <= i < then.len() implies (#[trigger] then[i]).id == GroupId(
            i as u16,
        ) by {
            assert(groups[i].id == GroupId(i as u16));
        }
        lemma_found(then, k, 0);
        let now = told(groups, bypass_changes(old, new, id, n));
        assert(now =~= groups.update(k, Playing { chain: now[k].chain, ..groups[k] }));
        assert(then[k].chain[n - 1].bypassed == old[n - 1].bypassed);
        assert forall|j: int| 0 <= j < old.len() implies (#[trigger] now[k].chain[j]).spec
            == groups[k].chain[j].spec && now[k].chain[j].bypassed == (if j < n {
            new[j].bypassed
        } else {
            old[j].bypassed
        }) by {
            assert(then[k].chain[j].spec == groups[k].chain[j].spec);
        }
    }
}

/// A duck that is as it was asked for is as an equal one asks for, among groups
/// of the same names.
proof fn lemma_ducks_alike(
    duck: Option<DuckSpec>,
    old: Seq<GroupView>,
    new: Seq<GroupView>,
    a: Option<DuckView>,
    b: Option<DuckView>,
)
    requires
        ducks_as(duck, old, a),
        ducks_equal(a, b),
        old.len() == new.len(),
        forall|i: int| 0 <= i < old.len() ==> (#[trigger] old[i]).name == new[i].name,
    ensures
        ducks_as(duck, new, b),
{
    assert forall|i: int| 0 <= i < new.len() implies (#[trigger] new[i]).name == old[i].name by {
        assert(old[i].name == new[i].name);
    }
    if let (Some(d), Some(x), Some(y)) = (duck, a, b) {
        assert(old[d.trigger.0 as int].name == new[d.trigger.0 as int].name);
        lemma_numbers_alike(d.amount_db, x.amount_db, y.amount_db);
        lemma_numbers_alike(d.threshold_db, x.threshold_db, y.threshold_db);
        lemma_numbers_alike(d.attack_ms, x.attack_ms, y.attack_ms);
        lemma_numbers_alike(d.release_ms, x.release_ms, y.release_ms);
    }
}

/// What three switches of one group make of it, and of no other.
proof fn lemma_plain_told<T>(groups: Seq<Playing<T>>, o: GroupView, n: GroupView, k: int)
    requires
        are_numbered(groups),
        0 <= k < groups.len(),
        alike(groups[k].gain, o.gain),
        groups[k].follow_master == o.follow_master,
        groups[k].mute == o.muted,
    ensures
        ({
            let id = GroupId(k as u16);
            let gain = crate::delta::when(
                !o.gain.equals(n.gain),
                CommandView::SetGroupGain(id, n.gain),
            );
            let follow = crate::delta::when(
                o.follow_master != n.follow_master,
                CommandView::SetFollowMaster(id, n.follow_master),
            );
            let mute = crate::delta::when(
                o.muted != n.muted,
                CommandView::SetGroupMute(id, n.muted),
            );
            let now = told(groups, gain + follow + mute);
            &&& leaves_mute(gain + follow + mute)
            &&& alike(now[k].gain, n.gain)
            &&& now == groups.update(
                k,
                Playing {
                    gain: now[k].gain,
                    follow_master: n.follow_master,
                    mute: n.muted,
                    ..groups[k]
                },
            )
        }),
{
    let id = GroupId(k as u16);
    let gain = crate::delta::when(!o.gain.equals(n.gain), CommandView::SetGroupGain(id, n.gain));
    let follow = crate::delta::when(
        o.follow_master != n.follow_master,
        CommandView::SetFollowMaster(id, n.follow_master),
    );
    let mute = crate::delta::when(o.muted != n.muted, CommandView::SetGroupMute(id, n.muted));
    lemma_told_adds(groups, gain + follow, mute);
    lemma_told_adds(groups, gain, follow);
    lemma_told_when(groups, !o.gain.equals(n.gain), CommandView::SetGroupGain(id, n.gain));
    lemma_found(groups, k, 0);
    let a = told(groups, gain);
    assert(are_numbered(a));
    lemma_told_when(
        a,
        o.follow_master != n.follow_master,
        CommandView::SetFollowMaster(id, n.follow_master),
    );
    lemma_found(a, k, 0);
    let b = told(a, follow);
    assert(are_numbered(b));
    lemma_told_when(b, o.muted != n.muted, CommandView::SetGroupMute(id, n.muted));
    lemma_found(b, k, 0);
    if o.gain.equals(n.gain) {
        lemma_numbers_alike(groups[k].gain, o.gain, n.gain);
    }
    let c = told(b, mute);
    assert(c =~= groups.update(
        k,
        Playing {
            gain: c[k].gain,
            follow_master: n.follow_master,
            mute: n.muted,
            ..groups[k]
        },
    ));
}

/// A chain with the settings of an old configuration and the switches of a new
/// one is as the new one says, where that one has kept the settings.
proof fn lemma_chain_kept(
    before: Seq<DspStageView>,
    after: Seq<DspStageView>,
    old: Seq<DspStageView>,
    new: Seq<DspStageView>,
)
    requires
        chain_alike(before, old),
        specs_equal(old, new),
        after.len() == before.len(),
        forall|j: int|
            0 <= j < after.len() ==> (#[trigger] after[j]).spec == before[j].spec
                && after[j].bypassed == new[j].bypassed,
    ensures
        chain_alike(after, new),
{
    assert forall|j: int| 0 <= j < after.len() implies stage_alike(#[trigger] after[j], new[j]) by {
        assert(stage_alike(before[j], old[j]));
        assert(old[j].spec.equals(new[j].spec));
        lemma_specs_alike(before[j].spec, old[j].spec, new[j].spec);
    }
}

/// What the commands of one group make of it. Its master is set apart.
#[verifier::rlimit(30)]
proof fn lemma_group_told<T>(groups: Seq<Playing<T>>, old: SnapshotView, new: SnapshotView, k: int)
    requires
        are_numbered(groups),
        groups.len() == old.groups.len() == new.groups.len(),
        0 <= k < groups.len(),
        forall|i: int| 0 <= i < old.groups.len() ==> (#[trigger] old.groups[i]).name
            == new.groups[i].name,
        alike(groups[k].gain, old.groups[k].gain),
        groups[k].follow_master == old.groups[k].follow_master,
        groups[k].mute == old.groups[k].muted,
        ducks_as(groups[k].duck, old.groups, old.groups[k].duck),
        chain_alike(groups[k].chain, old.groups[k].dsp),
    ensures
        ({
            let commands = group_params(
                old.groups[k],
                new.groups[k],
                GroupId(k as u16),
                new.groups,
            );
            let now = told(groups, commands);
            &&& leaves_mute(commands)
            &&& now.len() == groups.len()
            &&& forall|i: int| 0 <= i < groups.len() && i != k ==> now[i] == groups[i]
            &&& now[k].id == groups[k].id
            &&& now[k].master == groups[k].master
            &&& alike(now[k].gain, new.groups[k].gain)
            &&& now[k].follow_master == new.groups[k].follow_master
            &&& now[k].mute == new.groups[k].muted
            &&& ducks_as(now[k].duck, new.groups, new.groups[k].duck)
            &&& specs_equal(old.groups[k].dsp, new.groups[k].dsp) ==> chain_alike(
                now[k].chain,
                new.groups[k].dsp,
            )
        }),
{
    let id = GroupId(k as u16);
    let o = old.groups[k];
    let n = new.groups[k];
    let kept = specs_equal(o.dsp, n.dsp);
    let gain = crate::delta::when(!o.gain.equals(n.gain), CommandView::SetGroupGain(id, n.gain));
    let follow = crate::delta::when(
        o.follow_master != n.follow_master,
        CommandView::SetFollowMaster(id, n.follow_master),
    );
    let mute = crate::delta::when(o.muted != n.muted, CommandView::SetGroupMute(id, n.muted));
    let bypass = if kept {
        bypass_changes(o.dsp, n.dsp, id, o.dsp.len() as int)
    } else {
        Seq::empty()
    };
    let duck = crate::delta::when(
        !ducks_equal(o.duck, n.duck),
        CommandView::SetDuck { group: id, duck: resolved_duck(new.groups, n.duck) },
    );
    lemma_told_adds(groups, gain + follow + mute + bypass, duck);
    lemma_told_adds(groups, gain + follow + mute, bypass);
    lemma_plain_told(groups, o, n, k);
    let c = told(groups, gain + follow + mute);
    assert(are_numbered(c));
    if kept {
        lemma_switched(c, k, o.dsp, n.dsp, o.dsp.len() as int);
    }
    let d = told(c, bypass);
    assert(are_numbered(d));
    assert(d[k].chain.len() == o.dsp.len());
    if kept {
        lemma_chain_kept(groups[k].chain, d[k].chain, o.dsp, n.dsp);
    }
    lemma_told_when(
        d,
        !ducks_equal(o.duck, n.duck),
        CommandView::SetDuck { group: id, duck: resolved_duck(new.groups, n.duck) },
    );
    lemma_found(d, k, 0);
    lemma_resolved(new.groups, n.duck);
    if ducks_equal(o.duck, n.duck) {
        lemma_ducks_alike(groups[k].duck, old.groups, new.groups, o.duck, n.duck);
    }
    assert(leaves_mute(bypass));
}

/// A group was told of all that changed of it.
spec fn is_settled<T>(g: Playing<T>, old: SnapshotView, new: SnapshotView, i: int) -> bool {
    plays_as(g, new, i) && (specs_equal(old.groups[i].dsp, new.groups[i].dsp) ==> chain_alike(
        g.chain,
        new.groups[i].dsp,
    ))
}

proof fn lemma_groups_told<T>(groups: Seq<Playing<T>>, old: SnapshotView, new: SnapshotView, k: int)
    requires
        are_numbered(groups),
        groups.len() == old.groups.len() == new.groups.len(),
        0 <= k <= groups.len(),
        forall|i: int| 0 <= i < old.groups.len() ==> (#[trigger] old.groups[i]).name
            == new.groups[i].name,
        forall|i: int|
            0 <= i < groups.len() ==> alike((#[trigger] groups[i]).master, new.master) && plays_as(
                Playing { master: old.master, ..groups[i] },
                old,
                i,
            ) && chain_alike(groups[i].chain, old.groups[i].dsp),
    ensures
        leaves_mute(params_upto(old.groups, new.groups, k)),
        told(groups, params_upto(old.groups, new.groups, k)).len() == groups.len(),
        forall|i: int|
            0 <= i < groups.len() ==> if i < k {
                is_settled(#[trigger] told(groups, params_upto(old.groups, new.groups, k))[i], old, new, i)
            } else {
                told(groups, params_upto(old.groups, new.groups, k))[i] == groups[i]
            },
    decreases k,
{
    if k > 0 {
        lemma_groups_told(groups, old, new, k - 1);
        let before = params_upto(old.groups, new.groups, k - 1);
        let then = told(groups, before);
        let own = group_params(
            old.groups[k - 1],
            new.groups[k - 1],
            GroupId((k - 1) as u16),
            new.groups,
        );
        assert forall|i: int| 0 <= i < then.len() implies (#[trigger] then[i]).id == GroupId(
            i as u16,
        ) by {
            assert(groups[i].id == GroupId(i as u16));
            if i < k - 1 {
                assert(is_settled(then[i], old, new, i));
            }
        }
        assert(then[k - 1] == groups[k - 1]);
        lemma_group_told(then, old, new, k - 1);
        lemma_told_adds(groups, before, own);
        let now = told(groups, before + own);
        assert(params_upto(old.groups, new.groups, k) == before + own);
        assert forall|i: int| 0 <= i < groups.len() implies if i < k {
            is_settled(#[trigger] now[i], old, new, i)
        } else {
            now[i] == groups[i]
        } by {
            if i != k - 1 {
                assert(now[i] == then[i]);
            } else {
                assert(plays_as(Playing { master: old.master, ..groups[i] }, old, i));
            }
        }
    }
}

/// A mixer that plays one configuration and is told what another one changes
/// plays that one then: each group its own gain, mute and ducking, and each chain
/// whose stages stayed its own switches. A chain of other stages is swapped whole.
pub proof fn a_reload_reaches_the_mixer<T>(
    groups: Seq<Playing<T>>,
    muted: bool,
    old: SnapshotView,
    new: SnapshotView,
)
    requires
        mirrors(groups, muted, old),
        !delta_of(old, new).structural,
    ensures
        ({
            let commands = delta_of(old, new).params;
            let now = told(groups, commands);
            &&& muted_once_told(muted, commands) == new.muted
            &&& now.len() == new.groups.len()
            &&& forall|i: int|
                0 <= i < now.len() ==> plays_as(#[trigger] now[i], new, i) && (specs_equal(
                    old.groups[i].dsp,
                    new.groups[i].dsp,
                ) ==> chain_alike(now[i].chain, new.groups[i].dsp))
        }),
{
    let louder = !old.master.equals(new.master);
    let master = crate::delta::when(louder, CommandView::SetMaster(new.master));
    let quiet = crate::delta::when(old.muted != new.muted, CommandView::SetMuted(new.muted));
    let rest = params_upto(old.groups, new.groups, old.groups.len() as int);
    assert(old.groups.len() == new.groups.len());
    assert forall|i: int| 0 <= i < old.groups.len() implies (#[trigger] old.groups[i]).name
        == new.groups[i].name by {}
    lemma_told_adds(groups, master + quiet, rest);
    lemma_told_adds(groups, master, quiet);
    lemma_told_when(groups, louder, CommandView::SetMaster(new.master));
    let a = told(groups, master);
    lemma_told_when(a, old.muted != new.muted, CommandView::SetMuted(new.muted));
    assert(told(a, quiet) == a);
    assert forall|i: int| 0 <= i < a.len() implies alike((#[trigger] a[i]).master, new.master)
        && plays_as(Playing { master: old.master, ..a[i] }, old, i) && chain_alike(
        a[i].chain,
        old.groups[i].dsp,
    ) && a[i].id == GroupId(i as u16) by {
        assert(plays_as(groups[i], old, i));
        if !louder {
            lemma_numbers_alike(groups[i].master, old.master, new.master);
        }
    }
    lemma_groups_told(a, old, new, a.len() as int);
    lemma_muted_adds(muted, master + quiet, rest);
    lemma_muted_adds(muted, master, quiet);
    lemma_mute_left(muted, master);
    lemma_mute_left(muted_once_told(muted, master + quiet), rest);
    reveal_with_fuel(muted_once_told, 2);
    let now = told(groups, delta_of(old, new).params);
    assert(now == told(a, rest));
    assert forall|i: int| 0 <= i < now.len() implies plays_as(#[trigger] now[i], new, i) && (
    specs_equal(old.groups[i].dsp, new.groups[i].dsp) ==> chain_alike(
        now[i].chain,
        new.groups[i].dsp,
    )) by {
        assert(is_settled(now[i], old, new, i));
    }
}

/// Group `i` is the one that a name leads to: the first that bears it.
pub open spec fn bears(groups: Seq<GroupView>, name: Seq<char>, i: int) -> bool {
    &&& 0 <= i < groups.len()
    &&& groups[i].name == name
    &&& forall|j: int| 0 <= j < i ==> (#[trigger] groups[j]).name != name
}

/// Only the group that a name leads to has changed, and it has kept its name.
pub open spec fn one_changed(old: SnapshotView, new: SnapshotView, name: Seq<char>) -> bool {
    &&& new == (SnapshotView { groups: new.groups, ..old })
    &&& new.groups.len() == old.groups.len()
    &&& forall|i: int|
        0 <= i < old.groups.len() ==> if bears(old.groups, name, i) {
            (#[trigger] new.groups[i]).name == old.groups[i].name
        } else {
            new.groups[i] == old.groups[i]
        }
}

/// One stage of a chain has other settings.
pub open spec fn stage_changed(
    old: Seq<DspStageView>,
    new: Seq<DspStageView>,
    stage: int,
    spec: DspSpecView,
) -> bool {
    new == old.update(stage, DspStageView { spec, bypassed: old[stage].bypassed })
}

/// What an edit of a running setting makes of a configuration.
pub open spec fn is_edited(old: SnapshotView, edit: EditView, new: SnapshotView) -> bool {
    match edit {
        EditView::SetMaster(gain) => new == (SnapshotView { master: gain, ..old }),
        EditView::SetMuted(muted) => new == (SnapshotView { muted, ..old }),
        EditView::SetGroupGain(name, gain) => one_changed(old, new, name) && forall|i: int|
            bears(old.groups, name, i) ==> #[trigger] new.groups[i] == (GroupView {
                gain,
                ..old.groups[i]
            }),
        EditView::SetFollowMaster(name, on) => one_changed(old, new, name) && forall|i: int|
            bears(old.groups, name, i) ==> #[trigger] new.groups[i] == (GroupView {
                follow_master: on,
                ..old.groups[i]
            }),
        EditView::SetGroupMute(name, on) => one_changed(old, new, name) && forall|i: int|
            bears(old.groups, name, i) ==> #[trigger] new.groups[i] == (GroupView {
                muted: on,
                ..old.groups[i]
            }),
        EditView::SetDuck(name, duck) => one_changed(old, new, name) && forall|i: int|
            bears(old.groups, name, i) ==> #[trigger] new.groups[i] == (GroupView {
                duck,
                ..old.groups[i]
            }),
        EditView::SetDspBypass(name, stage, on) => one_changed(old, new, name) && forall|i: int|
            bears(old.groups, name, i) ==> stage < old.groups[i].dsp.len()
                && #[trigger] new.groups[i] == (GroupView {
                dsp: old.groups[i].dsp.update(
                    stage as int,
                    DspStageView { bypassed: on, spec: old.groups[i].dsp[stage as int].spec },
                ),
                ..old.groups[i]
            }),
        EditView::SetEqBand(name, stage, band, spec) => one_changed(old, new, name) && forall|
            i: int,
        |
            bears(old.groups, name, i) ==> {
                let chain = old.groups[i].dsp;
                &&& stage < chain.len()
                &&& chain[stage as int].spec matches DspSpecView::Eq { bands }
                &&& band < bands.len()
                &&& #[trigger] new.groups[i] == (GroupView {
                    dsp: new.groups[i].dsp,
                    ..old.groups[i]
                })
                &&& stage_changed(
                    chain,
                    new.groups[i].dsp,
                    stage as int,
                    DspSpecView::Eq { bands: bands.update(band as int, spec) },
                )
            },
        EditView::SetLimiterCeiling(name, ceiling_db) => one_changed(old, new, name) && forall|
            i: int,
        |
            bears(old.groups, name, i) ==> {
                &&& #[trigger] new.groups[i] == (GroupView {
                    dsp: new.groups[i].dsp,
                    ..old.groups[i]
                })
                &&& exists|stage: int|
                    is_first_limiter(old.groups[i].dsp, stage) && #[trigger] stage_changed(
                        old.groups[i].dsp,
                        new.groups[i].dsp,
                        stage,
                        DspSpecView::Limiter { ceiling_db },
                    )
            },
        _ => false,
    }
}

/// A stage is the first limiter of its chain.
pub open spec fn is_first_limiter(stages: Seq<DspStageView>, stage: int) -> bool {
    &&& 0 <= stage < stages.len()
    &&& stages[stage].spec is Limiter
    &&& forall|k: int| 0 <= k < stage ==> !((#[trigger] stages[k]).spec is Limiter)
}

proof fn lemma_first_limiter(stages: Seq<DspStageView>, stage: int, from: int)
    requires
        is_first_limiter(stages, stage),
        0 <= from <= stage,
    ensures
        limiter_from(stages, from) == Some(stage),
    decreases stage - from,
{
    if from < stage {
        assert(!(stages[from].spec is Limiter));
        lemma_first_limiter(stages, stage, from + 1);
    }
}

/// The command of an edit, in a list.
pub open spec fn command_for(edit: EditView, groups: Seq<GroupView>) -> Seq<CommandView> {
    match command_of(edit, groups) {
        Some(command) => seq![command],
        None => Seq::empty(),
    }
}

/// Groups that play a configuration play an edited one once the edited group
/// does.
proof fn lemma_one_changed<T>(
    groups: Seq<Playing<T>>,
    muted: bool,
    old: SnapshotView,
    new: SnapshotView,
    name: Seq<char>,
    changed: Playing<T>,
)
    requires
        mirrors(groups, muted, old),
        one_changed(old, new, name),
    ensures
        are_numbered(groups),
        match group_named(old.groups, name) {
            None => mirrors(groups, muted, new),
            Some(k) => bears(old.groups, name, k) && (plays_as(changed, new, k) && chain_alike(
                changed.chain,
                new.groups[k].dsp,
            ) ==> mirrors(groups.update(k, changed), muted, new)),
        },
{
    group_named_is_the_first(old.groups, name);
    assert forall|i: int| 0 <= i < groups.len() implies (#[trigger] groups[i]).id == GroupId(
        i as u16,
    ) by {
        assert(plays_as(groups[i], old, i));
    }
    assert forall|i: int| 0 <= i < groups.len() && !bears(old.groups, name, i) implies plays_as(
        #[trigger] groups[i],
        new,
        i,
    ) && chain_alike(groups[i].chain, new.groups[i].dsp) by {
        assert(plays_as(groups[i], old, i));
        assert(new.groups[i] == old.groups[i]);
        lemma_same_names(groups[i].duck, old.groups, new.groups, old.groups[i].duck);
    }
    match group_named(old.groups, name) {
        None => {
            assert forall|i: int| 0 <= i < groups.len() implies !bears(old.groups, name, i) by {
                assert(old.groups[i].name != name);
            }
        },
        Some(k) => {
            assert forall|i: int| 0 <= i < groups.len() && i != k implies !bears(
                old.groups,
                name,
                i,
            ) by {
                if i < k {
                    assert(old.groups[i].name != name);
                } else {
                    assert(old.groups[k].name == name);
                }
            }
        },
    }
}

proof fn lemma_same_names(
    duck: Option<DuckSpec>,
    old: Seq<GroupView>,
    new: Seq<GroupView>,
    asked: Option<DuckView>,
)
    requires
        old.len() == new.len(),
        forall|i: int| 0 <= i < old.len() ==> (#[trigger] new[i]).name == old[i].name,
    ensures
        ducks_as(duck, old, asked) == ducks_as(duck, new, asked),
{
    assert forall|i: int| 0 <= i < old.len() implies (#[trigger] old[i]).name == new[i].name by {
        assert(new[i].name == old[i].name);
    }
}

proof fn lemma_stage_changed(
    chain: Seq<DspStageView>,
    old: Seq<DspStageView>,
    new: Seq<DspStageView>,
    stage: int,
    to: DspStageView,
)
    requires
        chain_alike(chain, old),
        0 <= stage < chain.len(),
        new == old.update(stage, new[stage]),
        stage_alike(to, new[stage]),
    ensures
        chain_alike(chain.update(stage, to), new),
{
    assert forall|k: int| 0 <= k < chain.len() implies stage_alike(
        #[trigger] chain.update(stage, to)[k],
        new[k],
    ) by {
        if k != stage {
            assert(stage_alike(chain[k], old[k]));
            assert(new[k] == old.update(stage, new[stage])[k]);
        }
    }
}

/// The groups after the command of an edit of one group.
spec fn once_edited<T>(groups: Seq<Playing<T>>, edit: EditView, old: SnapshotView) -> Seq<
    Playing<T>,
> {
    match command_of(edit, old.groups) {
        Some(command) => groups_after(groups, command),
        None => groups,
    }
}

proof fn lemma_group_edited<T>(
    groups: Seq<Playing<T>>,
    muted: bool,
    old: SnapshotView,
    edit: EditView,
    new: SnapshotView,
    name: Seq<char>,
)
    requires
        mirrors(groups, muted, old),
        is_edited(old, edit, new),
        match edit {
            EditView::SetGroupGain(n, _) => n == name,
            EditView::SetFollowMaster(n, _) => n == name,
            EditView::SetGroupMute(n, _) => n == name,
            EditView::SetDuck(n, _) => n == name,
            _ => false,
        },
    ensures
        mirrors(once_edited(groups, edit, old), muted, new),
{
    let now = once_edited(groups, edit, old);
    lemma_one_changed(groups, muted, old, new, name, groups[0]);
    if let Some(k) = group_named(old.groups, name) {
        lemma_found(groups, k, 0);
        let changed = now[k];
        assert(now =~= groups.update(k, changed));
        lemma_one_changed(groups, muted, old, new, name, changed);
        assert(plays_as(groups[k], old, k));
        let asked = new.groups[k];
        lemma_same_names(groups[k].duck, old.groups, new.groups, old.groups[k].duck);
        if let EditView::SetDuck(_, duck) = edit {
            lemma_resolved(old.groups, duck);
            lemma_same_names(resolved_duck(old.groups, duck), old.groups, new.groups, duck);
        }
        assert(plays_as(changed, new, k));
        assert(chain_alike(changed.chain, asked.dsp));
    }
}

proof fn lemma_chain_edited<T>(
    groups: Seq<Playing<T>>,
    muted: bool,
    old: SnapshotView,
    edit: EditView,
    new: SnapshotView,
    name: Seq<char>,
)
    requires
        mirrors(groups, muted, old),
        is_edited(old, edit, new),
        match edit {
            EditView::SetDspBypass(n, _, _) => n == name,
            EditView::SetEqBand(n, _, _, _) => n == name,
            EditView::SetLimiterCeiling(n, _) => n == name,
            _ => false,
        },
    ensures
        mirrors(once_edited(groups, edit, old), muted, new),
{
    let now = once_edited(groups, edit, old);
    lemma_one_changed(groups, muted, old, new, name, groups[0]);
    if let Some(k) = group_named(old.groups, name) {
        lemma_found(groups, k, 0);
        assert(plays_as(groups[k], old, k));
        assert(chain_alike(groups[k].chain, old.groups[k].dsp));
        let asked = new.groups[k];
        let chain = groups[k].chain;
        let was = old.groups[k].dsp;
        let stage: int = match edit {
            EditView::SetDspBypass(_, stage, _) => stage as int,
            EditView::SetEqBand(_, stage, _, _) => stage as int,
            EditView::SetLimiterCeiling(_, ceiling_db) => choose|stage: int|
                is_first_limiter(was, stage) && #[trigger] stage_changed(
                    was,
                    asked.dsp,
                    stage,
                    DspSpecView::Limiter { ceiling_db },
                ),
            _ => 0,
        };
        if let EditView::SetLimiterCeiling(_, _) = edit {
            lemma_first_limiter(was, stage, 0);
        }
        assert(0 <= stage < was.len());
        assert(stage_alike(chain[stage], was[stage]));
        let changed = now[k];
        assert(now =~= groups.update(k, changed));
        let to = changed.chain[stage];
        assert(changed.chain =~= chain.update(stage, to));
        assert(asked.dsp =~= was.update(stage, asked.dsp[stage]));
        assert(stage_alike(to, asked.dsp[stage]));
        lemma_stage_changed(chain, was, asked.dsp, stage, to);
        lemma_same_names(groups[k].duck, old.groups, new.groups, old.groups[k].duck);
        assert(plays_as(changed, new, k));
        lemma_one_changed(groups, muted, old, new, name, changed);
    }
}

/// A mixer that plays a configuration and is told of an edit plays the edited
/// configuration: what was set is heard where it was set, and nowhere else.
#[verifier::rlimit(60)]
pub proof fn an_edit_reaches_the_mixer<T>(
    groups: Seq<Playing<T>>,
    muted: bool,
    old: SnapshotView,
    edit: EditView,
    new: SnapshotView,
)
    requires
        mirrors(groups, muted, old),
        is_edited(old, edit, new),
    ensures
        mirrors(
            told(groups, command_for(edit, old.groups)),
            muted_once_told(muted, command_for(edit, old.groups)),
            new,
        ),
{
    reveal_with_fuel(told, 2);
    reveal_with_fuel(muted_once_told, 2);
    let commands = command_for(edit, old.groups);
    let now = told(groups, commands);
    if commands.len() > 0 {
        assert(commands.drop_last() =~= Seq::<CommandView>::empty());
        assert(now == groups_after(groups, commands[0]));
    }
    match edit {
        EditView::SetMaster(gain) => {
            assert forall|i: int| 0 <= i < now.len() implies plays_as(#[trigger] now[i], new, i)
                && chain_alike(now[i].chain, new.groups[i].dsp) by {
                assert(plays_as(groups[i], old, i));
            }
        },
        EditView::SetMuted(on) => {
            assert forall|i: int| 0 <= i < now.len() implies plays_as(#[trigger] now[i], new, i)
                && chain_alike(now[i].chain, new.groups[i].dsp) by {
                assert(plays_as(groups[i], old, i));
            }
        },
        EditView::SetGroupGain(name, _) => lemma_group_edited(groups, muted, old, edit, new, name),
        EditView::SetFollowMaster(name, _) => lemma_group_edited(
            groups,
            muted,
            old,
            edit,
            new,
            name,
        ),
        EditView::SetGroupMute(name, _) => lemma_group_edited(groups, muted, old, edit, new, name),
        EditView::SetDuck(name, _) => lemma_group_edited(groups, muted, old, edit, new, name),
        EditView::SetDspBypass(name, _, _) => lemma_chain_edited(
            groups,
            muted,
            old,
            edit,
            new,
            name,
        ),
        EditView::SetEqBand(name, _, _, _) => lemma_chain_edited(
            groups,
            muted,
            old,
            edit,
            new,
            name,
        ),
        EditView::SetLimiterCeiling(name, _) => lemma_chain_edited(
            groups,
            muted,
            old,
            edit,
            new,
            name,
        ),
        _ => {},
    }
}

/// What the switches of a chain make of group `k`, told one by one.
proof fn lemma_all_switched<T>(
    groups: Seq<Playing<T>>,
    k: int,
    stages: Seq<DspStageView>,
    n: int,
)
    requires
        are_numbered(groups),
        0 <= k < groups.len(),
        0 <= n <= stages.len() == groups[k].chain.len() <= usize::MAX,
    ensures
        ({
            let now = told(groups, switches(k, stages, n));
            &&& now == groups.update(k, Playing { chain: now[k].chain, ..groups[k] })
            &&& now[k].chain.len() == stages.len()
            &&& forall|j: int|
                0 <= j < stages.len() ==> (#[trigger] now[k].chain[j]).spec
                    == groups[k].chain[j].spec && (j < n ==> now[k].chain[j].bypassed
                    == stages[j].bypassed)
        }),
        leaves_mute(switches(k, stages, n)),
    decreases n,
{
    if n == 0 {
        assert(groups.update(k, Playing { chain: groups[k].chain, ..groups[k] }) =~= groups);
    } else {
        lemma_all_switched(groups, k, stages, n - 1);
        let before = switches(k, stages, n - 1);
        let then = told(groups, before);
        let now = told(groups, switches(k, stages, n));
        let command = CommandView::SetDspBypass {
            group: GroupId(k as u16),
            stage: (n - 1) as usize,
            bypassed: stages[n - 1].bypassed,
        };
        assert(before.push(command).drop_last() =~= before);
        assert(now == groups_after(then, command));
        assert forall|i: int| 0 <= i < then.len() implies (#[trigger] then[i]).id == GroupId(
            i as u16,
        ) by {
            assert(groups[i].id == GroupId(i as u16));
        }
        lemma_found(then, k, 0);
        assert(now =~= groups.update(k, Playing { chain: now[k].chain, ..groups[k] }));
        assert forall|j: int| 0 <= j < stages.len() implies (#[trigger] now[k].chain[j]).spec
            == groups[k].chain[j].spec && (j < n ==> now[k].chain[j].bypassed
            == stages[j].bypassed) by {
            assert(then[k].chain[j].spec == groups[k].chain[j].spec);
        }
    }
}

/// A chain has the stages that are configured, whatever their switches.
spec fn is_staged(chain: Seq<DspStageView>, dsp: Seq<DspStageView>) -> bool {
    chain.len() == dsp.len() <= usize::MAX && forall|j: int|
        0 <= j < chain.len() ==> (#[trigger] chain[j]).spec == dsp[j].spec
}

proof fn lemma_groups_switched<T>(groups: Seq<Playing<T>>, asked: Seq<GroupView>, n: int)
    requires
        are_numbered(groups),
        groups.len() == asked.len(),
        0 <= n <= groups.len(),
        forall|i: int| 0 <= i < groups.len() ==> is_staged((#[trigger] groups[i]).chain, asked[i].dsp),
    ensures
        leaves_mute(all_switches(asked, n)),
        told(groups, all_switches(asked, n)).len() == groups.len(),
        forall|i: int|
            0 <= i < groups.len() ==> {
                let now = #[trigger] told(groups, all_switches(asked, n))[i];
                &&& now == (Playing { chain: now.chain, ..groups[i] })
                &&& i >= n ==> now == groups[i]
                &&& i < n ==> chain_alike(now.chain, asked[i].dsp)
            },
    decreases n,
{
    if n > 0 {
        lemma_groups_switched(groups, asked, n - 1);
        let before = all_switches(asked, n - 1);
        let then = told(groups, before);
        let dsp = asked[n - 1].dsp;
        let own = switches(n - 1, dsp, dsp.len() as int);
        assert forall|i: int| 0 <= i < then.len() implies (#[trigger] then[i]).id == GroupId(
            i as u16,
        ) by {
            assert(groups[i].id == GroupId(i as u16));
        }
        assert(then[n - 1] == groups[n - 1]);
        assert(is_staged(groups[n - 1].chain, dsp));
        lemma_all_switched(then, n - 1, dsp, dsp.len() as int);
        lemma_told_adds(groups, before, own);
        let now = told(groups, before + own);
        assert forall|j: int| 0 <= j < dsp.len() implies stage_alike(
            #[trigger] now[n - 1].chain[j],
            dsp[j],
        ) by {
            assert(groups[n - 1].chain[j].spec == dsp[j].spec);
        }
        assert forall|i: int| 0 <= i < groups.len() implies {
            let at = #[trigger] now[i];
            &&& at == (Playing { chain: at.chain, ..groups[i] })
            &&& i >= n ==> at == groups[i]
            &&& i < n ==> chain_alike(at.chain, asked[i].dsp)
        } by {
            if i != n - 1 {
                assert(now[i] == then[i]);
            }
        }
    }
}

/// A mixer that was built from the plan of a configuration, and was told its
/// first commands, plays that configuration, and each group on its own device.
pub proof fn a_new_mixer_plays_what_is_configured<T>(
    s: SnapshotView,
    devices: Seq<DeviceView>,
    input: Format,
    topology: Topology,
    names: Seq<Seq<char>>,
    groups: Seq<Playing<T>>,
    outputs: Seq<Format>,
    frames: nat,
)
    requires
        planned(s, devices, input, topology, names),
        s.groups.len() <= 0x1_0000,
        names.len() <= 0x1_0000,
        forall|i: int| 0 <= i < s.groups.len() ==> (#[trigger] s.groups[i]).dsp.len() <= usize::MAX,
        groups.len() == topology.groups@.len(),
        forall|i: int|
            0 <= i < groups.len() ==> starts_as(
                #[trigger] groups[i],
                topology.groups@[i],
                outputs[i],
                topology.master.deep_view(),
                frames,
            ),
    ensures
        mirrors(
            told(groups, first_commands(s)),
            muted_once_told(false, first_commands(s)),
            s,
        ),
        forall|i: int|
            0 <= i < groups.len() ==> (#[trigger] groups[i]).output.0 < names.len()
                && names[groups[i].output.0 as int] == s.groups[i].output_device
                && topology.outputs@[groups[i].output.0 as int].id == groups[i].output,
{
    assert forall|i: int| 0 <= i < groups.len() implies is_staged(
        (#[trigger] groups[i]).chain,
        s.groups[i].dsp,
    ) && groups[i].id == GroupId(i as u16) && groups[i].output.0 < names.len()
        && names[groups[i].output.0 as int] == s.groups[i].output_device
        && topology.outputs@[groups[i].output.0 as int].id == groups[i].output by {
        let spec = topology.groups@[i];
        assert(planned_group(s.groups, i, names, heard_in(input), spec));
        assert(s.groups[i].dsp.len() <= usize::MAX);
        let o = choose|o: int|
            0 <= o < names.len() && #[trigger] names[o] == s.groups[i].output_device && spec.output
                == OutputId(o as u16);
        assert(topology.outputs@[o].id == OutputId(o as u16));
        assert(groups[i].chain == fresh(specs_of(s.groups[i].dsp)));
    }
    let quiet = seq![CommandView::SetMuted(s.muted)];
    let rest = all_switches(s.groups, s.groups.len() as int);
    lemma_told_adds(groups, quiet, rest);
    lemma_told_when(groups, true, CommandView::SetMuted(s.muted));
    assert(told(groups, quiet) == groups);
    lemma_groups_switched(groups, s.groups, s.groups.len() as int);
    lemma_muted_adds(false, quiet, rest);
    lemma_mute_left(s.muted, rest);
    reveal_with_fuel(muted_once_told, 2);
    let now = told(groups, first_commands(s));
    assert forall|i: int| 0 <= i < now.len() implies plays_as(#[trigger] now[i], s, i)
        && chain_alike(now[i].chain, s.groups[i].dsp) by {
        let spec = topology.groups@[i];
        assert(planned_group(s.groups, i, names, heard_in(input), spec));
        assert(starts_as(groups[i], spec, outputs[i], topology.master.deep_view(), frames));
        lemma_resolved(s.groups, s.groups[i].duck);
    }
}

/// Group `i` is listed with its new stages.
pub open spec fn is_rechained(
    list: Seq<(GroupId, Seq<DspSpecView>)>,
    i: int,
    dsp: Seq<DspStageView>,
) -> bool {
    exists|e: int| 0 <= e < list.len() && #[trigger] list[e].0.0 == i && has_stages(list[e].1, dsp)
}

/// The settings are those of the stages, one by one.
pub open spec fn has_stages(specs: Seq<DspSpecView>, dsp: Seq<DspStageView>) -> bool {
    specs.len() == dsp.len() && forall|k: int|
        0 <= k < dsp.len() ==> #[trigger] specs[k] == dsp[k].spec
}

/// Group `i` is listed with its new virtual surround.
pub open spec fn is_rerendered(list: Seq<(GroupId, bool)>, i: int, on: bool) -> bool {
    exists|e: int| 0 <= e < list.len() && #[trigger] list[e].0.0 == i && list[e].1 == on
}

/// What a list holds; none has nothing in it.
pub open spec fn listed<E>(list: Option<Seq<E>>) -> Seq<E> {
    match list {
        Some(l) => l,
        None => Seq::empty(),
    }
}

proof fn lemma_listed(old: Seq<GroupView>, new: Seq<GroupView>, k: int)
    requires
        0 <= k <= old.len() == new.len() <= 0x1_0000,
    ensures
        forall|i: int|
            0 <= i < k && !specs_equal(old[i].dsp, (#[trigger] new[i]).dsp) ==> is_rechained(
                chains_upto(old, new, k),
                i,
                new[i].dsp,
            ),
        forall|e: int|
            0 <= e < chains_upto(old, new, k).len() ==> {
                let entry = #[trigger] chains_upto(old, new, k)[e];
                entry.0.0 < k && has_stages(entry.1, new[entry.0.0 as int].dsp) && !specs_equal(
                    old[entry.0.0 as int].dsp,
                    new[entry.0.0 as int].dsp,
                )
            },
        forall|i: int|
            0 <= i < k && old[i].spatial != (#[trigger] new[i]).spatial ==> is_rerendered(
                spatial_upto(old, new, k),
                i,
                new[i].spatial,
            ),
        forall|e: int|
            0 <= e < spatial_upto(old, new, k).len() ==> {
                let entry = #[trigger] spatial_upto(old, new, k)[e];
                entry.0.0 < k && entry.1 == new[entry.0.0 as int].spatial
                    && old[entry.0.0 as int].spatial != entry.1
            },
    decreases k,
{
    if k > 0 {
        lemma_listed(old, new, k - 1);
        let chains = chains_upto(old, new, k - 1);
        let now = chains_upto(old, new, k);
        let renders = spatial_upto(old, new, k - 1);
        let then = spatial_upto(old, new, k);
        assert forall|i: int|
            0 <= i < k && !specs_equal(old[i].dsp, (#[trigger] new[i]).dsp) implies is_rechained(
            now,
            i,
            new[i].dsp,
        ) by {
            if i < k - 1 {
                assert(is_rechained(chains, i, new[i].dsp));
                let e = choose|e: int|
                    0 <= e < chains.len() && #[trigger] chains[e].0.0 == i && has_stages(
                        chains[e].1,
                        new[i].dsp,
                    );
                assert(now[e] == chains[e]);
                assert(now[e].0.0 == i);
                assert(0 <= e < now.len());
            } else {
                let last = (GroupId((k - 1) as u16), specs_of(new[k - 1].dsp));
                assert(now == chains.push(last));
                assert(now[chains.len() as int].0.0 == i);
                assert(has_stages(last.1, new[i].dsp));
            }
        }
        assert forall|i: int|
            0 <= i < k && old[i].spatial != (#[trigger] new[i]).spatial implies is_rerendered(
            then,
            i,
            new[i].spatial,
        ) by {
            if i < k - 1 {
                assert(is_rerendered(renders, i, new[i].spatial));
                let e = choose|e: int|
                    0 <= e < renders.len() && #[trigger] renders[e].0.0 == i && renders[e].1
                        == new[i].spatial;
                assert(then[e] == renders[e]);
                assert(then[e].0.0 == i);
                assert(0 <= e < then.len());
            } else {
                let last = (GroupId((k - 1) as u16), new[k - 1].spatial);
                assert(then == renders.push(last));
                assert(then[renders.len() as int].0.0 == i);
            }
        }
    }
}

/// What no command can carry is listed: every chain of other stages with all of
/// its new ones, every other virtual surround, the rules of all groups where some
/// changed, and the excluded applications where they changed. Nothing else is.
pub proof fn a_reload_lists_what_is_swapped(old: SnapshotView, new: SnapshotView)
    requires
        !delta_of(old, new).structural,
        old.groups.len() <= 0x1_0000,
    ensures
        forall|i: int|
            0 <= i < new.groups.len() ==> !specs_equal(
                old.groups[i].dsp,
                (#[trigger] new.groups[i]).dsp,
            ) == is_rechained(listed(delta_of(old, new).dsp_chains), i, new.groups[i].dsp),
        forall|i: int|
            0 <= i < new.groups.len() ==> (old.groups[i].spatial != (
            #[trigger] new.groups[i]).spatial) == is_rerendered(
                listed(delta_of(old, new).spatial),
                i,
                new.groups[i].spatial,
            ),
        match delta_of(old, new).rules {
            None => forall|i: int|
                0 <= i < new.groups.len() ==> old.groups[i].match_rules == (
                #[trigger] new.groups[i]).match_rules,
            Some(rules) => rules.len() == new.groups.len() && forall|i: int, k: int|
                0 <= i < rules.len() && 0 <= k < new.groups[i].match_rules.len()
                    ==> rules[i].group.0 == i && #[trigger] rules[i].rules[k] == (
                if new.groups[i].match_rules[k].contains('*') {
                    RuleView::Glob(new.groups[i].match_rules[k])
                } else {
                    RuleView::ExactName(new.groups[i].match_rules[k])
                }),
        },
        match delta_of(old, new).excluded {
            None => old.app.excluded == new.app.excluded,
            Some(excluded) => excluded == new.app.excluded,
        },
{
    let n = old.groups.len() as int;
    assert(old.groups.len() == new.groups.len());
    lemma_listed(old.groups, new.groups, n);
    let d = delta_of(old, new);
    assert forall|i: int| 0 <= i < new.groups.len() implies !specs_equal(
        old.groups[i].dsp,
        (#[trigger] new.groups[i]).dsp,
    ) == is_rechained(listed(d.dsp_chains), i, new.groups[i].dsp) by {
        let list = chains_upto(old.groups, new.groups, n);
        if is_rechained(listed(d.dsp_chains), i, new.groups[i].dsp) {
            let e = choose|e: int|
                0 <= e < list.len() && #[trigger] list[e].0.0 == i && has_stages(
                    list[e].1,
                    new.groups[i].dsp,
                );
            assert(list[e].0.0 < n);
        }
        if !specs_equal(old.groups[i].dsp, new.groups[i].dsp) {
            assert(is_rechained(list, i, new.groups[i].dsp));
        }
    }
    assert forall|i: int| 0 <= i < new.groups.len() implies (old.groups[i].spatial != (
    #[trigger] new.groups[i]).spatial) == is_rerendered(listed(d.spatial), i, new.groups[i].spatial) by {
        let list = spatial_upto(old.groups, new.groups, n);
        if is_rerendered(listed(d.spatial), i, new.groups[i].spatial) {
            let e = choose|e: int|
                0 <= e < list.len() && #[trigger] list[e].0.0 == i && list[e].1
                    == new.groups[i].spatial;
            assert(list[e].0.0 < n);
        }
        if old.groups[i].spatial != new.groups[i].spatial {
            assert(is_rerendered(list, i, new.groups[i].spatial));
        }
    }
    if d.rules is None {
        assert forall|i: int| 0 <= i < new.groups.len() implies old.groups[i].match_rules == (
        #[trigger] new.groups[i]).match_rules by {
            if old.groups[i].match_rules != new.groups[i].match_rules {
                assert(rules_changed(old.groups, new.groups));
            }
        }
    }
}

/// What is set of a target is read back of it, and of no other: its gain with its
/// mute as it was, and its mute with its gain as it was.
pub proof fn a_target_is_as_it_was_set(
    old: SnapshotView,
    new: SnapshotView,
    target: TargetView,
    gain: Float32,
    muted: bool,
    other: TargetView,
)
    requires
        state_of(old, target) is Some,
        other != target,
    ensures
        is_edited(old, gain_edit_of(target, gain), new) ==> state_of(new, target) == Some(
            (gain, (state_of(old, target)->0).1),
        ) && state_of(new, other) == state_of(old, other),
        is_edited(old, mute_edit_of(target, muted), new) ==> state_of(new, target) == Some(
            ((state_of(old, target)->0).0, muted),
        ) && state_of(new, other) == state_of(old, other),
        sets_gain_of(gain_edit_of(target, gain), target),
        !sets_mute_of(gain_edit_of(target, gain), target),
        sets_mute_of(mute_edit_of(target, muted), target),
        !sets_gain_of(mute_edit_of(target, muted), target),
        !sets_gain_of(gain_edit_of(target, gain), other),
        !sets_mute_of(mute_edit_of(target, muted), other),
{
    if is_edited(old, gain_edit_of(target, gain), new) || is_edited(
        old,
        mute_edit_of(target, muted),
        new,
    ) {
        if let TargetView::Group(name) = target {
            lemma_names_kept(old, new, name, name);
            if let TargetView::Group(another) = other {
                lemma_names_kept(old, new, name, another);
            }
        }
    }
}

/// An edit of one group leaves every name where it is.
proof fn lemma_names_kept(old: SnapshotView, new: SnapshotView, name: Seq<char>, any: Seq<char>)
    requires
        one_changed(old, new, name),
    ensures
        group_named(new.groups, any) == group_named(old.groups, any),
        group_named(old.groups, any) matches Some(i) ==> {
            &&& bears(old.groups, any, i)
            &&& any != name ==> new.groups[i] == old.groups[i]
        },
{
    group_named_is_the_first(old.groups, any);
    group_named_is_the_first(new.groups, any);
    assert forall|i: int| 0 <= i < old.groups.len() implies (#[trigger] new.groups[i]).name
        == old.groups[i].name by {}
    match (group_named(old.groups, any), group_named(new.groups, any)) {
        (Some(i), Some(j)) => {
            assert(new.groups[i].name == old.groups[i].name);
            assert(new.groups[j].name == old.groups[j].name);
            if i < j {
                assert(new.groups[i].name != any);
            }
            if j < i {
                assert(old.groups[j].name != any);
            }
        },
        (Some(i), None) => {
            assert(new.groups[i].name == old.groups[i].name);
        },
        (None, Some(j)) => {
            assert(new.groups[j].name == old.groups[j].name);
            assert(old.groups[j].name != any);
        },
        (None, None) => {},
    }
}

} // verus!
