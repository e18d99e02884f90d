//! The silent sink that routed applications are parked on: whether it is
//! there and in effect, and what the configuration would do to it.
use crate::model::{ConfigSnapshot, GroupConfig, GroupView};
use crate::text::same_text;
use vstd::prelude::*;

verus! {

/// Whether the configured sink is present and in effect.
#[derive(Debug, Clone, PartialEq)]
pub enum SinkStatus {
    /// No sink is configured.
    NotConfigured,
    /// Configured but absent from the device list.
    Missing { configured: String },
    /// Present, but the default output is something else, so applications are
    /// still heard twice.
    NotDefault { sink: String, current_default: Option<String> },
    /// Present and the default output.
    Active { sink: String },
}

/// What a [`SinkStatus`] says.
pub enum SinkView {
    NotConfigured,
    Missing { configured: Seq<char> },
    NotDefault { sink: Seq<char>, current_default: Option<Seq<char>> },
    Active { sink: Seq<char> },
}

impl DeepView for SinkStatus {
    type V = SinkView;

    open spec fn deep_view(&self) -> SinkView {
        match self {
            SinkStatus::NotConfigured => SinkView::NotConfigured,
            SinkStatus::Missing { configured } => SinkView::Missing { configured: configured@ },
            SinkStatus::NotDefault { sink, current_default } => SinkView::NotDefault {
                sink: sink@,
                current_default: current_default.deep_view(),
            },
            SinkStatus::Active { sink } => SinkView::Active { sink: sink@ },
        }
    }
}

/// The status that the three facts make. Device names are compared exactly.
pub open spec fn sink_status(
    configured: Option<Seq<char>>,
    available: Seq<Seq<char>>,
    current_default: Option<Seq<char>>,
) -> SinkView {
    match configured {
        None => SinkView::NotConfigured,
        Some(sink) => if !available.contains(sink) {
            SinkView::Missing { configured: sink }
        } else if current_default == Some(sink) {
            SinkView::Active { sink }
        } else {
            SinkView::NotDefault { sink, current_default }
        },
    }
}

/// An optional borrowed text as a value.
pub open spec fn text_of_option(text: Option<&str>) -> Option<Seq<char>> {
    match text {
        Some(text) => Some(text@),
        None => None,
    }
}

fn lists(available: &[String], device: &str) -> (r: bool)
    ensures
        r == available.deep_view().contains(device@),
{
    let mut i: usize = 0;
    while i < available.len()
        invariant
            i <= available@.len(),
            forall|j: int| 0 <= j < i ==> available.deep_view()[j] != device@,
        decreases available@.len() - i,
    {
        if same_text(available[i].as_str(), device) {
            assert(available.deep_view()[i as int] == device@);
            return true;
        }
        i = i + 1;
    }
    assert(available.deep_view().len() == available@.len());
    false
}

pub fn resolve_sink_status(
    configured_sink: Option<&str>,
    available_devices: &[String],
    current_default: Option<&str>,
) -> (r: SinkStatus)
    ensures
        r.deep_view() == sink_status(
            text_of_option(configured_sink),
            available_devices.deep_view(),
            text_of_option(current_default),
        ),
{
    let sink = match configured_sink {
        None => {
            return SinkStatus::NotConfigured;
        },
        Some(sink) => sink,
    };
    if !lists(available_devices, sink) {
        return SinkStatus::Missing { configured: sink.to_owned() };
    }
    match current_default {
        Some(name) => {
            if same_text(name, sink) {
                SinkStatus::Active { sink: sink.to_owned() }
            } else {
                SinkStatus::NotDefault {
                    sink: sink.to_owned(),
                    current_default: Some(name.to_owned()),
                }
            }
        },
        None => SinkStatus::NotDefault { sink: sink.to_owned(), current_default: None },
    }
}

/// True when quitting right now would leave the machine on the sink with
/// nothing to hand back: the sink is the default, and what preceded it is not
/// on record.
pub fn quit_would_strand(previous_default: Option<&str>, status: &SinkStatus) -> (r: bool)
    ensures
        r == (status.deep_view() is Active && previous_default is None),
{
    match status {
        SinkStatus::Active { sink } => previous_default.is_none(),
        _ => false,
    }
}

/// Some group takes every application.
pub open spec fn has_catch_all(groups: Seq<GroupView>) -> bool {
    exists|i: int| 0 <= i < groups.len() && (#[trigger] groups[i]).match_rules.contains("*"@)
}

fn lists_rule(rules: &Vec<String>, rule: &str) -> (r: bool)
    ensures
        r == rules.deep_view().contains(rule@),
{
    let mut i: usize = 0;
    while i < rules.len()
        invariant
            i <= rules.len(),
            forall|j: int| 0 <= j < i ==> rules.deep_view()[j] != rule@,
        decreases rules.len() - i,
    {
        if same_text(rules[i].as_str(), rule) {
            assert(rules.deep_view()[i as int] == rule@);
            return true;
        }
        i = i + 1;
    }
    assert(rules.deep_view().len() == rules@.len());
    false
}

/// True when no group carries the `*` rule. With the default output on the
/// sink, an application that matches nothing is inaudible.
pub fn lacks_catch_all(snapshot: &ConfigSnapshot) -> (r: bool)
    ensures
        r == !has_catch_all(snapshot.deep_view().groups),
{
    let groups: &Vec<GroupConfig> = &snapshot.groups;
    let mut i: usize = 0;
    while i < groups.len()
        invariant
            i <= groups.len(),
            groups.deep_view() == snapshot.deep_view().groups,
            forall|j: int|
                0 <= j < i ==> !(#[trigger] groups.deep_view()[j]).match_rules.contains("*"@),
        decreases groups.len() - i,
    {
        if lists_rule(&groups[i].match_rules, "*") {
            assert(groups.deep_view()[i as int].match_rules.contains("*"@));
            return false;
        }
        i = i + 1;
    }
    assert(groups.deep_view().len() == groups@.len());
    true
}

/// The names of the groups among the first `n` that play on the device.
pub open spec fn names_on(groups: Seq<GroupView>, device: Seq<char>, n: int) -> Seq<Seq<char>>
    decreases n,
{
    if n <= 0 {
        Seq::empty()
    } else if groups[n - 1].output_device == device {
        names_on(groups, device, n - 1).push(groups[n - 1].name)
    } else {
        names_on(groups, device, n - 1)
    }
}

/// Groups whose output device is the sink. Such a group plays where nobody
/// listens, and no error shows it.
pub fn groups_outputting_to_sink<'a>(snapshot: &'a ConfigSnapshot, sink: Option<&str>) -> (r: Vec<
    &'a str,
>)
    ensures
        r.deep_view() == match sink {
            Some(device) => names_on(
                snapshot.deep_view().groups,
                device@,
                snapshot.deep_view().groups.len() as int,
            ),
            None => Seq::empty(),
        },
{
    let mut out: Vec<&'a str> = Vec::new();
    assert(out.deep_view() =~= Seq::empty());
    let device = match sink {
        None => {
            return out;
        },
        Some(device) => device,
    };
    let groups: &'a Vec<GroupConfig> = &snapshot.groups;
    let mut i: usize = 0;
    while i < groups.len()
        invariant
            i <= groups.len(),
            out.deep_view() == names_on(groups.deep_view(), device@, i as int),
        decreases groups.len() - i,
    {
        let ghost before = out.deep_view();
        if same_text(groups[i].output_device.as_str(), device) {
            out.push(groups[i].name.as_str());
            assert(out.deep_view() =~= before.push(groups.deep_view()[i as int].name));
        }
        i = i + 1;
    }
    out
}

/// The sink counts as active exactly where it is configured, present and the
/// default output.
pub proof fn active_means_present_and_default(
    configured: Option<Seq<char>>,
    available: Seq<Seq<char>>,
    current_default: Option<Seq<char>>,
)
    ensures
        sink_status(configured, available, current_default) is Active <==> (configured is Some
            && available.contains(configured->0) && current_default == configured),
{
}

/// A status names the sink that is configured, and the default that stands in its
/// place.
pub proof fn a_status_names_what_it_is_about(
    configured: Option<Seq<char>>,
    available: Seq<Seq<char>>,
    current_default: Option<Seq<char>>,
)
    ensures
        match sink_status(configured, available, current_default) {
            SinkView::NotConfigured => configured is None,
            SinkView::Missing { configured: sink } => configured == Some(sink)
                && !available.contains(sink),
            SinkView::NotDefault { sink, current_default: other } => configured == Some(sink)
                && available.contains(sink) && other == current_default && other != configured,
            SinkView::Active { sink } => configured == Some(sink) && available.contains(sink)
                && current_default == configured,
        },
{
}

/// The groups that play on a device are all named, and no others.
pub proof fn groups_on_a_device_are_named(
    groups: Seq<GroupView>,
    device: Seq<char>,
    n: int,
    name: Seq<char>,
)
    requires
        0 <= n <= groups.len(),
    ensures
        names_on(groups, device, n).contains(name) <==> exists|i: int|
            0 <= i < n && (#[trigger] groups[i]).output_device == device && groups[i].name == name,
    decreases n,
{
    if n > 0 {
        groups_on_a_device_are_named(groups, device, n - 1, name);
        let before = names_on(groups, device, n - 1);
        let now = names_on(groups, device, n);
        if before.contains(name) {
            let k = choose|k: int| 0 <= k < before.len() && before[k] == name;
            assert(now[k] == name);
        }
        if groups[n - 1].output_device == device {
            assert(now[before.len() as int] == groups[n - 1].name);
            if now.contains(name) && groups[n - 1].name != name {
                let k = choose|k: int| 0 <= k < now.len() && now[k] == name;
                assert(before[k] == name);
            }
        }
    }
}

} // verus!
