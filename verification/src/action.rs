//! Intents of the tray, the hotkeys and the settings window, and the events
//! of the engine, at the one point where they meet.
use crate::edit::{ConfigEdit, EditView};
use crate::float::Float32;
use crate::sample::GroupId;
use crate::shell::{TargetView, VolumeTarget};
use vstd::prelude::*;

verus! {

/// The size of one volume step: 3 dB, as the bits of the number.
pub const VOLUME_STEP_DB_BITS: u32 = 0x4040_0000;

/// One volume step downward: -3 dB, as the bits of the number.
pub const VOLUME_STEP_DOWN_DB_BITS: u32 = 0xc040_0000;

/// What the endpoint reports: its position and whether it is muted.
#[derive(Debug, Clone, Copy, PartialEq)]
pub struct VolumeEvent {
    pub level: Float32,
    pub muted: bool,
}

/// An intent, whoever had it.
#[derive(Debug)]
pub enum ShellAction {
    EditParams(Vec<ConfigEdit>),
    EditStructure(Vec<ConfigEdit>),
    /// Edits of chains: the file is written first, since the new chain is
    /// built from what it then holds.
    EditDspChains(Vec<ConfigEdit>),
    /// Edits of spatial switches, in the same order.
    EditSpatial(Vec<ConfigEdit>),
    ToggleMute,
    /// Session-only solo; it never reaches the file.
    SetSolo(String, bool),
    ApplyProfile(String),
    EndpointVolumeChanged(VolumeEvent),
    VolumeStep { target: VolumeTarget, delta_db: Float32 },
    ToggleGroupMute(String),
    /// `true` pressed, `false` released.
    PushToMute(bool),
    DefaultDeviceChanged,
    DevicesChanged,
    /// The user accepted the sink as the default output.
    TakeDefaultOutput,
    ShowSettings,
    Quit,
}

/// What a [`ShellAction`] says.
pub enum ActionView {
    EditParams(Seq<EditView>),
    EditStructure(Seq<EditView>),
    EditDspChains(Seq<EditView>),
    EditSpatial(Seq<EditView>),
    ToggleMute,
    SetSolo(Seq<char>, bool),
    ApplyProfile(Seq<char>),
    EndpointVolumeChanged(VolumeEvent),
    VolumeStep { target: TargetView, delta_db: Float32 },
    ToggleGroupMute(Seq<char>),
    PushToMute(bool),
    DefaultDeviceChanged,
    DevicesChanged,
    TakeDefaultOutput,
    ShowSettings,
    Quit,
}

impl DeepView for ShellAction {
    type V = ActionView;

    open spec fn deep_view(&self) -> ActionView {
        match self {
            ShellAction::EditParams(edits) => ActionView::EditParams(edits.deep_view()),
            ShellAction::EditStructure(edits) => ActionView::EditStructure(edits.deep_view()),
            ShellAction::EditDspChains(edits) => ActionView::EditDspChains(edits.deep_view()),
            ShellAction::EditSpatial(edits) => ActionView::EditSpatial(edits.deep_view()),
            ShellAction::ToggleMute => ActionView::ToggleMute,
            ShellAction::SetSolo(name, on) => ActionView::SetSolo(name@, *on),
            ShellAction::ApplyProfile(name) => ActionView::ApplyProfile(name@),
            ShellAction::EndpointVolumeChanged(event) => ActionView::EndpointVolumeChanged(*event),
            ShellAction::VolumeStep { target, delta_db } => ActionView::VolumeStep {
                target: target.deep_view(),
                delta_db: *delta_db,
            },
            ShellAction::ToggleGroupMute(name) => ActionView::ToggleGroupMute(name@),
            ShellAction::PushToMute(pressed) => ActionView::PushToMute(*pressed),
            ShellAction::DefaultDeviceChanged => ActionView::DefaultDeviceChanged,
            ShellAction::DevicesChanged => ActionView::DevicesChanged,
            ShellAction::TakeDefaultOutput => ActionView::TakeDefaultOutput,
            ShellAction::ShowSettings => ActionView::ShowSettings,
            ShellAction::Quit => ActionView::Quit,
        }
    }
}

/// What the engine reports.
#[derive(Debug)]
pub enum EngineEvent {
    FallbackApplied { to: String },
    Recovered { on: String },
    DeviceAvailable { name: String },
    DeviceRemoved { id: String },
    DeviceLost { groups: Vec<GroupId> },
    RoutingDegraded { reason: String },
    DefaultDeviceChanged { id: String },
}

/// Internal plumbing rather than a notice to the user. A removal carries only
/// a raw id, and those that matter arrive as a loss or a fallback as well.
pub fn evt_is_silent(evt: &EngineEvent) -> (r: bool)
    ensures
        r == (evt is DefaultDeviceChanged || evt is DeviceRemoved),
{
    match evt {
        EngineEvent::DefaultDeviceChanged { .. } | EngineEvent::DeviceRemoved { .. } => true,
        _ => false,
    }
}

/// What the user is told of an event; nothing of the silent ones.
pub open spec fn notice_of(evt: EngineEvent) -> Seq<char> {
    match evt {
        EngineEvent::FallbackApplied { to } => "Splitstream — fell back to "@ + to@,
        EngineEvent::Recovered { on } => "Splitstream — recovered on "@ + on@,
        EngineEvent::DeviceAvailable { name } => "Splitstream — device available: "@ + name@,
        EngineEvent::DeviceLost { groups } => "Splitstream — output device lost"@,
        EngineEvent::RoutingDegraded { reason } => "Splitstream — routing degraded: "@ + reason@,
        EngineEvent::DefaultDeviceChanged { id } => Seq::empty(),
        EngineEvent::DeviceRemoved { id } => Seq::empty(),
    }
}

pub fn describe_notice(evt: &EngineEvent) -> (r: String)
    ensures
        r@ == notice_of(*evt),
{
    match evt {
        EngineEvent::FallbackApplied { to } => String::from_str(
            "Splitstream — fell back to ",
        ).concat(to.as_str()),
        EngineEvent::Recovered { on } => String::from_str("Splitstream — recovered on ").concat(
            on.as_str(),
        ),
        EngineEvent::DeviceAvailable { name } => String::from_str(
            "Splitstream — device available: ",
        ).concat(name.as_str()),
        EngineEvent::DeviceLost { .. } => String::from_str("Splitstream — output device lost"),
        EngineEvent::RoutingDegraded { reason } => String::from_str(
            "Splitstream — routing degraded: ",
        ).concat(reason.as_str()),
        EngineEvent::DefaultDeviceChanged { .. } | EngineEvent::DeviceRemoved { .. } => {
            String::new()
        },
    }
}

/// Between the engine's events and those who listen to them.
pub struct EventPump;

impl EventPump {
    /// The event means that routing no longer works as it should.
    pub fn marks_degraded(evt: &EngineEvent) -> (r: bool)
        ensures
            r == evt is RoutingDegraded,
    {
        match evt {
            EngineEvent::RoutingDegraded { .. } => true,
            _ => false,
        }
    }

    /// What the dispatcher must look at again because of the event. It asks
    /// for the state itself, since the event may be stale by then.
    pub fn action_for(evt: &EngineEvent) -> (r: Option<ShellAction>)
        ensures
            r.deep_view() == match *evt {
                EngineEvent::DefaultDeviceChanged { id } => Some(ActionView::DefaultDeviceChanged),
                EngineEvent::DeviceAvailable { name } => Some(ActionView::DevicesChanged),
                EngineEvent::DeviceRemoved { id } => Some(ActionView::DevicesChanged),
                _ => None,
            },
    {
        match evt {
            EngineEvent::DefaultDeviceChanged { .. } => Some(ShellAction::DefaultDeviceChanged),
            EngineEvent::DeviceAvailable { .. } | EngineEvent::DeviceRemoved { .. } => Some(
                ShellAction::DevicesChanged,
            ),
            _ => None,
        }
    }
}

/// A silent event has no notice, and every other event has one.
pub proof fn only_silent_events_have_no_notice(evt: EngineEvent)
    ensures
        notice_of(evt).len() == 0 <==> (evt is DefaultDeviceChanged || evt is DeviceRemoved),
{
    reveal_strlit("Splitstream — fell back to ");
    reveal_strlit("Splitstream — recovered on ");
    reveal_strlit("Splitstream — device available: ");
    reveal_strlit("Splitstream — output device lost");
    reveal_strlit("Splitstream — routing degraded: ");
}

} // verus!
