//! The process: one instance per user, and an orderly end.
use vstd::prelude::*;

verus! {

/// The name under which the instance lock, the wake-up socket and the
/// autostart entry are known.
pub const APP_ID: &'static str = "Splitstream";

/// Why the shell could not do its part.
#[derive(Debug, Clone, PartialEq, Eq)]
pub enum ShellError {
    Instance(String),
    Autostart(String),
    Hotkey(String),
}

/// A second launch asks the first to show its window.
#[derive(Debug, Clone, Copy, PartialEq, Eq, Structural)]
pub struct SurfaceSignal;

/// What a launch is.
#[derive(Debug, Clone, Copy, PartialEq, Eq, Structural)]
pub enum Launch {
    /// The uninstaller's: it takes the autostart entry back and ends.
    Cleanup,
    /// The first of this user: it listens for others and runs.
    Primary,
    /// Another one: it wakes the first and ends.
    Secondary,
}

/// What a launch with these arguments is, given whether it is alone.
pub open spec fn launched(args: Seq<Seq<char>>, alone: bool) -> Launch {
    if args.contains("--uninstall-cleanup"@) {
        Launch::Cleanup
    } else if alone {
        Launch::Primary
    } else {
        Launch::Secondary
    }
}

/// Whether the uninstaller asked for this launch.
pub fn is_cleanup(args: &Vec<String>) -> (r: bool)
    ensures
        r == (launched(args.deep_view(), true) == Launch::Cleanup),
{
    let mut i: usize = 0;
    while i < args.len()
        invariant
            i <= args@.len(),
            forall|j: int| 0 <= j < i ==> args.deep_view()[j] != "--uninstall-cleanup"@,
        decreases args@.len() - i,
    {
        if crate::text::same_text(args[i].as_str(), "--uninstall-cleanup") {
            assert(args.deep_view()[i as int] == "--uninstall-cleanup"@);
            return true;
        }
        i = i + 1;
    }
    false
}

/// What this launch is, given whether it is alone.
pub fn launch(args: &Vec<String>, alone: bool) -> (r: Launch)
    ensures
        r == launched(args.deep_view(), alone),
{
    if is_cleanup(args) {
        Launch::Cleanup
    } else if alone {
        Launch::Primary
    } else {
        Launch::Secondary
    }
}

/// The name of the socket on which an application waits for other launches.
pub fn socket_name(app_id: &str) -> (r: String)
    ensures
        r@ == app_id@ + "-surface.sock"@,
{
    app_id.to_owned().concat("-surface.sock")
}

/// What a fatal error at startup says.
pub fn fatal_text(context: &str, detail: &str) -> (r: String)
    ensures
        r@ == context@ + ": "@ + detail@,
{
    context.to_owned().concat(": ").concat(detail)
}

/// What runs while the application does.
#[derive(Debug, Clone, Copy, PartialEq, Eq, Structural)]
pub enum Part {
    Watcher,
    /// The sink as the default output, which is handed back.
    DefaultOutput,
    Tray,
    Hotkeys,
    VolumeBind,
    Routing,
    Engine,
    EventPump,
}

/// The order in which the parts end: the default output goes back before
/// anything is torn down that could fail, and the pump ends after the engine,
/// since it runs until the engine's last event was sent.
pub open spec fn ending() -> Seq<Part> {
    seq![
        Part::Watcher,
        Part::DefaultOutput,
        Part::Tray,
        Part::Hotkeys,
        Part::VolumeBind,
        Part::Routing,
        Part::Engine,
        Part::EventPump,
    ]
}

pub fn shutdown_order() -> (r: Vec<Part>)
    ensures
        r@ == ending(),
{
    let mut parts: Vec<Part> = Vec::new();
    parts.push(Part::Watcher);
    parts.push(Part::DefaultOutput);
    parts.push(Part::Tray);
    parts.push(Part::Hotkeys);
    parts.push(Part::VolumeBind);
    parts.push(Part::Routing);
    parts.push(Part::Engine);
    parts.push(Part::EventPump);
    assert(parts@ =~= ending());
    parts
}

/// Whoever sends events ends before the pump that waits for them.
pub proof fn the_pump_ends_last(part: Part, at: int)
    requires
        0 <= at < ending().len(),
        ending()[at] == part,
        part != Part::EventPump,
    ensures
        at < ending().len() - 1,
        ending()[ending().len() - 1] == Part::EventPump,
{
}

/// The default output is handed back while everything that routes and plays is
/// still there.
pub proof fn the_default_output_goes_back_early(at: int)
    requires
        0 <= at < ending().len(),
        ending()[at] != Part::Watcher,
        ending()[at] != Part::DefaultOutput,
    ensures
        ending()[1] == Part::DefaultOutput,
        1 < at,
{
}

} // verus!
