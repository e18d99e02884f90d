//! When a watched configuration file is read again.
//!
//! One save can come as several events. They are taken together: the file is
//! read once, as soon as there was quiet for a while.
use crate::text::same_text;
use vstd::prelude::*;

verus! {

/// How long there must be quiet before the file is read.
pub const DEBOUNCE_MS: u64 = 100;

/// How long to wait for an event while nothing is to be read.
pub const IDLE_POLL_MS: u64 = 3_600_000;

/// What was heard of the directory.
#[derive(Debug)]
pub enum WatchEvent {
    /// Files of these names were touched.
    Touched(Vec<String>),
    /// An event could not be read.
    Unreadable,
    /// Nothing came in time.
    Quiet,
    /// Nobody watches any more.
    Closed,
}

/// What a [`WatchEvent`] says.
pub enum WatchView {
    Touched(Seq<Seq<char>>),
    Unreadable,
    Quiet,
    Closed,
}

impl DeepView for WatchEvent {
    type V = WatchView;

    open spec fn deep_view(&self) -> WatchView {
        match self {
            WatchEvent::Touched(names) => WatchView::Touched(names.deep_view()),
            WatchEvent::Unreadable => WatchView::Unreadable,
            WatchEvent::Quiet => WatchView::Quiet,
            WatchEvent::Closed => WatchView::Closed,
        }
    }
}

/// What to do next.
#[derive(Debug, Clone, Copy, PartialEq, Eq, Structural)]
pub enum WatchAction {
    Wait,
    /// Read the file. One that cannot be read or used changes nothing.
    Reload,
    Stop,
}

/// The wait for quiet.
#[derive(Debug)]
pub struct Debounce {
    /// The name of the watched file.
    pub file_name: String,
    /// The file was touched since it was last read.
    pub pending: bool,
}

/// Whether the file is to be read, and what to do, after an event.
pub open spec fn heard(file_name: Seq<char>, pending: bool, event: WatchView) -> (bool, WatchAction) {
    match event {
        WatchView::Touched(names) => (pending || names.contains(file_name), WatchAction::Wait),
        WatchView::Unreadable => (pending, WatchAction::Wait),
        WatchView::Quiet => (
            false,
            if pending {
                WatchAction::Reload
            } else {
                WatchAction::Wait
            },
        ),
        WatchView::Closed => (pending, WatchAction::Stop),
    }
}

/// Whether the file is to be read after the first `n` events.
pub open spec fn pending_after(
    file_name: Seq<char>,
    pending: bool,
    events: Seq<WatchView>,
    n: int,
) -> bool
    decreases n,
{
    if n <= 0 {
        pending
    } else {
        heard(file_name, pending_after(file_name, pending, events, n - 1), events[n - 1]).0
    }
}

impl Debounce {
    pub fn new(file_name: String) -> (r: Debounce)
        ensures
            r.file_name@ == file_name@,
            !r.pending,
    {
        Debounce { file_name, pending: false }
    }

    /// How long to wait for the next event.
    pub fn timeout_ms(&self) -> (r: u64)
        ensures
            r == if self.pending {
                DEBOUNCE_MS
            } else {
                IDLE_POLL_MS
            },
    {
        if self.pending {
            DEBOUNCE_MS
        } else {
            IDLE_POLL_MS
        }
    }

    /// Takes one event in.
    pub fn step(&mut self, event: &WatchEvent) -> (r: WatchAction)
        ensures
            final(self).file_name@ == old(self).file_name@,
            (final(self).pending, r) == heard(
                old(self).file_name@,
                old(self).pending,
                event.deep_view(),
            ),
    {
        match event {
            WatchEvent::Touched(names) => {
                let mut i: usize = 0;
                let mut touched = false;
                while i < names.len()
                    invariant
                        i <= names@.len(),
                        *self == *old(self),
                        touched <==> exists|j: int|
                            0 <= j < i && #[trigger] names.deep_view()[j] == self.file_name@,
                    decreases names@.len() - i,
                {
                    assert(names.deep_view()[i as int] == names@[i as int]@);
                    if same_text(names[i].as_str(), self.file_name.as_str()) {
                        touched = true;
                    }
                    i = i + 1;
                }
                assert(touched == names.deep_view().contains(self.file_name@));
                if touched {
                    self.pending = true;
                }
                WatchAction::Wait
            },
            WatchEvent::Unreadable => WatchAction::Wait,
            WatchEvent::Quiet => {
                if self.pending {
                    self.pending = false;
                    WatchAction::Reload
                } else {
                    WatchAction::Wait
                }
            },
            WatchEvent::Closed => WatchAction::Stop,
        }
    }
}

/// However many events a save comes as, the file is read once: at the first
/// quiet after them, and not again before it is touched again.
pub proof fn one_burst_is_read_once(
    file_name: Seq<char>,
    pending: bool,
    events: Seq<WatchView>,
    n: int,
    at: int,
)
    requires
        0 <= at < n <= events.len(),
        events[at] matches WatchView::Touched(names) && names.contains(file_name),
        forall|i: int| 0 <= i < n ==> (#[trigger] events[i] is Touched || events[i] is Unreadable),
    ensures
        ({
            let ready = pending_after(file_name, pending, events, n);
            let first = heard(file_name, ready, WatchView::Quiet);
            let second = heard(file_name, first.0, WatchView::Quiet);
            first.1 == WatchAction::Reload && second.1 == WatchAction::Wait
        }),
        forall|i: int|
            0 <= i < n ==> heard(
                file_name,
                pending_after(file_name, pending, events, i),
                #[trigger] events[i],
            ).1 == WatchAction::Wait,
    decreases n,
{
    if at < n - 1 {
        one_burst_is_read_once(file_name, pending, events, n - 1, at);
    }
}

} // verus!
