//! The stream of snapshots from Niri, and keeping it going.

use vstd::prelude::*;

use crate::niri::Snapshot;

verus! {

/// An item yielded by the stream.
#[derive(Debug)]
pub enum Item {
    /// The workspace set changed, which means the set of outputs (or which workspaces live on which
    /// outputs) may also have changed. A [`Item::Snapshot`] follows whenever the window state is
    /// ready.
    ///
    /// This is also sent whenever the stream (re)connects to Niri, since anything may have changed
    /// while we were disconnected.
    WorkspacesChanged,
    /// A new snapshot of the window set.
    Snapshot(Snapshot),
}

/// What happens to the taskbar, with notifications as `N`.
#[derive(Debug)]
pub enum Event<N> {
    Notification(N),
    WindowSnapshot(Snapshot),
    /// The set of outputs, or the mapping of the taskbar onto an output, may have changed, and the
    /// output filter should be re-evaluated.
    OutputsChanged,
}

/// Turns an item from the stream into what it means for the taskbar.
pub fn event_of<N>(item: Item) -> (r: Event<N>)
    ensures
        r == match item {
            Item::WorkspacesChanged => Event::<N>::OutputsChanged,
            Item::Snapshot(snapshot) => Event::WindowSnapshot(snapshot),
        },
{
    match item {
        Item::WorkspacesChanged => Event::OutputsChanged,
        Item::Snapshot(snapshot) => Event::WindowSnapshot(snapshot),
    }
}

/// The items for an event from Niri.
pub open spec fn items_of(workspaces_changed: bool, snapshot: Option<Snapshot>) -> Seq<Item> {
    let hint = if workspaces_changed {
        seq![Item::WorkspacesChanged]
    } else {
        Seq::empty()
    };
    match snapshot {
        Some(snapshot) => hint.push(Item::Snapshot(snapshot)),
        None => hint,
    }
}

/// Works out which items to send for an event from Niri, in order, given whether it says that the
/// workspaces changed and the snapshot it leads to, if any. The hint comes before the snapshot, so
/// the receiver can update its view of the outputs before applying the new window set.
pub fn items_for(workspaces_changed: bool, snapshot: Option<Snapshot>) -> (r: Vec<Item>)
    ensures
        r@ == items_of(workspaces_changed, snapshot),
{
    let mut r: Vec<Item> = Vec::new();
    if workspaces_changed {
        r.push(Item::WorkspacesChanged);
    }
    if let Some(snapshot) = snapshot {
        r.push(Item::Snapshot(snapshot));
    }
    r
}

/// The shortest wait before reconnecting, in milliseconds.
pub const MIN_BACKOFF: u64 = 1000;

/// The longest wait before reconnecting, in milliseconds.
pub const MAX_BACKOFF: u64 = 10_000;

/// Why a connection to Niri ended.
#[derive(Debug, Clone, Copy, PartialEq, Eq, Structural)]
pub enum Ended {
    /// There's nobody left to send anything to.
    ReceiverGone,
    /// Something went wrong with Niri.
    Failed,
}

/// What went wrong with reading an event.
#[derive(Debug, Clone, Copy, PartialEq, Eq, Structural)]
pub enum ReadError {
    /// It's not an event that's known.
    InvalidData,
    Other,
}

/// Returns why the connection ends on failing to read an event, unless the event is just skipped.
pub fn read_failed(error: ReadError) -> (r: Option<Ended>)
    ensures
        r == match error {
            ReadError::InvalidData => None,
            ReadError::Other => Some(Ended::Failed),
        },
        r is Some == is_fatal(error),
{
    match error {
        ReadError::InvalidData => None,
        ReadError::Other => Some(Ended::Failed),
    }
}

/// How long to wait before reconnecting to Niri.
#[derive(Debug, Clone, Copy)]
pub struct Backoff {
    wait: u64,
}

/// The wait after the given one.
pub open spec fn longer(wait: int) -> int {
    if wait * 2 < MAX_BACKOFF {
        wait * 2
    } else {
        MAX_BACKOFF as int
    }
}

/// How long to wait before reconnecting, if at all.
pub open spec fn wait_on(ended: Ended, wait: int) -> Option<int> {
    match ended {
        Ended::ReceiverGone => None,
        Ended::Failed => Some(wait),
    }
}

/// The wait there is to come once a connection has ended.
pub open spec fn next_wait(ended: Ended, wait: int) -> int {
    match ended {
        Ended::ReceiverGone => wait,
        Ended::Failed => longer(wait),
    }
}

/// Whether failing to read an event ends the connection.
pub open spec fn is_fatal(error: ReadError) -> bool {
    match error {
        ReadError::InvalidData => false,
        ReadError::Other => true,
    }
}

impl Backoff {
    #[verifier::type_invariant]
    spec fn within_bounds(self) -> bool {
        MIN_BACKOFF <= self.wait <= MAX_BACKOFF
    }

    /// How long the next wait is.
    pub closed spec fn next(self) -> int {
        self.wait as int
    }

    /// Starts from the shortest wait.
    pub fn new() -> (r: Self)
        ensures
            r.next() == MIN_BACKOFF,
    {
        Backoff { wait: MIN_BACKOFF }
    }

    /// Takes in that there's a working connection, so any subsequent failure starts backing off from
    /// scratch.
    pub fn connected(&mut self)
        ensures
            final(self).next() == MIN_BACKOFF,
    {
        self.wait = MIN_BACKOFF;
    }

    /// Takes in that a connection ended, returning how long to wait before reconnecting, or nothing
    /// if it's time to stop.
    pub fn ended(&mut self, ended: Ended) -> (r: Option<u64>)
        ensures
            match ended {
                Ended::ReceiverGone => r is None && final(self).next() == old(self).next(),
                Ended::Failed => {
                    &&& r is Some
                    &&& r->0 == old(self).next()
                    &&& MIN_BACKOFF <= r->0 <= MAX_BACKOFF
                    &&& final(self).next() == longer(old(self).next())
                },
            },
            r is Some == wait_on(ended, old(self).next()) is Some,
            r is Some ==> r->0 == wait_on(ended, old(self).next())->0,
            final(self).next() == next_wait(ended, old(self).next()),
    {
        proof {
            use_type_invariant(&*self);
        }
        match ended {
            Ended::ReceiverGone => None,
            Ended::Failed => {
                let wait: u64 = self.wait;
                self.wait = if wait * 2 < MAX_BACKOFF {
                    wait * 2
                } else {
                    MAX_BACKOFF
                };
                Some(wait)
            },
        }
    }
}

/// The wait after the given number of failures in a row.
pub open spec fn wait_after(failures: nat) -> int
    decreases failures,
{
    if failures == 0 {
        MIN_BACKOFF as int
    } else {
        longer(wait_after((failures - 1) as nat))
    }
}

/// The waits get no shorter for as long as Niri can't be reached, and never exceed the longest one.
pub proof fn law_waits_grow(failures: nat)
    ensures
        MIN_BACKOFF <= wait_after(failures) <= wait_after(failures + 1) <= MAX_BACKOFF,
        failures >= 4 ==> wait_after(failures) == MAX_BACKOFF,
    decreases failures,
{
    reveal_with_fuel(wait_after, 6);
    if failures > 0 {
        law_waits_grow((failures - 1) as nat);
    }
}

/// A change of workspaces is always announced before the snapshot that goes with it.
pub proof fn law_hint_comes_first(snapshot: Snapshot)
    ensures
        items_of(true, Some(snapshot)) == seq![Item::WorkspacesChanged, Item::Snapshot(snapshot)],
{
}

/// A wait is twice the one before it, up to ten seconds, and the first is a second.
pub proof fn law_waits_double(wait: int, failures: nat)
    ensures
        2 * wait <= 10_000 ==> longer(wait) == 2 * wait,
        2 * wait > 10_000 ==> longer(wait) == 10_000,
        wait_after(0) == 1000,
        2 * wait_after(failures) <= 10_000 ==> wait_after(failures + 1) == 2 * wait_after(failures),
        2 * wait_after(failures) > 10_000 ==> wait_after(failures + 1) == 10_000,
{
}

/// A change of workspaces is announced just if there's been one, and a snapshot is sent just if there
/// is one, and nothing else.
pub proof fn law_events_are_passed_on(workspaces_changed: bool, snapshot: Option<Snapshot>)
    ensures
        ({
            let items = items_of(workspaces_changed, snapshot);
            &&& items.contains(Item::WorkspacesChanged) == workspaces_changed
            &&& snapshot is Some ==> items.len() > 0 && items.last() == Item::Snapshot(snapshot->0)
            &&& items.len() == (if workspaces_changed {
                1int
            } else {
                0
            }) + (if snapshot is Some {
                1int
            } else {
                0
            })
        }),
{
    let items = items_of(workspaces_changed, snapshot);
    if workspaces_changed {
        assert(items[0] == Item::WorkspacesChanged);
    }
}

/// A connection that fails is made again after the wait that's next. One with nobody left to send to
/// isn't, and the wait stays what it was.
pub proof fn law_failures_are_waited_out(wait: int)
    ensures
        wait_on(Ended::Failed, wait) == Some(wait),
        wait_on(Ended::ReceiverGone, wait) is None,
        next_wait(Ended::ReceiverGone, wait) == wait,
        2 * wait <= 10_000 ==> next_wait(Ended::Failed, wait) == 2 * wait,
        2 * wait > 10_000 ==> next_wait(Ended::Failed, wait) == 10_000,
        is_fatal(ReadError::Other),
        !is_fatal(ReadError::InvalidData),
{
}

} // verus!
