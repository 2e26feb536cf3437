//! The loop of a snapshot emitter, as a state machine.
//!
//! An emitter fetches a snapshot, offers it to a channel of bounded depth
//! and waits for the next tick of its interval, over and over, until it is
//! told to shut down. The machine decides; its driver fetches, sends and
//! waits, and reports what happened.

use vstd::prelude::*;

verus! {

/// The fixed numbers of an emitter.
#[derive(Clone, Copy, Debug, PartialEq, Eq, Structural)]
pub struct EmitterTimings {
    /// Time from one fetch to the next, in milliseconds.
    pub fetch_interval_millis: u64,
    /// How long a fetch may take, in milliseconds.
    pub fetch_timeout_millis: u64,
    /// How long a send may wait for room in the channel, in milliseconds.
    pub send_timeout_millis: u64,
    /// How many snapshots the channel holds.
    pub channel_size: usize,
}

/// Where the loop stands.
#[derive(Clone, Copy, Debug, PartialEq, Eq, Structural)]
pub enum EmitterState {
    /// A snapshot is to be fetched.
    Fetching,
    /// A fetched snapshot is to be sent. `saturated` says that the channel
    /// had no room when the fetch came back.
    Sending { saturated: bool },
    /// The next tick is awaited.
    Waiting,
    /// The loop has ended and the channel is to be closed.
    Stopped,
}

/// What the driver reports.
#[derive(Clone, Copy, Debug, PartialEq, Eq, Structural)]
pub enum EmitterEvent {
    /// The fetch gave a snapshot; the channel has room for
    /// `channel_capacity` more.
    Fetched { channel_capacity: usize },
    /// The fetch failed or timed out.
    FetchFailed,
    /// The snapshot is in the channel.
    Sent,
    /// The snapshot found no room within the send timeout, or nobody
    /// listens any more. It is dropped.
    SendFailed,
    /// The interval has ticked.
    Ticked,
    /// The shutdown signal has fired.
    Shutdown,
}

/// What the driver is to do next.
#[derive(Clone, Copy, Debug, PartialEq, Eq, Structural)]
pub enum EmitterAction {
    /// Fetch a snapshot within the timeout.
    Fetch { timeout_millis: u64 },
    /// Offer the snapshot to the channel for at most the timeout, and watch
    /// for shutdown meanwhile.
    Send { timeout_millis: u64 },
    /// Await the next tick of the interval, and watch for shutdown
    /// meanwhile.
    AwaitTick { interval_millis: u64 },
    /// Close the channel and end.
    Stop,
}

/// What is worth a line in the log.
#[derive(Clone, Copy, Debug, PartialEq, Eq, Structural)]
pub enum EmitterNotice {
    /// Warning: the channel is full, the receiver may be too slow.
    ChannelSaturated,
    /// Error: the fetch failed.
    FetchFailed,
    /// Error: the snapshot could not be sent and was dropped.
    SnapshotDropped,
    /// Information: shutting down.
    ShuttingDown,
}

/// The state that follows `state` on `event`. Shutdown ends the loop from
/// anywhere, and the end is final. An event that the state does not wait
/// for changes nothing.
pub open spec fn next_state(state: EmitterState, event: EmitterEvent) -> EmitterState {
    match (state, event) {
        (EmitterState::Stopped, _) => EmitterState::Stopped,
        (_, EmitterEvent::Shutdown) => EmitterState::Stopped,
        (EmitterState::Fetching, EmitterEvent::Fetched { channel_capacity }) => EmitterState::Sending {
            saturated: channel_capacity == 0,
        },
        (EmitterState::Fetching, EmitterEvent::FetchFailed) => EmitterState::Waiting,
        (EmitterState::Sending { .. }, EmitterEvent::Sent) => EmitterState::Waiting,
        (EmitterState::Sending { .. }, EmitterEvent::SendFailed) => EmitterState::Waiting,
        (EmitterState::Waiting, EmitterEvent::Ticked) => EmitterState::Fetching,
        _ => state,
    }
}

/// What the step from `state` on `event` leaves for the log.
pub open spec fn notice_of(state: EmitterState, event: EmitterEvent) -> Option<EmitterNotice> {
    match (state, event) {
        (EmitterState::Stopped, _) => None,
        (_, EmitterEvent::Shutdown) => Some(EmitterNotice::ShuttingDown),
        (EmitterState::Fetching, EmitterEvent::Fetched { channel_capacity }) => if channel_capacity
            == 0 {
            Some(EmitterNotice::ChannelSaturated)
        } else {
            None
        },
        (EmitterState::Fetching, EmitterEvent::FetchFailed) => Some(EmitterNotice::FetchFailed),
        (EmitterState::Sending { .. }, EmitterEvent::SendFailed) => Some(
            EmitterNotice::SnapshotDropped,
        ),
        _ => None,
    }
}

/// What the driver is to do in `state`.
pub open spec fn action_in(state: EmitterState, timings: EmitterTimings) -> EmitterAction {
    match state {
        EmitterState::Fetching => EmitterAction::Fetch { timeout_millis: timings.fetch_timeout_millis },
        EmitterState::Sending { .. } => EmitterAction::Send {
            timeout_millis: timings.send_timeout_millis,
        },
        EmitterState::Waiting => EmitterAction::AwaitTick {
            interval_millis: timings.fetch_interval_millis,
        },
        EmitterState::Stopped => EmitterAction::Stop,
    }
}

/// The loop of one emitter.
#[derive(Clone, Copy, Debug, PartialEq, Eq, Structural)]
pub struct Emitter {
    pub timings: EmitterTimings,
    pub state: EmitterState,
}

impl Emitter {
    /// An emitter about to make its first fetch.
    pub fn new(timings: EmitterTimings) -> (e: Self)
        ensures
            e.timings == timings,
            e.state == EmitterState::Fetching,
    {
        Emitter { timings, state: EmitterState::Fetching }
    }

    /// What the driver is to do now.
    pub fn action(&self) -> (a: EmitterAction)
        ensures
            a == action_in(self.state, self.timings),
    {
        match self.state {
            EmitterState::Fetching => EmitterAction::Fetch {
                timeout_millis: self.timings.fetch_timeout_millis,
            },
            EmitterState::Sending { .. } => EmitterAction::Send {
                timeout_millis: self.timings.send_timeout_millis,
            },
            EmitterState::Waiting => EmitterAction::AwaitTick {
                interval_millis: self.timings.fetch_interval_millis,
            },
            EmitterState::Stopped => EmitterAction::Stop,
        }
    }

    /// Takes in what the driver reports, and says what is worth logging.
    pub fn on_event(&mut self, event: EmitterEvent) -> (notice: Option<EmitterNotice>)
        ensures
            final(self).timings == old(self).timings,
            final(self).state == next_state(old(self).state, event),
            notice == notice_of(old(self).state, event),
    {
        let (state, notice) = match (self.state, event) {
            (EmitterState::Stopped, _) => (EmitterState::Stopped, None),
            (_, EmitterEvent::Shutdown) => (EmitterState::Stopped, Some(EmitterNotice::ShuttingDown)),
            (EmitterState::Fetching, EmitterEvent::Fetched { channel_capacity }) => {
                if channel_capacity == 0 {
                    (
                        EmitterState::Sending { saturated: true },
                        Some(EmitterNotice::ChannelSaturated),
                    )
                } else {
                    (EmitterState::Sending { saturated: false }, None)
                }
            },
            (EmitterState::Fetching, EmitterEvent::FetchFailed) => (
                EmitterState::Waiting,
                Some(EmitterNotice::FetchFailed),
            ),
            (EmitterState::Sending { .. }, EmitterEvent::Sent) => (EmitterState::Waiting, None),
            (EmitterState::Sending { .. }, EmitterEvent::SendFailed) => (
                EmitterState::Waiting,
                Some(EmitterNotice::SnapshotDropped),
            ),
            (EmitterState::Waiting, EmitterEvent::Ticked) => (EmitterState::Fetching, None),
            (state, _) => (state, None),
        };
        self.state = state;
        notice
    }

    /// Whether the loop has ended.
    pub fn is_stopped(&self) -> (b: bool)
        ensures
            b == (self.state == EmitterState::Stopped),
    {
        match self.state {
            EmitterState::Stopped => true,
            _ => false,
        }
    }
}

/// Shutdown ends the loop wherever it stands, and a loop that has ended
/// stays so whatever is reported to it.
pub proof fn lemma_shutdown_is_final(state: EmitterState, event: EmitterEvent)
    ensures
        next_state(state, EmitterEvent::Shutdown) == EmitterState::Stopped,
        next_state(EmitterState::Stopped, event) == EmitterState::Stopped,
{
}

/// A snapshot that could not be sent does not stall the loop: the emitter
/// notes the loss, waits for its next tick and fetches again.
pub proof fn lemma_failed_send_goes_on(saturated: bool)
    ensures
        next_state(EmitterState::Sending { saturated }, EmitterEvent::SendFailed)
            == EmitterState::Waiting,
        notice_of(EmitterState::Sending { saturated }, EmitterEvent::SendFailed) == Some(
            EmitterNotice::SnapshotDropped,
        ),
        next_state(EmitterState::Waiting, EmitterEvent::Ticked) == EmitterState::Fetching,
{
}

} // verus!
