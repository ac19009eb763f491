//! The connectivity probe of one node.
//!
//! A probe is a small state machine. The caller owns the network session: it
//! sends the handshake, pulls pending events from the session, reads the
//! clock once the session has no more events pending, and lets the session
//! advance by one tick when told to. It hands each of these observations to
//! [`Probe::step`], which answers with what to do next.

use vstd::prelude::*;
use crate::clock::now_timestamp;

verus! {

/// Seconds a probe may poll before the node counts as unreachable.
pub const PROBE_TIMEOUT_SECS: i64 = 20;

/// How a session says it is connected to the network.
#[derive(Clone, Copy, Debug, PartialEq, Eq, Structural)]
pub enum Connection {
    /// Not connected.
    Offline,
    /// Connected through a relay.
    Tcp,
    /// Connected directly.
    Udp,
}

/// What the probe reads of an event that the session reports.
#[derive(Clone, Copy, Debug, PartialEq, Eq, Structural)]
pub enum SessionEvent {
    /// The session's connection to the network changed.
    ConnectionStatus(Connection),
    /// Any other event; probes ignore these.
    Other,
}

/// How a probe ended.
#[derive(Clone, Copy, Debug, PartialEq, Eq, Structural)]
pub enum ProbeOutcome {
    /// The session reported connectivity.
    Connected,
    /// The deadline passed without connectivity.
    TimedOut,
    /// The handshake could not be sent; the node was not polled.
    HandshakeFailed,
}

/// What the caller observed since the last step.
#[derive(Clone, Copy, Debug, PartialEq, Eq, Structural)]
pub enum ProbeEvent {
    /// The handshake was sent.
    HandshakeSent,
    /// Sending the handshake failed.
    HandshakeFailed,
    /// The session reported an event.
    Session(SessionEvent),
    /// The session has no event pending; `now` is the clock read at that moment.
    QueueDrained { now: i64 },
}

/// What the caller does next.
#[derive(Clone, Copy, Debug, PartialEq, Eq, Structural)]
pub enum ProbeAction {
    /// Pull the next pending event from the session, or report that none is pending.
    NextEvent,
    /// Let the session advance by one tick, then pull events again.
    Tick,
    /// Stop: the probe is over.
    Finish(ProbeOutcome),
}

/// The state of one probe: when it began, and how it ended once it has.
#[derive(Clone, Copy, Debug, PartialEq, Eq, Structural)]
pub struct Probe {
    /// Clock reading when the probe began, in seconds.
    pub started_at: i64,
    /// `None` while the probe is polling.
    pub outcome: Option<ProbeOutcome>,
}

/// An event that shows the session connected, over either transport.
pub open spec fn signals_connectivity(event: SessionEvent) -> bool {
    event == SessionEvent::ConnectionStatus(Connection::Tcp)
        || event == SessionEvent::ConnectionStatus(Connection::Udp)
}

/// More than the timeout separates `now` from `started_at`.
pub open spec fn deadline_passed(started_at: i64, now: i64) -> bool {
    started_at + PROBE_TIMEOUT_SECS < now
}

/// The outcome that `event` brings to a probe that is still polling, if any.
pub open spec fn ending(started_at: i64, event: ProbeEvent) -> Option<ProbeOutcome> {
    match event {
        ProbeEvent::HandshakeSent => None,
        ProbeEvent::HandshakeFailed => Some(ProbeOutcome::HandshakeFailed),
        ProbeEvent::Session(e) => if signals_connectivity(e) {
            Some(ProbeOutcome::Connected)
        } else {
            None
        },
        ProbeEvent::QueueDrained { now } => if deadline_passed(started_at, now) {
            Some(ProbeOutcome::TimedOut)
        } else {
            None
        },
    }
}

/// The probe after `event`. A finished probe stays as it is.
pub open spec fn next_state(probe: Probe, event: ProbeEvent) -> Probe {
    if probe.outcome is Some {
        probe
    } else {
        Probe { started_at: probe.started_at, outcome: ending(probe.started_at, event) }
    }
}

/// The answer to `event`, given the probe that results from it.
pub open spec fn next_action(probe: Probe, event: ProbeEvent) -> ProbeAction {
    match next_state(probe, event).outcome {
        Some(outcome) => ProbeAction::Finish(outcome),
        None => match event {
            ProbeEvent::QueueDrained { .. } => ProbeAction::Tick,
            _ => ProbeAction::NextEvent,
        },
    }
}

/// The probe after all of `events`, in order.
pub open spec fn run(probe: Probe, events: Seq<ProbeEvent>) -> Probe
    decreases events.len(),
{
    if events.len() == 0 {
        probe
    } else {
        next_state(run(probe, events.drop_last()), events.last())
    }
}

/// Decides whether `event` shows connectivity.
pub fn is_connectivity_signal(event: SessionEvent) -> (signal: bool)
    ensures
        signal == signals_connectivity(event),
{
    match event {
        SessionEvent::ConnectionStatus(Connection::Tcp) => true,
        SessionEvent::ConnectionStatus(Connection::Udp) => true,
        _ => false,
    }
}

/// Decides whether a probe that began at `started_at` is out of time at `now`.
pub fn is_deadline_passed(started_at: i64, now: i64) -> (passed: bool)
    ensures
        passed == deadline_passed(started_at, now),
{
    started_at <= i64::MAX - PROBE_TIMEOUT_SECS && started_at + PROBE_TIMEOUT_SECS < now
}

impl Probe {
    /// A probe that began at `started_at` and is polling.
    pub fn start(started_at: i64) -> (probe: Probe)
        ensures
            probe == (Probe { started_at, outcome: None }),
    {
        Probe { started_at, outcome: None }
    }

    /// A probe that begins at the present clock reading.
    pub fn start_now() -> (probe: Probe)
        ensures
            probe.outcome is None,
    {
        Probe::start(now_timestamp())
    }

    /// Whether the probe is over.
    pub fn is_finished(&self) -> (finished: bool)
        ensures
            finished == (self.outcome is Some),
    {
        self.outcome.is_some()
    }

    /// Takes one observation in and says what to do next.
    pub fn step(&mut self, event: ProbeEvent) -> (action: ProbeAction)
        ensures
            *final(self) == next_state(*old(self), event),
            action == next_action(*old(self), event),
    {
        match self.outcome {
            Some(outcome) => ProbeAction::Finish(outcome),
            None => {
                match event {
                    ProbeEvent::HandshakeSent => ProbeAction::NextEvent,
                    ProbeEvent::HandshakeFailed => {
                        self.outcome = Some(ProbeOutcome::HandshakeFailed);
                        ProbeAction::Finish(ProbeOutcome::HandshakeFailed)
                    },
                    ProbeEvent::Session(e) => {
                        if is_connectivity_signal(e) {
                            self.outcome = Some(ProbeOutcome::Connected);
                            ProbeAction::Finish(ProbeOutcome::Connected)
                        } else {
                            ProbeAction::NextEvent
                        }
                    },
                    ProbeEvent::QueueDrained { now } => {
                        if is_deadline_passed(self.started_at, now) {
                            self.outcome = Some(ProbeOutcome::TimedOut);
                            ProbeAction::Finish(ProbeOutcome::TimedOut)
                        } else {
                            ProbeAction::Tick
                        }
                    },
                }
            },
        }
    }

    /// Reads the clock and takes in that the session has no event pending.
    /// Whatever the clock says, the step taken is that of a drained queue.
    pub fn queue_drained_now(&mut self) -> (action: ProbeAction)
        ensures
            exists|now: i64|
                {
                    &&& *final(self) == #[trigger] next_state(
                        *old(self),
                        ProbeEvent::QueueDrained { now },
                    )
                    &&& action == next_action(*old(self), ProbeEvent::QueueDrained { now })
                },
    {
        let now = now_timestamp();
        self.step(ProbeEvent::QueueDrained { now })
    }
}

/// A finished probe is not changed by anything that follows.
pub proof fn lemma_finished_probe_stays(probe: Probe, events: Seq<ProbeEvent>)
    requires
        probe.outcome is Some,
    ensures
        run(probe, events) == probe,
    decreases events.len(),
{
    if events.len() > 0 {
        lemma_finished_probe_stays(probe, events.drop_last());
    }
}

/// Running a sequence of events is running its first part and then the rest.
pub proof fn lemma_run_concat(probe: Probe, first: Seq<ProbeEvent>, rest: Seq<ProbeEvent>)
    ensures
        run(probe, first + rest) == run(run(probe, first), rest),
    decreases rest.len(),
{
    if rest.len() == 0 {
        assert(first + rest =~= first);
    } else {
        lemma_run_concat(probe, first, rest.drop_last());
        assert((first + rest).drop_last() =~= first + rest.drop_last());
        assert((first + rest).last() == rest.last());
    }
}

/// The probe keeps polling as long as no event brings an ending.
pub proof fn lemma_uneventful_run_keeps_polling(started_at: i64, events: Seq<ProbeEvent>)
    requires
        forall|i: int| 0 <= i < events.len() ==> ending(started_at, #[trigger] events[i]) is None,
    ensures
        run(Probe { started_at, outcome: None }, events) == (Probe { started_at, outcome: None }),
    decreases events.len(),
{
    if events.len() > 0 {
        let before = events.drop_last();
        assert forall|i: int| 0 <= i < before.len() implies ending(
            started_at,
            #[trigger] before[i],
        ) is None by {
            assert(before[i] == events[i]);
        }
        lemma_uneventful_run_keeps_polling(started_at, before);
    }
}

/// Without a handshake failure and without a connectivity signal, a probe
/// is either still polling or has timed out.
proof fn lemma_silent_run(started_at: i64, events: Seq<ProbeEvent>)
    requires
        forall|i: int|
            0 <= i < events.len() ==> ending(started_at, #[trigger] events[i]) is None || ending(
                started_at,
                events[i],
            ) == Some(ProbeOutcome::TimedOut),
    ensures
        run(Probe { started_at, outcome: None }, events).started_at == started_at,
        run(Probe { started_at, outcome: None }, events).outcome is None || run(
            Probe { started_at, outcome: None },
            events,
        ).outcome == Some(ProbeOutcome::TimedOut),
    decreases events.len(),
{
    if events.len() > 0 {
        let before = events.drop_last();
        assert forall|i: int| 0 <= i < before.len() implies ending(
            started_at,
            #[trigger] before[i],
        ) is None || ending(started_at, before[i]) == Some(ProbeOutcome::TimedOut) by {
            assert(before[i] == events[i]);
        }
        lemma_silent_run(started_at, before);
        assert(events.last() == events[events.len() - 1]);
    }
}

/// A probe that never sees connectivity does not poll forever: the answer
/// to a drained queue that finds the deadline passed is to finish, and the
/// probe ends as timed out, whatever is observed afterwards.
///
/// `k` is the position of such a drained queue in `events`; up to there no
/// handshake failure and no connectivity signal is observed.
pub proof fn lemma_probe_times_out(started_at: i64, events: Seq<ProbeEvent>, k: int)
    requires
        0 <= k < events.len(),
        forall|i: int|
            0 <= i < k ==> #[trigger] events[i] != ProbeEvent::HandshakeFailed && !(
            events[i] matches ProbeEvent::Session(e) && signals_connectivity(e)),
        events[k] matches ProbeEvent::QueueDrained { now } && deadline_passed(started_at, now),
    ensures
        next_action(run(Probe { started_at, outcome: None }, events.take(k)), events[k])
            == ProbeAction::Finish(ProbeOutcome::TimedOut),
        run(Probe { started_at, outcome: None }, events.take(k + 1)).outcome == Some(
            ProbeOutcome::TimedOut,
        ),
        run(Probe { started_at, outcome: None }, events).outcome == Some(ProbeOutcome::TimedOut),
{
    let start = Probe { started_at, outcome: None };
    let before = events.take(k);
    assert forall|i: int| 0 <= i < before.len() implies ending(
        started_at,
        #[trigger] before[i],
    ) is None || ending(started_at, before[i]) == Some(ProbeOutcome::TimedOut) by {
        assert(before[i] == events[i]);
    }
    lemma_silent_run(started_at, before);
    let upto = events.take(k + 1);
    assert(upto.drop_last() =~= before);
    assert(upto.last() == events[k]);
    assert(run(start, upto) == next_state(run(start, before), events[k]));
    lemma_finished_probe_stays(run(start, upto), events.skip(k + 1));
    lemma_run_concat(start, upto, events.skip(k + 1));
    assert(upto + events.skip(k + 1) =~= events);
}

/// A probe stops with the first connectivity signal: it polls up to that
/// event, the answer to it is to finish, and the probe ends as connected,
/// whatever is observed afterwards.
///
/// `k` is the position of the signal in `events`; no earlier event brings an
/// ending.
pub proof fn lemma_probe_stops_at_first_signal(
    started_at: i64,
    events: Seq<ProbeEvent>,
    k: int,
)
    requires
        0 <= k < events.len(),
        forall|i: int| 0 <= i < k ==> ending(started_at, #[trigger] events[i]) is None,
        events[k] matches ProbeEvent::Session(e) && signals_connectivity(e),
    ensures
        forall|j: int|
            0 <= j <= k ==> (#[trigger] run(
                Probe { started_at, outcome: None },
                events.take(j),
            )).outcome is None,
        next_action(run(Probe { started_at, outcome: None }, events.take(k)), events[k])
            == ProbeAction::Finish(ProbeOutcome::Connected),
        run(Probe { started_at, outcome: None }, events.take(k + 1)).outcome == Some(
            ProbeOutcome::Connected,
        ),
        run(Probe { started_at, outcome: None }, events).outcome == Some(ProbeOutcome::Connected),
{
    let start = Probe { started_at, outcome: None };
    assert forall|j: int| 0 <= j <= k implies (#[trigger] run(start, events.take(j))).outcome
        is None by {
        let part = events.take(j);
        assert forall|i: int| 0 <= i < part.len() implies ending(
            started_at,
            #[trigger] part[i],
        ) is None by {
            assert(part[i] == events[i]);
        }
        lemma_uneventful_run_keeps_polling(started_at, part);
    }
    let before = events.take(k);
    assert(run(start, before).outcome is None);
    assert forall|i: int| 0 <= i < before.len() implies ending(
        started_at,
        #[trigger] before[i],
    ) is None by {
        assert(before[i] == events[i]);
    }
    lemma_uneventful_run_keeps_polling(started_at, before);
    let upto = events.take(k + 1);
    assert(upto.drop_last() =~= before);
    assert(upto.last() == events[k]);
    assert(run(start, upto) == next_state(run(start, before), events[k]));
    lemma_finished_probe_stays(run(start, upto), events.skip(k + 1));
    lemma_run_concat(start, upto, events.skip(k + 1));
    assert(upto + events.skip(k + 1) =~= events);
}

} // verus!
