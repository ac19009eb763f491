//! The report of a run: the node-list lines of the nodes worth reporting.

use vstd::prelude::*;
use crate::probe::{
    deadline_passed, lemma_probe_stops_at_first_signal, lemma_probe_times_out, run,
    signals_connectivity, ending, Probe, ProbeEvent, ProbeOutcome,
};
use crate::text::{join_lines, joined};

verus! {

/// Which nodes a run reports, and how loudly.
#[derive(Clone, Copy, Debug, PartialEq, Eq, Structural)]
pub enum ReportPolicy {
    /// Report every node that connected, and say how each probe went as it
    /// ends.
    VerboseSuccess,
    /// Report only the nodes that timed out, say nothing meanwhile, and send
    /// the report by mail if it holds any node.
    SilentFailureWithNotification,
}

/// The lines collected so far, in the order in which the probes ended.
#[derive(Clone, Debug, PartialEq, Eq)]
pub struct Report {
    pub policy: ReportPolicy,
    /// One node-list line per reported node. A line may occur twice.
    pub lines: Vec<String>,
}

/// Whether a probe that ended with `outcome` puts its node on the report.
/// A node whose handshake failed is on no report.
pub open spec fn is_reported(policy: ReportPolicy, outcome: ProbeOutcome) -> bool {
    match policy {
        ReportPolicy::VerboseSuccess => outcome == ProbeOutcome::Connected,
        ReportPolicy::SilentFailureWithNotification => outcome == ProbeOutcome::TimedOut,
    }
}

/// Whether the report calls for a notification: only a report of failures
/// does, and only if it holds a node.
pub open spec fn calls_for_notification(policy: ReportPolicy, lines: Seq<Seq<char>>) -> bool {
    policy == ReportPolicy::SilentFailureWithNotification && lines.len() >= 1
}

impl ReportPolicy {
    /// Decides whether a probe that ended with `outcome` is reported.
    pub fn reports(self, outcome: ProbeOutcome) -> (reported: bool)
        ensures
            reported == is_reported(self, outcome),
    {
        match self {
            ReportPolicy::VerboseSuccess => match outcome {
                ProbeOutcome::Connected => true,
                _ => false,
            },
            ReportPolicy::SilentFailureWithNotification => match outcome {
                ProbeOutcome::TimedOut => true,
                _ => false,
            },
        }
    }

    /// Whether the outcome of each probe is announced as it ends.
    pub fn announces_progress(self) -> (announces: bool)
        ensures
            announces == (self == ReportPolicy::VerboseSuccess),
    {
        match self {
            ReportPolicy::VerboseSuccess => true,
            ReportPolicy::SilentFailureWithNotification => false,
        }
    }
}

impl Report {
    /// An empty report.
    pub fn new(policy: ReportPolicy) -> (report: Report)
        ensures
            report.policy == policy,
            report.lines@.len() == 0,
    {
        Report { policy, lines: Vec::new() }
    }

    /// Takes in how the probe of the node on `line` ended: the line goes to
    /// the end of the report if the policy reports that outcome, and the
    /// report stays as it is otherwise.
    pub fn record(&mut self, outcome: ProbeOutcome, line: &str)
        ensures
            final(self).policy == old(self).policy,
            final(self).lines.deep_view() == if is_reported(old(self).policy, outcome) {
                old(self).lines.deep_view().push(line@)
            } else {
                old(self).lines.deep_view()
            },
    {
        if self.policy.reports(outcome) {
            let ghost before = self.lines.deep_view();
            self.lines.push(line.to_owned());
            assert(self.lines.deep_view() =~= before.push(line@));
        }
    }

    /// The report as one text: its lines, a line feed between each two.
    pub fn body(&self) -> (text: String)
        ensures
            text@ == joined(self.lines.deep_view()),
    {
        join_lines(&self.lines)
    }

    /// Decides whether the report is to be sent.
    pub fn needs_notification(&self) -> (needed: bool)
        ensures
            needed == calls_for_notification(self.policy, self.lines.deep_view()),
    {
        match self.policy {
            ReportPolicy::VerboseSuccess => false,
            ReportPolicy::SilentFailureWithNotification => self.lines.len() >= 1,
        }
    }
}

/// A node that showed no connectivity before a drained queue found the
/// deadline passed is on the report of failures, and not on the report of
/// successes.
pub proof fn lemma_unreachable_node_is_reported(
    started_at: i64,
    events: Seq<ProbeEvent>,
    k: int,
)
    requires
        0 <= k < events.len(),
        forall|i: int|
            0 <= i < k ==> #[trigger] events[i] != ProbeEvent::HandshakeFailed && !(
            events[i] matches ProbeEvent::Session(e) && signals_connectivity(e)),
        events[k] matches ProbeEvent::QueueDrained { now } && deadline_passed(started_at, now),
    ensures
        run(Probe { started_at, outcome: None }, events).outcome matches Some(outcome)
            && is_reported(ReportPolicy::SilentFailureWithNotification, outcome) && !is_reported(
            ReportPolicy::VerboseSuccess,
            outcome,
        ),
{
    lemma_probe_times_out(started_at, events, k);
}

/// A node whose probe met a connectivity signal before anything else ended
/// it is on the report of successes, and not on the report of failures.
pub proof fn lemma_reachable_node_is_reported(started_at: i64, events: Seq<ProbeEvent>, k: int)
    requires
        0 <= k < events.len(),
        forall|i: int| 0 <= i < k ==> ending(started_at, #[trigger] events[i]) is None,
        events[k] matches ProbeEvent::Session(e) && signals_connectivity(e),
    ensures
        run(Probe { started_at, outcome: None }, events).outcome matches Some(outcome)
            && is_reported(ReportPolicy::VerboseSuccess, outcome) && !is_reported(
            ReportPolicy::SilentFailureWithNotification,
            outcome,
        ),
{
    lemma_probe_stops_at_first_signal(started_at, events, k);
}

} // verus!
