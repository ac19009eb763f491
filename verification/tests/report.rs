use bootstrap_check::probe::ProbeOutcome;
use bootstrap_check::report::{Report, ReportPolicy};

#[test]
fn new_report_is_empty() {
    let report = Report::new(ReportPolicy::VerboseSuccess);
    assert_eq!(report.policy, ReportPolicy::VerboseSuccess);
    assert!(report.lines.is_empty());
    let report = Report::new(ReportPolicy::SilentFailureWithNotification);
    assert_eq!(report.policy, ReportPolicy::SilentFailureWithNotification);
    assert!(report.lines.is_empty());
}

#[test]
fn which_outcomes_are_reported() {
    let a = ReportPolicy::VerboseSuccess;
    let b = ReportPolicy::SilentFailureWithNotification;
    assert!(a.reports(ProbeOutcome::Connected));
    assert!(!a.reports(ProbeOutcome::TimedOut));
    assert!(!a.reports(ProbeOutcome::HandshakeFailed));
    assert!(!b.reports(ProbeOutcome::Connected));
    assert!(b.reports(ProbeOutcome::TimedOut));
    assert!(!b.reports(ProbeOutcome::HandshakeFailed));
}

#[test]
fn only_the_verbose_policy_announces_progress() {
    assert!(ReportPolicy::VerboseSuccess.announces_progress());
    assert!(!ReportPolicy::SilentFailureWithNotification.announces_progress());
}

#[test]
fn failure_report_collects_timed_out_nodes_in_order() {
    let mut report = Report::new(ReportPolicy::SilentFailureWithNotification);
    report.record(ProbeOutcome::TimedOut, "a 1 K");
    report.record(ProbeOutcome::Connected, "b 2 K");
    report.record(ProbeOutcome::HandshakeFailed, "c 3 K");
    report.record(ProbeOutcome::TimedOut, "d 4 K");
    assert_eq!(report.lines, vec!["a 1 K".to_string(), "d 4 K".to_string()]);
    assert_eq!(report.policy, ReportPolicy::SilentFailureWithNotification);
}

#[test]
fn success_report_collects_connected_nodes_in_order() {
    let mut report = Report::new(ReportPolicy::VerboseSuccess);
    report.record(ProbeOutcome::TimedOut, "a 1 K");
    report.record(ProbeOutcome::Connected, "b 2 K");
    report.record(ProbeOutcome::HandshakeFailed, "c 3 K");
    report.record(ProbeOutcome::Connected, "d 4 K");
    assert_eq!(report.lines, vec!["b 2 K".to_string(), "d 4 K".to_string()]);
    assert_eq!(report.policy, ReportPolicy::VerboseSuccess);
}

#[test]
fn report_keeps_duplicates() {
    let mut report = Report::new(ReportPolicy::SilentFailureWithNotification);
    report.record(ProbeOutcome::TimedOut, "a 1 K");
    report.record(ProbeOutcome::TimedOut, "a 1 K");
    assert_eq!(report.lines, vec!["a 1 K".to_string(), "a 1 K".to_string()]);
}

#[test]
fn report_keeps_the_line_as_it_was() {
    let mut report = Report::new(ReportPolicy::SilentFailureWithNotification);
    report.record(ProbeOutcome::TimedOut, "  a \t1  K  trailing words ");
    assert_eq!(report.lines, vec!["  a \t1  K  trailing words ".to_string()]);
}

#[test]
fn body_joins_the_lines() {
    let mut report = Report::new(ReportPolicy::SilentFailureWithNotification);
    assert_eq!(report.body(), "");
    report.record(ProbeOutcome::TimedOut, "a 1 K");
    assert_eq!(report.body(), "a 1 K");
    report.record(ProbeOutcome::TimedOut, "b 2 K");
    report.record(ProbeOutcome::TimedOut, "c 3 K");
    assert_eq!(report.body(), "a 1 K\nb 2 K\nc 3 K");
}

#[test]
fn only_a_failure_report_with_nodes_needs_notification() {
    let mut failures = Report::new(ReportPolicy::SilentFailureWithNotification);
    assert!(!failures.needs_notification());
    failures.record(ProbeOutcome::Connected, "a 1 K");
    assert!(!failures.needs_notification());
    failures.record(ProbeOutcome::TimedOut, "b 2 K");
    assert!(failures.needs_notification());

    let mut successes = Report::new(ReportPolicy::VerboseSuccess);
    assert!(!successes.needs_notification());
    successes.record(ProbeOutcome::Connected, "a 1 K");
    successes.record(ProbeOutcome::TimedOut, "b 2 K");
    assert!(!successes.needs_notification());
}
