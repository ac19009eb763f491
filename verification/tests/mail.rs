use bootstrap_check::mail::{
    compose_mail, get_credentials, plan_notification, Credentials, Mail, Notification,
    SUBMISSION_PORT,
};
use bootstrap_check::node::{leading_nodes, PublicKey};
use bootstrap_check::probe::ProbeOutcome;
use bootstrap_check::report::{Report, ReportPolicy};
use bootstrap_check::text::vec_strings;

const ACCOUNT: &str = "alice\nsecret\nexample.com\nbob@example.com\n";

fn alice() -> Credentials {
    Credentials {
        login: "alice".to_string(),
        passwd: "secret".to_string(),
        domain: "example.com".to_string(),
        email: "bob@example.com".to_string(),
    }
}

fn failures(lines: &[&str]) -> Report {
    let mut report = Report::new(ReportPolicy::SilentFailureWithNotification);
    for line in lines.iter() {
        report.record(ProbeOutcome::TimedOut, line);
    }
    report
}

#[test]
fn submission_port() {
    assert_eq!(SUBMISSION_PORT, 465);
}

#[test]
fn credentials_of_four_lines() {
    assert_eq!(get_credentials(Some(ACCOUNT)), Some(alice()));
    assert_eq!(
        get_credentials(Some("alice\nsecret\nexample.com\nbob@example.com")),
        Some(alice())
    );
    assert_eq!(
        get_credentials(Some("alice\r\nsecret\r\nexample.com\r\nbob@example.com\r\n")),
        Some(alice())
    );
}

#[test]
fn credentials_are_taken_as_they_stand() {
    assert_eq!(
        get_credentials(Some(" a b \n\n=\n#")),
        Some(Credentials {
            login: " a b ".to_string(),
            passwd: "".to_string(),
            domain: "=".to_string(),
            email: "#".to_string(),
        })
    );
}

#[test]
fn no_credentials_in_three_or_five_lines() {
    assert_eq!(get_credentials(Some("alice\nsecret\nexample.com\n")), None);
    assert_eq!(get_credentials(Some("alice\nsecret\nexample.com\nbob@example.com\nmore\n")), None);
    assert_eq!(get_credentials(Some("alice\nsecret\nexample.com\nbob@example.com\n\n")), None);
}

#[test]
fn no_credentials_in_an_empty_or_missing_file() {
    assert_eq!(get_credentials(Some("")), None);
    assert_eq!(get_credentials(None), None);
}

#[test]
fn mail_from_login_at_domain_to_recipient() {
    let mail = compose_mail(alice(), "a 1 K\nb 2 K".to_string());
    assert_eq!(
        mail,
        Mail {
            from: "alice@example.com".to_string(),
            to: "bob@example.com".to_string(),
            subject: "Failed nodes".to_string(),
            body: "a 1 K\nb 2 K".to_string(),
            server: "example.com".to_string(),
            port: 465,
            hello_name: "example.com".to_string(),
            login: "alice".to_string(),
            passwd: "secret".to_string(),
        }
    );
}

#[test]
fn notifier_builds_the_message_from_the_account_file() {
    let report = failures(&["1.2.3.4 33445 AA", "5.6.7.8 33445 BB"]);
    match plan_notification(&report, Some(ACCOUNT)) {
        Notification::Send(mail) => {
            assert_eq!(mail.from, "alice@example.com");
            assert_eq!(mail.to, "bob@example.com");
            assert_eq!(mail.subject, "Failed nodes");
            assert_eq!(mail.body, "1.2.3.4 33445 AA\n5.6.7.8 33445 BB");
            assert_eq!(mail.server, "example.com");
            assert_eq!(mail.port, 465);
            assert_eq!(mail.hello_name, "example.com");
            assert_eq!(mail.login, "alice");
            assert_eq!(mail.passwd, "secret");
        }
        other => panic!("expected a mail, got {:?}", other),
    }
}

#[test]
fn notifier_is_skipped_with_three_or_five_lines() {
    let report = failures(&["1.2.3.4 33445 AA"]);
    assert_eq!(
        plan_notification(&report, Some("alice\nsecret\nexample.com\n")),
        Notification::Skipped
    );
    assert_eq!(
        plan_notification(&report, Some("alice\nsecret\nexample.com\nbob@example.com\nextra\n")),
        Notification::Skipped
    );
}

#[test]
fn notifier_is_skipped_without_an_account_file() {
    let report = failures(&["1.2.3.4 33445 AA"]);
    assert_eq!(plan_notification(&report, None), Notification::Skipped);
    assert_eq!(plan_notification(&report, Some("")), Notification::Skipped);
}

#[test]
fn empty_report_is_not_sent() {
    let report = Report::new(ReportPolicy::SilentFailureWithNotification);
    assert_eq!(plan_notification(&report, Some(ACCOUNT)), Notification::NotNeeded);
    assert_eq!(plan_notification(&report, None), Notification::NotNeeded);
}

#[test]
fn success_report_is_not_sent() {
    let mut report = Report::new(ReportPolicy::VerboseSuccess);
    report.record(ProbeOutcome::Connected, "1.2.3.4 33445 AA");
    assert_eq!(report.lines.len(), 1);
    assert_eq!(plan_notification(&report, Some(ACCOUNT)), Notification::NotNeeded);
}

#[test]
fn unparsable_port_ends_the_run_with_nothing_sent() {
    // The node list is one line whose port is no number.
    let lines = vec_strings("1.2.3.4 abc 951C88B7E75C867418ACDB5D273821372BB5BD652740BCDF623A4FA293E75D2F\n");
    assert_eq!(lines.len(), 1);
    let keys = vec![Some(PublicKey { raw: [0x95; 32] })];
    let nodes = leading_nodes(&lines, &keys);
    assert!(nodes.is_empty());
    let report = Report::new(ReportPolicy::SilentFailureWithNotification);
    assert_eq!(plan_notification(&report, Some(ACCOUNT)), Notification::NotNeeded);
}
