//! The notification mail: credentials, message and when it is sent.

use vstd::prelude::*;
use vstd::string::StringExecFns;
use crate::report::{calls_for_notification, Report, ReportPolicy};
use crate::text::{
    has_no_line_feed, joined, lemma_line_feed_missing, lemma_lines_after_line, lines_of,
    vec_strings, without_carriage_return,
};

verus! {

/// Port of the mail submission service that takes the report.
pub const SUBMISSION_PORT: u16 = 465;

/// What the mail account file holds.
#[derive(Clone, Debug, PartialEq, Eq)]
pub struct Credentials {
    pub login: String,
    pub passwd: String,
    pub domain: String,
    /// Address that receives the report.
    pub email: String,
}

/// Credentials as plain values.
pub struct CredentialsView {
    pub login: Seq<char>,
    pub passwd: Seq<char>,
    pub domain: Seq<char>,
    pub email: Seq<char>,
}

impl View for Credentials {
    type V = CredentialsView;

    open spec fn view(&self) -> CredentialsView {
        CredentialsView {
            login: self.login@,
            passwd: self.passwd@,
            domain: self.domain@,
            email: self.email@,
        }
    }
}

/// A message and the session that is to carry it.
#[derive(Clone, Debug, PartialEq, Eq)]
pub struct Mail {
    /// Address of the sender.
    pub from: String,
    /// Address of the recipient.
    pub to: String,
    pub subject: String,
    pub body: String,
    /// Host of the submission service.
    pub server: String,
    /// Port of the submission service.
    pub port: u16,
    /// Name by which the client greets the service.
    pub hello_name: String,
    /// Name to authenticate with.
    pub login: String,
    /// Password to authenticate with.
    pub passwd: String,
}

/// A mail as plain values.
pub struct MailView {
    pub from: Seq<char>,
    pub to: Seq<char>,
    pub subject: Seq<char>,
    pub body: Seq<char>,
    pub server: Seq<char>,
    pub port: u16,
    pub hello_name: Seq<char>,
    pub login: Seq<char>,
    pub passwd: Seq<char>,
}

impl View for Mail {
    type V = MailView;

    open spec fn view(&self) -> MailView {
        MailView {
            from: self.from@,
            to: self.to@,
            subject: self.subject@,
            body: self.body@,
            server: self.server@,
            port: self.port,
            hello_name: self.hello_name@,
            login: self.login@,
            passwd: self.passwd@,
        }
    }
}

/// What becomes of the report at the end of a run.
#[derive(Clone, Debug, PartialEq, Eq)]
pub enum Notification {
    /// The report calls for no mail.
    NotNeeded,
    /// A mail is due, but there are no credentials to send it with.
    Skipped,
    /// This mail is to be sent.
    Send(Mail),
}

/// What becomes of a report, as plain values.
pub enum NotificationView {
    NotNeeded,
    Skipped,
    Send(MailView),
}

impl View for Notification {
    type V = NotificationView;

    open spec fn view(&self) -> NotificationView {
        match self {
            Notification::NotNeeded => NotificationView::NotNeeded,
            Notification::Skipped => NotificationView::Skipped,
            Notification::Send(mail) => NotificationView::Send(mail@),
        }
    }
}

/// The text of a file that was read, as a sequence of characters.
pub open spec fn text_of(text: Option<&str>) -> Option<Seq<char>> {
    match text {
        Some(t) => Some(t@),
        None => None,
    }
}

/// The credentials that the lines of an account file hold: login,
/// password, domain and recipient, one per line, and no line more or less.
pub open spec fn credentials_of(lines: Seq<Seq<char>>) -> Option<CredentialsView> {
    if lines.len() == 4 {
        Some(
            CredentialsView {
                login: lines[0],
                passwd: lines[1],
                domain: lines[2],
                email: lines[3],
            },
        )
    } else {
        None
    }
}

/// The credentials in the text of an account file; none where the file
/// could not be read.
pub open spec fn credentials_in(text: Option<Seq<char>>) -> Option<CredentialsView> {
    match text {
        Some(t) => credentials_of(lines_of(t)),
        None => None,
    }
}

/// The subject of every report mail.
pub open spec fn subject_text() -> Seq<char> {
    "Failed nodes"@
}

/// The mail that carries `body` for the holder of `creds`: from the login
/// at the domain to the recipient, through the submission service of the
/// domain, greeted with the domain's name.
pub open spec fn mail_of(creds: CredentialsView, body: Seq<char>) -> MailView {
    MailView {
        from: creds.login + seq!['@'] + creds.domain,
        to: creds.email,
        subject: subject_text(),
        body,
        server: creds.domain,
        port: SUBMISSION_PORT,
        hello_name: creds.domain,
        login: creds.login,
        passwd: creds.passwd,
    }
}

/// What becomes of a report of `lines` under `policy`: no mail where the
/// report calls for none; else the mail that carries the joined lines, if
/// `credentials`, the text of the account file, holds credentials.
pub open spec fn notification_of(
    policy: ReportPolicy,
    lines: Seq<Seq<char>>,
    credentials: Option<Seq<char>>,
) -> NotificationView {
    if !calls_for_notification(policy, lines) {
        NotificationView::NotNeeded
    } else {
        match credentials_in(credentials) {
            Some(creds) => NotificationView::Send(mail_of(creds, joined(lines))),
            None => NotificationView::Skipped,
        }
    }
}

/// Reads credentials off the text of an account file. `text` is `None`
/// where the file could not be read.
pub fn get_credentials(text: Option<&str>) -> (creds: Option<Credentials>)
    ensures
        match creds {
            Some(c) => credentials_in(text_of(text)) == Some(c@),
            None => credentials_in(text_of(text)) is None,
        },
{
    match text {
        Some(t) => {
            let lines = vec_strings(t);
            if lines.len() == 4 {
                assert(lines.deep_view()[0] == lines[0]@);
                assert(lines.deep_view()[1] == lines[1]@);
                assert(lines.deep_view()[2] == lines[2]@);
                assert(lines.deep_view()[3] == lines[3]@);
                Some(
                    Credentials {
                        login: lines[0].clone(),
                        passwd: lines[1].clone(),
                        domain: lines[2].clone(),
                        email: lines[3].clone(),
                    },
                )
            } else {
                None
            }
        },
        None => None,
    }
}

/// Composes the mail that carries `message`.
pub fn compose_mail(creds: Credentials, message: String) -> (mail: Mail)
    ensures
        mail@ == mail_of(creds@, message@),
{
    let mut from = creds.login.clone();
    from.push('@');
    from.append(creds.domain.as_str());
    assert(from@ =~= creds.login@ + seq!['@'] + creds.domain@);
    Mail {
        from,
        to: creds.email,
        subject: "Failed nodes".to_owned(),
        body: message,
        server: creds.domain.clone(),
        port: SUBMISSION_PORT,
        hello_name: creds.domain,
        login: creds.login,
        passwd: creds.passwd,
    }
}

/// Decides what becomes of `report`. `credentials` is the text of the
/// account file, `None` where it could not be read; it matters only where
/// the report calls for a mail.
pub fn plan_notification(report: &Report, credentials: Option<&str>) -> (plan: Notification)
    ensures
        plan@ == notification_of(report.policy, report.lines.deep_view(), text_of(credentials)),
{
    if report.needs_notification() {
        match get_credentials(credentials) {
            Some(creds) => Notification::Send(compose_mail(creds, report.body())),
            None => Notification::Skipped,
        }
    } else {
        Notification::NotNeeded
    }
}

/// An account file whose line count is not four sends nothing: a report
/// that calls for a mail is skipped.
pub proof fn lemma_notification_needs_four_lines(
    policy: ReportPolicy,
    lines: Seq<Seq<char>>,
    account: Seq<char>,
)
    requires
        calls_for_notification(policy, lines),
        lines_of(account).len() != 4,
    ensures
        notification_of(policy, lines, Some(account)) == NotificationView::Skipped,
        notification_of(policy, lines, None) == NotificationView::Skipped,
{
}

/// An account file of four lines, the last with or without its line
/// feed, sends the report from the login at the domain to the recipient,
/// through the domain's submission service.
pub proof fn lemma_notification_of_four_lines(
    lines: Seq<Seq<char>>,
    login: Seq<char>,
    passwd: Seq<char>,
    domain: Seq<char>,
    email: Seq<char>,
    ended: bool,
)
    requires
        lines.len() >= 1,
        has_no_line_feed(login) && without_carriage_return(login) == login,
        has_no_line_feed(passwd) && without_carriage_return(passwd) == passwd,
        has_no_line_feed(domain) && without_carriage_return(domain) == domain,
        has_no_line_feed(email) && without_carriage_return(email) == email,
        email.len() > 0,
    ensures
        notification_of(
            ReportPolicy::SilentFailureWithNotification,
            lines,
            Some(
                login + seq!['\n'] + passwd + seq!['\n'] + domain + seq!['\n'] + email + (if ended {
                    seq!['\n']
                } else {
                    Seq::empty()
                }),
            ),
        ) == NotificationView::Send(
            MailView {
                from: login + seq!['@'] + domain,
                to: email,
                subject: subject_text(),
                body: joined(lines),
                server: domain,
                port: 465,
                hello_name: domain,
                login,
                passwd,
            },
        ),
{
    let ending: Seq<char> = if ended {
        seq!['\n']
    } else {
        Seq::empty()
    };
    let last = email + ending;
    let after_passwd = domain + seq!['\n'] + last;
    let after_login = passwd + seq!['\n'] + after_passwd;
    let account = login + seq!['\n'] + passwd + seq!['\n'] + domain + seq!['\n'] + email + ending;
    assert(account =~= login + seq!['\n'] + after_login);
    lemma_lines_after_line(login, after_login);
    lemma_lines_after_line(passwd, after_passwd);
    lemma_lines_after_line(domain, last);
    if ended {
        assert(last =~= email + seq!['\n'] + Seq::<char>::empty());
        lemma_lines_after_line(email, Seq::empty());
        assert(lines_of(last) =~= seq![email]);
    } else {
        assert(last =~= email);
        lemma_line_feed_missing(email);
    }
    assert(lines_of(account) =~= seq![login, passwd, domain, email]);
}

} // verus!
