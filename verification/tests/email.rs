use ff_node_monitor::config::{Config, Secrets, Ui, Urls};
use ff_node_monitor::email::{delivery, EmailAddress, EmailError, MailError, Transport};
use ff_node_monitor::hmac::Key;
use ff_node_monitor::util::Ctx;

fn config(smtp_host: Option<&str>) -> Config {
    Config {
        ui: Ui {
            instance_name: "Freifunk".to_string(),
            instance_article_dative: "dem".to_string(),
            email_from: "monitor@example.org".to_string(),
            min_online_nodes: None,
        },
        secrets: Secrets {
            smtp_host: smtp_host.map(|h| h.to_string()),
            action_signing_key: Key::new(vec![1, 2, 3]).unwrap(),
        },
        urls: Urls {
            root: "https://monitor.example.org/".to_string(),
            nodes: "https://map.example.org/nodes.json".to_string(),
            sources: "https://example.org/src".to_string(),
            stylesheet: None,
        },
    }
}

#[test]
fn accepts_plain_address() {
    let e = EmailAddress::new("x@example.com".to_string()).unwrap();
    assert_eq!(e.as_str(), "x@example.com");
    assert_eq!(e.clone(), e);
}

#[test]
fn accepts_the_shortest_address() {
    assert!(EmailAddress::new("a@.".to_string()).is_ok());
    assert!(EmailAddress::new("ä@ö.ü".to_string()).is_ok());
    assert!(EmailAddress::new("a.b@c.d.e".to_string()).is_ok());
}

#[test]
fn refuses_two_ats() {
    assert_eq!(EmailAddress::new("a@b@c.d".to_string()), Err(EmailError::NotOneAt));
    assert_eq!(EmailAddress::new("@@".to_string()), Err(EmailError::NotOneAt));
}

#[test]
fn refuses_no_at() {
    assert_eq!(EmailAddress::new("".to_string()), Err(EmailError::NotOneAt));
    assert_eq!(EmailAddress::new("example.com".to_string()), Err(EmailError::NotOneAt));
}

#[test]
fn refuses_empty_user() {
    assert_eq!(EmailAddress::new("@example.com".to_string()), Err(EmailError::EmptyUser));
    assert_eq!(EmailAddress::new("@".to_string()), Err(EmailError::EmptyUser));
}

#[test]
fn refuses_domain_without_dot() {
    assert_eq!(EmailAddress::new("x@localhost".to_string()), Err(EmailError::NoDotInDomain));
    assert_eq!(EmailAddress::new("x.y@z".to_string()), Err(EmailError::NoDotInDomain));
    assert_eq!(EmailAddress::new("x@".to_string()), Err(EmailError::NoDotInDomain));
}

#[test]
fn email_error_messages() {
    assert_eq!(EmailError::NotOneAt.message(), "invalid credit card number");
    assert_eq!(EmailError::EmptyUser.message(), "User part is empty");
    assert_eq!(EmailError::NoDotInDomain.message(), "Domain part must contain .");
}

#[test]
fn email_splits_the_text_into_sender_subject_and_body() {
    let config = config(None);
    let out = Ctx(&config)
        .email("Freifunk Monitor\nNode A is offline\nHello,\n\nnode A went offline.\n", "x@example.com")
        .unwrap();
    assert_eq!(out.message.from_name, "Freifunk Monitor");
    assert_eq!(out.message.from_address, "monitor@example.org");
    assert_eq!(out.message.to, "x@example.com");
    assert_eq!(out.message.subject, "Node A is offline");
    assert_eq!(out.message.body, "Hello,\n\nnode A went offline.\n");
    assert_eq!(out.transport, Transport::UnencryptedLocalhost);
}

#[test]
fn email_allows_empty_lines_and_an_empty_body() {
    let config = config(None);
    let out = Ctx(&config).email("\n\n", "x@example.com").unwrap();
    assert_eq!(out.message.from_name, "");
    assert_eq!(out.message.subject, "");
    assert_eq!(out.message.body, "");
    let out = Ctx(&config).email("Absender: ä\nBetreff: ö\n", "x@example.com").unwrap();
    assert_eq!(out.message.from_name, "Absender: ä");
    assert_eq!(out.message.subject, "Betreff: ö");
    assert_eq!(out.message.body, "");
}

#[test]
fn email_needs_two_line_breaks() {
    let config = config(None);
    assert_eq!(Ctx(&config).email("", "x@example.com"), Err(MailError::MissingLines));
    assert_eq!(Ctx(&config).email("from", "x@example.com"), Err(MailError::MissingLines));
    assert_eq!(Ctx(&config).email("from\nsubject", "x@example.com"), Err(MailError::MissingLines));
    // the text is looked at before the recipient
    assert_eq!(Ctx(&config).email("from\nsubject", "nobody"), Err(MailError::MissingLines));
}

#[test]
fn email_refuses_a_bad_recipient() {
    let config = config(None);
    assert_eq!(Ctx(&config).email("a\nb\nc", "nobody"), Err(MailError::BadRecipient));
    assert_eq!(Ctx(&config).email("a\nb\nc", "x@"), Err(MailError::BadRecipient));
    assert_eq!(Ctx(&config).email("a\nb\nc", "a b@example.com"), Err(MailError::BadRecipient));
    assert!(Ctx(&config).email("a\nb\nc", "x@example.com").is_ok());
}

#[test]
fn email_chooses_the_transport_by_the_host() {
    let local = config(Some("localhost"));
    assert_eq!(
        Ctx(&local).email("a\nb\nc", "x@example.com").unwrap().transport,
        Transport::UnencryptedLocalhost
    );
    let relay = config(Some("mail.example.org"));
    assert_eq!(
        Ctx(&relay).email("a\nb\nc", "x@example.com").unwrap().transport,
        Transport::StartTlsRelay { host: "mail.example.org".to_string(), port: 25 }
    );
}

#[test]
fn delivery_reports_a_negative_answer() {
    assert_eq!(delivery(true, Some("250 ok")), Ok(()));
    assert_eq!(delivery(true, None), Ok(()));
    assert_eq!(
        delivery(false, Some("550 no such user")),
        Err("sending email failed:\n550 no such user".to_string())
    );
    assert_eq!(delivery(false, None), Err("sending email failed:\n<no message>".to_string()));
}
