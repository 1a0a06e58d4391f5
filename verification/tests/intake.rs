use mlist::config::Config;
use mlist::message::prepare_message;
use mlist::transport::transport_from_arg;
use mlist::transport::transport_recipients;

#[test]
fn tagging_prefixes_the_subject_only() {
    let input = b"From: test@example.org\r\nSubject: Hello\r\n\r\nBody text\r\n";
    let out = prepare_message(input, true, "foo").unwrap();
    assert_eq!(
        out,
        b"From: test@example.org\r\nSubject: [foo] Hello\r\n\r\nBody text\r\n".to_vec()
    );
}

#[test]
fn untagged_message_passes_through() {
    let input = b"From: test@example.org\r\nSubject: Hello\r\n\r\nBody text\r\n";
    let out = prepare_message(input, false, "foo").unwrap();
    assert_eq!(out, input.to_vec());
}

#[test]
fn subject_match_ignores_ascii_case() {
    let input = b"From: a@x.org\r\nsUBJECT: hi\r\n\r\n.\r\n";
    let out = prepare_message(input, true, "list").unwrap();
    assert_eq!(out, b"From: a@x.org\r\nsUBJECT: [list] hi\r\n\r\n.\r\n".to_vec());
}

#[test]
fn unparseable_message_is_an_error() {
    assert!(prepare_message(b"bad input\r\n", true, "foo").is_err());
}

#[test]
fn from_argument_takes_a_lone_mailbox() {
    assert_eq!(transport_from_arg("Alice <a@x.org>").unwrap(), "a@x.org");
    assert!(transport_from_arg("Team: a@x.org, b@y.org;").is_err());
    assert!(transport_from_arg("").is_err());
}

#[test]
fn recipient_arguments_flatten_groups() {
    let to = vec![
        "Team: a@x.org, b@y.org;".to_string(),
        "c@z.org".to_string(),
    ];
    assert_eq!(
        transport_recipients(&to).unwrap(),
        vec![
            "a@x.org".to_string(),
            "b@y.org".to_string(),
            "c@z.org".to_string()
        ]
    );
    assert!(transport_recipients(&vec!["no-at-sign".to_string()]).is_err());
}

#[test]
fn config_flags_default_off() {
    let c = Config::new("test".to_string(), "test".to_string(), None, None);
    assert!(!c.tag_subject_on());
    assert!(!c.open_posting_on());

    let t = Config::new(
        "test".to_string(),
        "foo".to_string(),
        Some(true),
        Some(true),
    );
    assert!(t.tag_subject_on());
    assert!(t.open_posting_on());
    assert_eq!(t.slug, "foo");
    assert_eq!(t.name, "test");
}
