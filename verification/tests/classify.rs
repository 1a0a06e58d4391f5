use mlist::list::action_for_mail;
use mlist::list::MailingListAction;

#[test]
fn a_basic_parse() {
    assert_eq!(
        action_for_mail(b"Subject: test\r\n\r\n").unwrap(),
        MailingListAction::Reject
    );
}

#[test]
fn a_subscribe_command() {
    assert_eq!(
        action_for_mail(b"From: test@example.org\r\nSubject: subsCRIbe     \r\n\r\n").unwrap(),
        MailingListAction::Subscribe("test@example.org".to_string())
    );
}

#[test]
fn an_unsubscribe_command() {
    assert_eq!(
        action_for_mail(b"From: test@example.org\r\nSubject: UNSUbscribe\r\n\r\n").unwrap(),
        MailingListAction::Unsubscribe("test@example.org".to_string())
    );
}

#[test]
fn a_message_to_pass_through() {
    let message = b"From: test@example.org\r\nSubject: A message to the list\r\n\r\n";

    assert_eq!(
        action_for_mail(message).unwrap(),
        MailingListAction::Message(message)
    );
}

#[test]
fn a_bad_email() {
    let error = action_for_mail(b"bad input\r\n").unwrap_err();
    assert_eq!(error.message, "Unexpected newline in header key")
}

#[test]
fn a_message_without_subject() {
    let message = b"From: test@example.org\r\n\r\nhello\r\n";

    assert_eq!(
        action_for_mail(message).unwrap(),
        MailingListAction::Message(message)
    );
}
