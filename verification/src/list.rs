use vstd::prelude::*;

pub use crate::config::Config;
use crate::err::ListError;
use crate::message::first_header_value;
use crate::message::first_value_of;
use crate::message::mail_parses;
use crate::text::chomp_cr_chars;
use crate::text::chomp_cr_str;
use crate::text::lower_chars;
use crate::text::trim_chars;
use crate::text::trimmed_lower_is;

verus! {

/// What an inbound message asks of the list: a membership change
/// carrying the sender's address, a message to fan out, or nothing (a
/// message without a sender is rejected).
#[derive(Debug, PartialEq, Eq)]
pub enum MailingListAction<'a> {
    Subscribe(String),
    Unsubscribe(String),
    Message(&'a [u8]),
    Reject,
}

/// Classify an inbound message by its headers: no `From` rejects it;
/// a `Subject` spelling `subscribe` or `unsubscribe` (case and
/// surrounding whitespace aside) is that command from the sender,
/// carrying the sender's address with the carriage return of its
/// source line dropped; anything else is a message for the list. A
/// message the grammar rejects is an error.
pub fn action_for_mail<'a>(mail: &'a [u8]) -> (r: Result<MailingListAction<'a>, ListError>)
    ensures
        !mail_parses(mail@) ==> r is Err,
        mail_parses(mail@) ==> (r matches Ok(a) && (match first_value_of(mail@, "from"@) {
            None => a is Reject,
            Some(f) => match first_value_of(mail@, "subject"@) {
                None => a matches MailingListAction::Message(b) && b@ == mail@,
                Some(s) => if lower_chars(trim_chars(s)) == "subscribe"@ {
                    a matches MailingListAction::Subscribe(x) && x@ == chomp_cr_chars(f)
                } else if lower_chars(trim_chars(s)) == "unsubscribe"@ {
                    a matches MailingListAction::Unsubscribe(x) && x@ == chomp_cr_chars(f)
                } else {
                    a matches MailingListAction::Message(b) && b@ == mail@
                },
            },
        })),
{
    let from = match first_header_value(mail, "from") {
        Ok(o) => o,
        Err(e) => {
            return Err(e);
        },
    };
    let from = match from {
        None => {
            return Ok(MailingListAction::Reject);
        },
        Some(f) => f,
    };
    let subject = match first_header_value(mail, "subject") {
        Ok(o) => o,
        Err(e) => {
            return Err(e);
        },
    };
    match subject {
        Some(s) => {
            if trimmed_lower_is(s.as_str(), "subscribe") {
                Ok(MailingListAction::Subscribe(chomp_cr_str(from.as_str())))
            } else if trimmed_lower_is(s.as_str(), "unsubscribe") {
                Ok(MailingListAction::Unsubscribe(chomp_cr_str(from.as_str())))
            } else {
                Ok(MailingListAction::Message(mail))
            }
        },
        None => Ok(MailingListAction::Message(mail)),
    }
}

} // verus!
