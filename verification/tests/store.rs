use mlist::addr::parse_addr;
use mlist::roster::roster_is_subscribed;
use mlist::roster::roster_subscribe;
use mlist::roster::roster_unsubscribe;
use mlist::roster::split_lines;

#[test]
fn subscribe_then_is_subscribed() {
    let delta = roster_subscribe("", "a@x.org").unwrap().unwrap();
    assert_eq!(delta, "a@x.org\n");
    let roster = delta;
    assert!(roster_is_subscribed(&roster, "a@x.org").unwrap());
}

#[test]
fn subscribe_twice_appends_once() {
    let delta = roster_subscribe("", "a@x.org").unwrap().unwrap();
    let roster = delta;
    assert_eq!(roster_subscribe(&roster, "a@x.org").unwrap(), None);
    assert_eq!(split_lines(&roster), vec!["a@x.org".to_string()]);
}

#[test]
fn unsubscribe_leaves_the_other() {
    let mut roster = String::new();
    roster.push_str(&roster_subscribe(&roster, "a@x.org").unwrap().unwrap());
    roster.push_str(&roster_subscribe(&roster, "b@y.org").unwrap().unwrap());
    assert_eq!(roster, "a@x.org\nb@y.org\n");

    let rewritten = roster_unsubscribe(&roster, "a@x.org");
    assert_eq!(rewritten, "b@y.org\n");
    assert!(!roster_is_subscribed(&rewritten, "a@x.org").unwrap());
    assert!(roster_is_subscribed(&rewritten, "b@y.org").unwrap());
}

#[test]
fn matching_is_representation_insensitive() {
    let delta = roster_subscribe("", "Alice <a@x.org>").unwrap().unwrap();
    assert_eq!(delta, "Alice <a@x.org>\n");
    assert!(roster_is_subscribed(&delta, "a@x.org").unwrap());
    assert!(!roster_is_subscribed(&delta, "alice@x.org").unwrap());
}

#[test]
fn unparseable_roster_line_is_an_error() {
    assert!(roster_is_subscribed("no-at-sign\n", "a@x.org").is_err());
}

#[test]
fn unparseable_query_is_an_error() {
    assert!(roster_is_subscribed("a@x.org\n", "").is_err());
}

#[test]
fn parse_addr_normalizes() {
    assert_eq!(parse_addr("Alice <a@x.org>").unwrap(), "a@x.org");
    assert_eq!(parse_addr("a@x.org").unwrap(), "a@x.org");
    assert!(parse_addr("").is_err());
}

#[test]
fn missing_roster_reads_as_empty() {
    assert!(!roster_is_subscribed("", "a@x.org").unwrap());
}

#[test]
fn crlf_roster_lines_match() {
    assert!(roster_is_subscribed("a@x.org\r\nb@y.org\r\n", "b@y.org").unwrap());
}

#[test]
fn unsubscribe_handles_crlf_rosters() {
    let rewritten = roster_unsubscribe("a@x.org\r\nb@y.org\r\n", "a@x.org");
    assert_eq!(rewritten, "b@y.org\n");
}
