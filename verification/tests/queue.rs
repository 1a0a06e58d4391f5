use mlist::deliver::resume_decision;
use mlist::deliver::DeliveryJob;
use mlist::err::not_found_is_fine;
use mlist::err::IoErr;
use mlist::record::decode_record;
use mlist::record::encode_cursor;
use mlist::record::encode_record;

#[test]
fn record_round_trips() {
    let bytes = encode_record(8, 24);
    assert_eq!(decode_record(&bytes).unwrap(), (8, 24));
}

#[test]
fn record_layout_is_big_endian() {
    let bytes = encode_record(1, 2);
    assert_eq!(
        bytes,
        vec![0, 0, 0, 0, 0, 0, 0, 1, 0, 0, 0, 0, 0, 0, 0, 2]
    );
    let wide = encode_record(0x0102030405060708, 0x1122334455667788);
    assert_eq!(
        wide,
        vec![1, 2, 3, 4, 5, 6, 7, 8, 0x11, 0x22, 0x33, 0x44, 0x55, 0x66, 0x77, 0x88]
    );
    assert_eq!(encode_cursor(0x0102030405060708), vec![1, 2, 3, 4, 5, 6, 7, 8]);
}

#[test]
fn short_record_is_refused() {
    assert!(decode_record(&[0, 0, 0]).is_err());
    assert!(decode_record(&[]).is_err());
}

#[test]
fn delivery_walks_every_line() {
    let dest = b"a@x.org\nb@y.org\nc@z.org\n".to_vec();
    let mut job = DeliveryJob::new(dest, 0, 24).unwrap();
    assert_eq!(job.next().unwrap(), Some("a@x.org".to_string()));
    assert_eq!(job.cursor_value(), 8);
    assert_eq!(job.next().unwrap(), Some("b@y.org".to_string()));
    assert_eq!(job.cursor_value(), 16);
    assert_eq!(job.next().unwrap(), Some("c@z.org".to_string()));
    assert_eq!(job.cursor_value(), 24);
    assert!(job.done());
    assert_eq!(job.next().unwrap(), None);
}

#[test]
fn resumption_delivers_only_the_rest() {
    let dest = b"a@x.org\nb@y.org\nc@z.org\n".to_vec();

    let mut first_run = DeliveryJob::new(dest.clone(), 8, 24).unwrap();
    assert_eq!(first_run.next().unwrap(), Some("b@y.org".to_string()));
    let persisted = encode_cursor(first_run.cursor_value());
    assert_eq!(first_run.cursor_value(), 16);

    let mut record = persisted.clone();
    record.extend_from_slice(&encode_record(0, 24)[8..16]);
    let (cursor, end) = resume_decision(Ok(record)).unwrap().unwrap();
    assert_eq!((cursor, end), (16, 24));

    let mut resumed = DeliveryJob::new(dest, cursor, end).unwrap();
    assert_eq!(resumed.next().unwrap(), Some("c@z.org".to_string()));
    assert_eq!(resumed.next().unwrap(), None);
    assert!(resumed.done());
}

#[test]
fn empty_snapshot_makes_no_transport_calls() {
    let mut job = DeliveryJob::new(Vec::new(), 0, 0).unwrap();
    assert!(job.done());
    assert_eq!(job.next().unwrap(), None);
    assert_eq!(encode_record(0, 0), vec![0; 16]);
}

#[test]
fn delivery_sees_only_the_snapshot() {
    let mut roster = String::from("a@x.org\n");
    let snapshot = roster.as_bytes().to_vec();
    let end = snapshot.len() as u64;

    roster.push_str("b@y.org\n");

    let mut job = DeliveryJob::new(snapshot, 0, end).unwrap();
    let mut reached = Vec::new();
    while let Some(rcpt) = job.next().unwrap() {
        reached.push(rcpt);
    }
    assert_eq!(reached, vec!["a@x.org".to_string()]);
    assert!(!reached.contains(&"b@y.org".to_string()));
    assert!(roster.contains("b@y.org"));
}

#[test]
fn recipient_lines_are_trimmed() {
    let dest = b"  a@x.org  \nb@y.org\n".to_vec();
    let mut job = DeliveryJob::new(dest, 0, 20).unwrap();
    assert_eq!(job.next().unwrap(), Some("a@x.org".to_string()));
    assert_eq!(job.cursor_value(), 12);
}

#[test]
fn corrupt_job_record_is_refused() {
    assert!(DeliveryJob::new(b"a@x.org\n".to_vec(), 9, 8).is_err());
    assert!(DeliveryJob::new(b"a@x.org\n".to_vec(), 0, 9).is_err());
}

#[test]
fn cleanup_of_a_finished_job_is_idempotent() {
    assert_eq!(resume_decision(Err(IoErr::NotFound)).unwrap(), None);
    assert!(resume_decision(Err(IoErr::Other("disk gone".to_string()))).is_err());
    assert!(resume_decision(Ok(vec![1, 2, 3])).is_err());

    assert!(not_found_is_fine(Ok(())).is_ok());
    assert!(not_found_is_fine(Err(IoErr::NotFound)).is_ok());
    assert!(not_found_is_fine(Err(IoErr::Other("lock failed".to_string()))).is_err());
}

#[test]
fn record_handles_the_largest_values() {
    let bytes = encode_record(u64::MAX, u64::MAX);
    assert_eq!(decode_record(&bytes).unwrap(), (u64::MAX, u64::MAX));
    assert_eq!(bytes, vec![0xff; 16]);
}

#[test]
fn invalid_text_in_a_line_leaves_the_cursor_put() {
    let dest = vec![0xff, 0xfe, b'\n', b'b', b'@', b'y', b'\n'];
    let mut job = DeliveryJob::new(dest, 0, 7).unwrap();
    assert!(job.next().is_err());
    assert_eq!(job.cursor_value(), 0);
}
