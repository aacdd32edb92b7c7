use desktop_utils::read_state::{ReadDecision, ReadState};

fn is_request(d: ReadDecision) -> bool {
    matches!(d, ReadDecision::Request)
}

#[test]
fn requests_are_tracked_in_total() {
    let mut s = ReadState::new();
    assert!(is_request(s.poll_decision(4)));
    s.record_request(4);
    assert_eq!(s.pending_total(), 4);
    assert!(matches!(s.poll_decision(4), ReadDecision::Await));
    assert!(is_request(s.poll_decision(5)));
    s.record_request(6);
    assert_eq!(s.pending_total(), 10);
}

#[test]
fn answer_is_delivered_up_to_the_room_and_the_rest_waits() {
    let mut s = ReadState::new();
    s.record_request(8);
    s.record_request(2);
    let mut buf = Vec::new();
    s.complete_request(Some(vec![1, 2, 3, 4, 5]), &mut buf, 3);
    assert_eq!(buf, vec![1, 2, 3]);
    assert_eq!(s.pending_total(), 2);
    let mut more = Vec::new();
    assert!(s.fill_from_available(&mut more, 1));
    assert_eq!(more, vec![4]);
    assert!(s.fill_from_available(&mut more, 10));
    assert_eq!(more, vec![4, 5]);
    assert!(!s.fill_from_available(&mut more, 10));
    assert_eq!(more, vec![4, 5]);
}

#[test]
fn failed_or_empty_answers_deliver_nothing() {
    let mut s = ReadState::new();
    s.record_request(3);
    s.record_request(3);
    let mut buf = vec![9];
    s.complete_request(None, &mut buf, 3);
    assert_eq!(buf, vec![9]);
    s.complete_request(Some(vec![]), &mut buf, 3);
    assert_eq!(buf, vec![9]);
    assert_eq!(s.pending_total(), 0);
    assert!(!s.fill_from_available(&mut buf, 3));
}

#[test]
fn fill_with_no_room_keeps_everything() {
    let mut s = ReadState::new();
    s.record_request(2);
    let mut buf = Vec::new();
    s.complete_request(Some(vec![7, 8]), &mut buf, 0);
    assert!(buf.is_empty());
    assert!(s.fill_from_available(&mut buf, 0));
    assert!(buf.is_empty());
    assert!(s.fill_from_available(&mut buf, 5));
    assert_eq!(buf, vec![7, 8]);
}

#[test]
fn read_with_no_room_is_done_at_once() {
    let mut s = ReadState::new();
    assert!(matches!(s.poll_decision(0), ReadDecision::Done));
    s.record_request(2);
    let mut buf = Vec::new();
    s.complete_request(Some(vec![1, 2]), &mut buf, 1);
    assert!(matches!(s.poll_decision(0), ReadDecision::Done));
    assert!(matches!(s.poll_decision(3), ReadDecision::Deliver));
}

#[test]
fn bytes_over_a_run_of_reads_come_in_order() {
    let mut s = ReadState::new();
    let mut got = Vec::new();
    s.record_request(3);
    s.record_request(3);
    s.complete_request(Some(vec![1, 2, 3]), &mut got, 2);
    s.fill_from_available(&mut got, 2);
    assert!(s.has_pending());
    s.complete_request(Some(vec![4, 5]), &mut got, 1);
    s.fill_from_available(&mut got, 5);
    assert_eq!(got, vec![1, 2, 3, 4, 5]);
    assert!(!s.has_pending());
    assert_eq!(s.pending_total(), 0);
}
