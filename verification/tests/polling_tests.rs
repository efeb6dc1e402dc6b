use concurrency::Msg;
use concurrency::ReplyToken;
use concurrency::polling::PollingActor;

fn tok(id: u64) -> ReplyToken {
    ReplyToken { id }
}

#[test]
fn get_left_on_empty_is_absent() {
    let mut a: PollingActor<u64> = PollingActor::new();
    let r = a.step(Msg::GetLeft(tok(1))).unwrap();
    assert_eq!(r.token.id, 1);
    assert_eq!(r.value, None);
    assert!(a.is_running());
}

#[test]
fn get_right_on_empty_is_absent() {
    let mut a: PollingActor<u64> = PollingActor::new();
    let r = a.step(Msg::GetRight(tok(7))).unwrap();
    assert_eq!(r.token.id, 7);
    assert_eq!(r.value, None);
}

#[test]
fn polling_scenario_left_then_right() {
    // Get on empty answers absent at once; a put then feeds the next get;
    // gets from the right see the rightmost element.
    let mut a: PollingActor<u64> = PollingActor::new();

    let r = a.step(Msg::GetLeft(tok(1))).unwrap();
    assert_eq!(r.value, None);

    assert!(a.step(Msg::PutLeft(10)).is_none());
    let r = a.step(Msg::GetLeft(tok(2))).unwrap();
    assert_eq!(r.value, Some(10));

    assert!(a.step(Msg::PutRight(11)).is_none());
    assert!(a.step(Msg::PutRight(12)).is_none());
    let r = a.step(Msg::GetRight(tok(3))).unwrap();
    assert_eq!(r.value, Some(12));

    let r = a.step(Msg::Terminate);
    assert!(r.is_none());
    assert!(!a.is_running());
}

#[test]
fn puts_then_gets_first_n_present_rest_absent() {
    // Two puts then three gets: the first two gets return the pushed
    // elements in left-to-right order, the third returns absent.
    let mut a: PollingActor<u64> = PollingActor::new();
    let rs = a.step_all(vec![
        Msg::PutRight(1),
        Msg::PutRight(2),
        Msg::GetLeft(tok(1)),
        Msg::GetLeft(tok(2)),
        Msg::GetLeft(tok(3)),
    ]);
    assert_eq!(rs.len(), 3);
    assert_eq!(rs[0].value, Some(1));
    assert_eq!(rs[0].token.id, 1);
    assert_eq!(rs[1].value, Some(2));
    assert_eq!(rs[1].token.id, 2);
    assert_eq!(rs[2].value, None);
    assert_eq!(rs[2].token.id, 3);
}

#[test]
fn left_side_fifo_order_kept() {
    // Elements enqueued at the right come back out of the left in
    // exactly the order they were enqueued.
    let mut a: PollingActor<u64> = PollingActor::new();
    let rs = a.step_all(vec![
        Msg::PutRight(5),
        Msg::PutRight(6),
        Msg::PutRight(7),
        Msg::GetLeft(tok(1)),
        Msg::GetLeft(tok(2)),
        Msg::GetLeft(tok(3)),
    ]);
    assert_eq!(rs.len(), 3);
    assert_eq!(rs[0].value, Some(5));
    assert_eq!(rs[1].value, Some(6));
    assert_eq!(rs[2].value, Some(7));
}

#[test]
fn no_reply_for_requests_after_terminate() {
    // Requests placed after Terminate are never processed: no reply
    // appears for them and the worker reports itself stopped.
    let mut a: PollingActor<u64> = PollingActor::new();
    let rs = a.step_all(vec![
        Msg::PutRight(5),
        Msg::Terminate,
        Msg::GetLeft(tok(1)),
        Msg::GetRight(tok(2)),
    ]);
    assert_eq!(rs.len(), 0);
    assert!(!a.is_running());
}

#[test]
fn interleaving_conserves_elements() {
    // An early get sees nothing; afterwards each element is handed out
    // exactly once and none is fabricated.
    let mut a: PollingActor<u64> = PollingActor::new();
    let rs = a.step_all(vec![
        Msg::GetLeft(tok(1)),
        Msg::PutRight(8),
        Msg::GetLeft(tok(2)),
        Msg::PutRight(9),
        Msg::GetRight(tok(3)),
        Msg::GetLeft(tok(4)),
    ]);
    assert_eq!(rs.len(), 4);
    assert_eq!(rs[0].value, None);
    assert_eq!(rs[1].value, Some(8));
    assert_eq!(rs[2].value, Some(9));
    assert_eq!(rs[3].value, None);
}

#[test]
fn queue_order_kept_across_interleaving() {
    // Enqueues at the right and dequeues from the left, interleaved:
    // the present answers come back in exactly enqueue order.
    let mut a: PollingActor<u64> = PollingActor::new();
    let rs = a.step_all(vec![
        Msg::PutRight(1),
        Msg::GetLeft(tok(1)),
        Msg::PutRight(2),
        Msg::PutRight(3),
        Msg::GetLeft(tok(2)),
        Msg::GetLeft(tok(3)),
        Msg::GetLeft(tok(4)),
    ]);
    assert_eq!(rs.len(), 4);
    assert_eq!(rs[0].value, Some(1));
    assert_eq!(rs[1].value, Some(2));
    assert_eq!(rs[2].value, Some(3));
    assert_eq!(rs[3].value, None);
}

#[test]
fn put_left_makes_element_leftmost() {
    let mut a: PollingActor<u64> = PollingActor::new();
    let rs = a.step_all(vec![
        Msg::PutRight(1),
        Msg::PutLeft(2),
        Msg::GetLeft(tok(1)),
        Msg::GetLeft(tok(2)),
    ]);
    assert_eq!(rs[0].value, Some(2));
    assert_eq!(rs[1].value, Some(1));
}
