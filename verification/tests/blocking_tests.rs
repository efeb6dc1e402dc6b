use concurrency::Msg;
use concurrency::ReplyToken;
use concurrency::blocking::BlockingActor;

fn tok(id: u64) -> ReplyToken {
    ReplyToken { id }
}

#[test]
fn blocking_scenario_parked_get_resolves_on_put() {
    // Push 10 to the left, 11 to the right: the first GetLeft returns 10,
    // the second returns 11.  A GetLeft issued against the now-empty list
    // is parked; a later PutRight(12) lets the next drain resolve it.
    let mut a: BlockingActor<u64> = BlockingActor::new();

    assert!(a.handle(Msg::PutLeft(10)).is_none());
    assert!(a.handle(Msg::PutRight(11)).is_none());

    let r = a.handle(Msg::GetLeft(tok(1))).unwrap();
    assert_eq!(r.value, Some(10));

    let r = a.handle(Msg::GetLeft(tok(2))).unwrap();
    assert_eq!(r.value, Some(11));

    assert!(a.handle(Msg::GetLeft(tok(3))).is_none());
    assert!(a.handle(Msg::PutRight(12)).is_none());

    let rs = a.drain();
    assert_eq!(rs.len(), 1);
    assert_eq!(rs[0].token.id, 3);
    assert_eq!(rs[0].value, Some(12));
    assert!(a.is_running());
}

#[test]
fn session_scenario_parked_get_resolves_on_put() {
    // The same scenario driven through one whole worker session.
    let mut a: BlockingActor<u64> = BlockingActor::new();
    let rs = a.run_session(vec![
        Msg::PutLeft(10),
        Msg::PutRight(11),
        Msg::GetLeft(tok(1)),
        Msg::GetLeft(tok(2)),
        Msg::GetLeft(tok(3)),
        Msg::PutRight(12),
    ]);
    assert_eq!(rs.len(), 3);
    assert_eq!(rs[0].value, Some(10));
    assert_eq!(rs[1].value, Some(11));
    assert_eq!(rs[2].value, Some(12));
    assert_eq!(rs[2].token.id, 3);
}

#[test]
fn parked_gets_served_in_arrival_order() {
    // Two gets park against an empty list; once elements arrive they are
    // served oldest first, whichever side each asked for.
    let mut a: BlockingActor<u64> = BlockingActor::new();
    assert!(a.handle(Msg::GetLeft(tok(1))).is_none());
    assert!(a.handle(Msg::GetRight(tok(2))).is_none());
    assert!(a.handle(Msg::PutRight(20)).is_none());
    assert!(a.handle(Msg::PutRight(21)).is_none());

    let rs = a.drain();
    assert_eq!(rs.len(), 2);
    assert_eq!(rs[0].token.id, 1);
    assert_eq!(rs[0].value, Some(20));
    assert_eq!(rs[1].token.id, 2);
    assert_eq!(rs[1].value, Some(21));
}

#[test]
fn drain_stops_when_list_runs_out() {
    // Three parked gets, one element: only the oldest is served; the
    // others stay parked for a later drain.
    let mut a: BlockingActor<u64> = BlockingActor::new();
    assert!(a.handle(Msg::GetLeft(tok(1))).is_none());
    assert!(a.handle(Msg::GetLeft(tok(2))).is_none());
    assert!(a.handle(Msg::GetLeft(tok(3))).is_none());
    assert!(a.handle(Msg::PutLeft(30)).is_none());

    let rs = a.drain();
    assert_eq!(rs.len(), 1);
    assert_eq!(rs[0].token.id, 1);
    assert_eq!(rs[0].value, Some(30));

    assert!(a.handle(Msg::PutRight(31)).is_none());
    let rs = a.drain();
    assert_eq!(rs.len(), 1);
    assert_eq!(rs[0].token.id, 2);
    assert_eq!(rs[0].value, Some(31));
}

#[test]
fn session_answers_min_of_puts_and_gets() {
    // Gets ahead of any put still get answered once elements arrive:
    // with two gets and one put, exactly one answer is sent, to the
    // older get, and it carries the element.
    let mut a: BlockingActor<u64> = BlockingActor::new();
    let rs = a.run_session(vec![
        Msg::GetLeft(tok(1)),
        Msg::GetLeft(tok(2)),
        Msg::PutRight(7),
    ]);
    assert_eq!(rs.len(), 1);
    assert_eq!(rs[0].token.id, 1);
    assert_eq!(rs[0].value, Some(7));
}

#[test]
fn terminate_leaves_parked_gets_unanswered() {
    // Terminate stops the worker unconditionally: a parked get is never
    // answered and a put placed after Terminate is never processed.
    let mut a: BlockingActor<u64> = BlockingActor::new();
    let rs = a.run_session(vec![
        Msg::GetLeft(tok(1)),
        Msg::Terminate,
        Msg::PutRight(9),
    ]);
    assert_eq!(rs.len(), 0);
    assert!(!a.is_running());
}

#[test]
fn empty_session_sends_nothing() {
    let mut a: BlockingActor<u64> = BlockingActor::new();
    let rs = a.run_session(vec![]);
    assert_eq!(rs.len(), 0);
    assert!(a.is_running());
}
