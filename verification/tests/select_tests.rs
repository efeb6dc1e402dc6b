use concurrency::GETs;
use concurrency::PUTs;
use concurrency::ReplyToken;
use concurrency::select_actor::SelectActor;

fn tok(id: u64) -> ReplyToken {
    ReplyToken { id }
}

#[test]
fn select_scenario_reads_wait_for_guard() {
    // With an empty list a GetLeft and a GetRight are already queued on
    // the read stream, but the guard is down, so the worker takes only
    // writes.  PutLeft(10) raises the guard; the older read (GetLeft) is
    // served 10; the list empties, the guard drops, PutRight(11) raises
    // it again and the remaining read (GetRight) is served 11.
    let mut a: SelectActor<u64> = SelectActor::new();
    let mut reads = vec![GETs::GetLeft(tok(1)), GETs::GetRight(tok(2))];
    let mut writes = vec![PUTs::PutLeft(10), PUTs::PutRight(11)];
    let mut results: Vec<(u64, Option<u64>)> = Vec::new();

    while !reads.is_empty() || !writes.is_empty() {
        if a.wants_reads() && !reads.is_empty() {
            let r = a.handle_get(reads.remove(0));
            results.push((r.token.id, r.value));
        } else if !writes.is_empty() {
            a.handle_put(writes.remove(0));
        } else {
            // only reads are left and the guard is down: the worker
            // would block on the write stream forever
            break;
        }
    }

    assert_eq!(results.len(), 2);
    assert_eq!(results[0], (1, Some(10)));
    assert_eq!(results[1], (2, Some(11)));
}

#[test]
fn guard_tracks_emptiness() {
    let mut a: SelectActor<u64> = SelectActor::new();
    assert!(!a.wants_reads());
    a.handle_put(PUTs::PutRight(1));
    assert!(a.wants_reads());
    let r = a.handle_get(GETs::GetLeft(tok(1)));
    assert_eq!(r.value, Some(1));
    assert!(!a.wants_reads());
}

#[test]
fn reads_under_guard_always_carry_an_element() {
    let mut a: SelectActor<u64> = SelectActor::new();
    a.handle_put(PUTs::PutLeft(3));
    a.handle_put(PUTs::PutLeft(2));
    a.handle_put(PUTs::PutRight(4));
    let r = a.handle_get(GETs::GetRight(tok(1)));
    assert_eq!(r.value, Some(4));
    let r = a.handle_get(GETs::GetLeft(tok(2)));
    assert_eq!(r.value, Some(2));
    let r = a.handle_get(GETs::GetLeft(tok(3)));
    assert_eq!(r.value, Some(3));
    assert!(!a.wants_reads());
}

#[test]
fn select_session_scenario_reads_fifo() {
    // The whole scenario as one session: two reads queued against an
    // empty list, two writes; with no tie-break ever taking the write
    // stream first, the reads resolve oldest first to 10 then 11.
    let mut a: SelectActor<u64> = SelectActor::new();
    let rs = a.run_session(
        vec![GETs::GetLeft(tok(1)), GETs::GetRight(tok(2))],
        vec![PUTs::PutLeft(10), PUTs::PutRight(11)],
        vec![],
    );
    assert_eq!(rs.len(), 2);
    assert_eq!(rs[0].token.id, 1);
    assert_eq!(rs[0].value, Some(10));
    assert_eq!(rs[1].token.id, 2);
    assert_eq!(rs[1].value, Some(11));
    assert!(a.is_running());
}

#[test]
fn select_session_tie_break_may_take_write_first() {
    // With the guard up and both streams ready, a tie-break of false
    // lets the write in before the waiting read; the read still resolves
    // from the left end.
    let mut a: SelectActor<u64> = SelectActor::new();
    let rs = a.run_session(
        vec![GETs::GetLeft(tok(1))],
        vec![PUTs::PutLeft(10), PUTs::PutRight(11)],
        vec![false],
    );
    assert_eq!(rs.len(), 1);
    assert_eq!(rs[0].value, Some(10));
    assert!(a.is_running());
}

#[test]
fn select_session_terminate_stops_everything() {
    // Terminate on the write stream ends the session: the queued read is
    // never observed and the later write is never processed.
    let mut a: SelectActor<u64> = SelectActor::new();
    let rs = a.run_session(
        vec![GETs::GetLeft(tok(1))],
        vec![PUTs::Terminate, PUTs::PutRight(1)],
        vec![],
    );
    assert_eq!(rs.len(), 0);
    assert!(!a.is_running());
}

#[test]
fn terminate_stops_select_worker() {
    let mut a: SelectActor<u64> = SelectActor::new();
    a.handle_put(PUTs::PutRight(1));
    assert!(a.is_running());
    a.handle_put(PUTs::Terminate);
    assert!(!a.is_running());
}
