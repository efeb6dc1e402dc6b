//! The blocking variant: a dequeue request that finds the list empty is
//! not answered yet — it is parked, with its reply token, in a pending
//! queue, and served in arrival order as soon as elements are available.
//! The worker alternates a drain phase (serve pending requests while the
//! list is non-empty) with an intake phase (process one fresh request).

use vstd::prelude::*;

use crate::Msg;
use crate::Reply;
use crate::ReplyToken;
use crate::next_list;

verus! {

/// Which end of the list a parked dequeue request asked for.
#[derive(Clone, Copy, PartialEq, Eq, Structural)]
pub enum Side {
    Left,
    Right,
}

/// A dequeue request that could not be satisfied on arrival: the end it
/// asked for and the token of its still-unanswered reply channel.
#[derive(Clone, Copy, PartialEq, Eq, Structural)]
pub struct PendingRequest {
    pub side: Side,
    pub token: ReplyToken,
}

/// The element a parked request takes from a non-empty list.
pub open spec fn serve_value<T>(s: Seq<T>, side: Side) -> T
    recommends
        s.len() > 0,
{
    match side {
        Side::Left => s[0],
        Side::Right => s.last(),
    }
}

/// The list left behind once a parked request has taken its element.
pub open spec fn serve_rest<T>(s: Seq<T>, side: Side) -> Seq<T>
    recommends
        s.len() > 0,
{
    match side {
        Side::Left => s.drop_first(),
        Side::Right => s.drop_last(),
    }
}

/// The replies a drain phase produces from list `s` and pending queue
/// `p`: pending requests are served strictly in arrival order, each
/// taking one element from its end, until the queue or the list runs out.
pub open spec fn drain_replies<T>(s: Seq<T>, p: Seq<PendingRequest>) -> Seq<Reply<T>>
    decreases p.len(),
{
    if p.len() == 0 || s.len() == 0 {
        Seq::<Reply<T>>::empty()
    } else {
        seq![Reply { token: p[0].token, value: Some(serve_value(s, p[0].side)) }]
            + drain_replies(serve_rest(s, p[0].side), p.drop_first())
    }
}

/// The list a drain phase leaves behind.
pub open spec fn drain_list<T>(s: Seq<T>, p: Seq<PendingRequest>) -> Seq<T>
    decreases p.len(),
{
    if p.len() == 0 || s.len() == 0 {
        s
    } else {
        drain_list(serve_rest(s, p[0].side), p.drop_first())
    }
}

/// The pending queue a drain phase leaves behind: the requests it could
/// not serve, still in arrival order.
pub open spec fn drain_pending<T>(s: Seq<T>, p: Seq<PendingRequest>) -> Seq<PendingRequest>
    decreases p.len(),
{
    if p.len() == 0 || s.len() == 0 {
        p
    } else {
        drain_pending(serve_rest(s, p[0].side), p.drop_first())
    }
}

/// The reply the intake phase owes at once for request `m` on list `s`:
/// a present element for a dequeue that can be satisfied, nothing for a
/// dequeue that must be parked, nothing for enqueues and termination.
pub open spec fn handle_reply<T>(s: Seq<T>, m: Msg<T>) -> Option<Reply<T>> {
    match m {
        Msg::GetLeft(t) => if s.len() > 0 {
            Some(Reply { token: t, value: Some(s[0]) })
        } else {
            None
        },
        Msg::GetRight(t) => if s.len() > 0 {
            Some(Reply { token: t, value: Some(s.last()) })
        } else {
            None
        },
        _ => None,
    }
}

/// How the intake phase changes the pending queue: only a dequeue that
/// finds the list empty is appended; everything else leaves it alone.
pub open spec fn handle_pending<T>(
    s: Seq<T>,
    p: Seq<PendingRequest>,
    m: Msg<T>,
) -> Seq<PendingRequest> {
    match m {
        Msg::GetLeft(t) => if s.len() > 0 {
            p
        } else {
            p.push(PendingRequest { side: Side::Left, token: t })
        },
        Msg::GetRight(t) => if s.len() > 0 {
            p
        } else {
            p.push(PendingRequest { side: Side::Right, token: t })
        },
        _ => p,
    }
}

/// The state owned by the blocking worker: the list, the queue of parked
/// dequeue requests, and whether the worker is still running.
pub struct BlockingActor<T> {
    list: Vec<T>,
    pending: Vec<PendingRequest>,
    live: bool,
}

impl<T> BlockingActor<T> {
    /// The elements currently held, left to right.
    pub closed spec fn list(self) -> Seq<T> {
        self.list@
    }

    /// The parked dequeue requests, oldest first.
    pub closed spec fn pending(self) -> Seq<PendingRequest> {
        self.pending@
    }

    /// True until the worker has processed `Terminate`; callers must not
    /// hand requests to a worker that has stopped.
    pub closed spec fn running(self) -> bool {
        self.live
    }

    /// A fresh worker: empty list, no parked requests, ready.
    pub fn new() -> (a: Self)
        ensures
            a.list() == Seq::<T>::empty(),
            a.pending() == Seq::<PendingRequest>::empty(),
            a.running(),
    {
        BlockingActor { list: Vec::new(), pending: Vec::new(), live: true }
    }

    /// Whether the worker still processes requests; the loop that feeds
    /// it must stop once this is false.
    pub fn is_running(&self) -> (b: bool)
        ensures
            b == self.running(),
    {
        self.live
    }

    /// The drain phase: serve parked requests in arrival order while any
    /// element is available, and return the answers owed, in the order
    /// they were produced.  Afterwards the pending queue or the list is
    /// exhausted.
    pub fn drain(&mut self) -> (rs: Vec<Reply<T>>)
        ensures
            rs@ == drain_replies(old(self).list(), old(self).pending()),
            final(self).list() == drain_list(old(self).list(), old(self).pending()),
            final(self).pending() == drain_pending(old(self).list(), old(self).pending()),
            final(self).running() == old(self).running(),
            final(self).pending().len() == 0 || final(self).list().len() == 0,
    {
        let ghost s0 = self.list@;
        let ghost p0 = self.pending@;
        let mut rs: Vec<Reply<T>> = Vec::new();
        while self.pending.len() > 0 && self.list.len() > 0
            invariant
                drain_replies(s0, p0) == rs@ + drain_replies(self.list@, self.pending@),
                drain_list(s0, p0) == drain_list(self.list@, self.pending@),
                drain_pending(s0, p0) == drain_pending(self.list@, self.pending@),
                self.live == old(self).live,
            decreases self.pending.len(),
        {
            let ghost s_here = self.list@;
            let ghost p_here = self.pending@;
            let pg = self.pending.remove(0);
            let v = match pg.side {
                Side::Left => self.list.remove(0),
                Side::Right => self.list.pop().unwrap(),
            };
            proof {
                assert(self.pending@ =~= p_here.drop_first());
                assert(self.list@ =~= serve_rest(s_here, pg.side));
                assert(v == serve_value(s_here, pg.side));
            }
            rs.push(Reply { token: pg.token, value: Some(v) });
            proof {
                assert(drain_replies(s_here, p_here) =~= seq![
                    Reply { token: pg.token, value: Some(serve_value(s_here, pg.side)) }
                ] + drain_replies(self.list@, self.pending@));
                assert(rs@ + drain_replies(self.list@, self.pending@) =~= drain_replies(
                    s0,
                    p0,
                ));
            }
        }
        proof {
            assert(drain_replies(self.list@, self.pending@) =~= Seq::<Reply<T>>::empty());
            assert(rs@ =~= drain_replies(s0, p0));
        }
        rs
    }

    /// The intake phase: process one fresh request.  A satisfiable
    /// dequeue is answered at once; an unsatisfiable one is parked with
    /// its token and not answered; enqueues mutate the list immediately,
    /// deferring the service of parked requests to the next drain;
    /// `Terminate` stops the worker, leaving any parked requests
    /// unanswered.
    pub fn handle(&mut self, m: Msg<T>) -> (r: Option<Reply<T>>)
        requires
            old(self).running(),
        ensures
            final(self).list() == next_list(old(self).list(), m),
            final(self).pending() == handle_pending(old(self).list(), old(self).pending(), m),
            r == handle_reply(old(self).list(), m),
            final(self).running() == !(m is Terminate),
    {
        match m {
            Msg::GetLeft(t) => {
                if self.list.len() > 0 {
                    let v = self.list.remove(0);
                    proof {
                        assert(self.list@ =~= old(self).list().drop_first());
                    }
                    Some(Reply { token: t, value: Some(v) })
                } else {
                    self.pending.push(PendingRequest { side: Side::Left, token: t });
                    None
                }
            },
            Msg::GetRight(t) => {
                if self.list.len() > 0 {
                    let v = self.list.pop().unwrap();
                    proof {
                        assert(self.list@ =~= old(self).list().drop_last());
                    }
                    Some(Reply { token: t, value: Some(v) })
                } else {
                    self.pending.push(PendingRequest { side: Side::Right, token: t });
                    None
                }
            },
            Msg::PutLeft(v) => {
                self.list.insert(0, v);
                None
            },
            Msg::PutRight(v) => {
                self.list.push(v);
                None
            },
            Msg::Terminate => {
                self.live = false;
                None
            },
        }
    }

    /// Run one whole session: alternate drain and intake over the given
    /// requests as the worker loop does, stop at the first `Terminate`,
    /// and drain once more where the worker would next block waiting.
    /// Returns every reply sent, in order.
    pub fn run_session(&mut self, ms: Vec<Msg<T>>) -> (rs: Vec<Reply<T>>)
        requires
            old(self).running(),
        ensures
            rs@ == session(old(self).list(), old(self).pending(), ms@).0,
            final(self).list() == session(old(self).list(), old(self).pending(), ms@).1,
            final(self).pending() == session(old(self).list(), old(self).pending(), ms@).2,
            final(self).running() == session(old(self).list(), old(self).pending(), ms@).3,
    {
        let ghost s0 = self.list@;
        let ghost p0 = self.pending@;
        let ghost ms0 = ms@;
        let mut ms = ms;
        let mut rs: Vec<Reply<T>> = Vec::new();
        while ms.len() > 0 && self.live
            invariant
                self.live ==> session(s0, p0, ms0).0 == rs@ + session(
                    self.list@,
                    self.pending@,
                    ms@,
                ).0,
                self.live ==> session(s0, p0, ms0).1 == session(self.list@, self.pending@, ms@).1,
                self.live ==> session(s0, p0, ms0).2 == session(self.list@, self.pending@, ms@).2,
                self.live ==> session(s0, p0, ms0).3 == session(self.list@, self.pending@, ms@).3,
                !self.live ==> session(s0, p0, ms0).0 == rs@,
                !self.live ==> session(s0, p0, ms0).1 == self.list@,
                !self.live ==> session(s0, p0, ms0).2 == self.pending@,
                !self.live ==> !session(s0, p0, ms0).3,
            decreases ms.len(),
        {
            let ghost l_here = self.list@;
            let ghost p_here = self.pending@;
            let ghost ms_here = ms@;
            let mut d = self.drain();
            let ghost dr = d@;
            rs.append(&mut d);
            let m = ms.remove(0);
            proof {
                assert(ms@ =~= ms_here.drop_first());
            }
            let r = self.handle(m);
            match r {
                Some(reply) => {
                    rs.push(reply);
                    proof {
                        assert(handle_reply_seq(drain_list(l_here, p_here), ms_here[0])
                            =~= seq![reply]);
                        assert(rs@ + session(self.list@, self.pending@, ms@).0 =~= session(
                            s0,
                            p0,
                            ms0,
                        ).0);
                    }
                },
                None => {
                    proof {
                        if ms_here[0] is Terminate {
                            assert(session(l_here, p_here, ms_here).0 =~= dr);
                            assert(rs@ =~= session(s0, p0, ms0).0);
                        } else {
                            assert(handle_reply_seq(drain_list(l_here, p_here), ms_here[0])
                                =~= Seq::<Reply<T>>::empty());
                            assert(rs@ + session(self.list@, self.pending@, ms@).0 =~= session(
                                s0,
                                p0,
                                ms0,
                            ).0);
                        }
                    }
                },
            }
        }
        if self.live {
            let mut d = self.drain();
            rs.append(&mut d);
            proof {
                assert(rs@ =~= session(s0, p0, ms0).0);
            }
        }
        rs
    }
}

/// Law of pending-queue order: a drain serves exactly as many parked
/// requests as it can — one per element available, up to the whole
/// queue — strictly in arrival order: the i-th answer carries the token
/// of the i-th parked request and always a present element; the
/// requests that remain parked are exactly the unserved tail, still in
/// order.  No parked request is overtaken by a later one.
pub proof fn lemma_drain_fifo<T>(s: Seq<T>, p: Seq<PendingRequest>)
    ensures
        drain_replies(s, p).len() == vstd::math::min(s.len() as int, p.len() as int),
        forall|i: int|
            0 <= i < drain_replies(s, p).len() ==> (#[trigger] drain_replies(s, p)[i]).token
                == p[i].token,
        forall|i: int|
            0 <= i < drain_replies(s, p).len() ==> (#[trigger] drain_replies(s, p)[i]).value
                is Some,
        drain_pending(s, p) == p.skip(drain_replies(s, p).len() as int),
        drain_list(s, p).len() == s.len() - drain_replies(s, p).len(),
    decreases p.len(),
{
    if p.len() == 0 || s.len() == 0 {
        assert(p.skip(0) =~= p);
    } else {
        let s1 = serve_rest(s, p[0].side);
        let p1 = p.drop_first();
        lemma_drain_fifo(s1, p1);
        let head = seq![Reply { token: p[0].token, value: Some(serve_value(s, p[0].side)) }];
        let rest = drain_replies(s1, p1);
        assert(drain_replies(s, p) == head + rest);
        let k = drain_replies(s, p).len() as int;
        assert forall|i: int| 0 <= i < k implies (#[trigger] drain_replies(s, p)[i]).token
            == p[i].token && drain_replies(s, p)[i].value is Some by {
            if i == 0 {
                assert(drain_replies(s, p)[0] == head[0]);
            } else {
                assert(drain_replies(s, p)[i] == rest[i - 1]);
                assert(p1[i - 1] == p[i]);
            }
        }
        assert(drain_pending(s, p) == p1.skip(rest.len() as int));
        assert(p1.skip(rest.len() as int) =~= p.skip(k));
    }
}

/// The reply the intake phase owes at once, as a sequence of zero or one
/// answers.
pub open spec fn handle_reply_seq<T>(s: Seq<T>, m: Msg<T>) -> Seq<Reply<T>> {
    match handle_reply(s, m) {
        Some(r) => seq![r],
        None => Seq::<Reply<T>>::empty(),
    }
}

/// How many requests of a sequence are enqueues.
pub open spec fn count_puts<T>(ms: Seq<Msg<T>>) -> nat
    decreases ms.len(),
{
    if ms.len() == 0 {
        0
    } else {
        (if ms[0] is PutLeft || ms[0] is PutRight {
            1 as nat
        } else {
            0 as nat
        }) + count_puts(ms.drop_first())
    }
}

/// How many requests of a sequence are dequeues.
pub open spec fn count_gets<T>(ms: Seq<Msg<T>>) -> nat
    decreases ms.len(),
{
    if ms.len() == 0 {
        0
    } else {
        (if ms[0] is GetLeft || ms[0] is GetRight {
            1 as nat
        } else {
            0 as nat
        }) + count_gets(ms.drop_first())
    }
}

/// One whole session of the blocking worker: from list `s` and pending
/// queue `p`, drain, take one request, handle it, and repeat; stop at
/// the first `Terminate` (parked requests then stay unanswered), and
/// when the requests run out, drain once more before waiting.  Yields
/// the replies in the order they are sent, the final list, the final
/// pending queue, and whether the worker is still running.
pub open spec fn session<T>(s: Seq<T>, p: Seq<PendingRequest>, ms: Seq<Msg<T>>) -> (
    Seq<Reply<T>>,
    Seq<T>,
    Seq<PendingRequest>,
    bool,
)
    decreases ms.len(),
{
    let dr = drain_replies(s, p);
    let s1 = drain_list(s, p);
    let p1 = drain_pending(s, p);
    if ms.len() == 0 {
        (dr, s1, p1, true)
    } else if ms[0] is Terminate {
        (dr, s1, p1, false)
    } else {
        let rest = session(
            next_list(s1, ms[0]),
            handle_pending(s1, p1, ms[0]),
            ms.drop_first(),
        );
        (dr + handle_reply_seq(s1, ms[0]) + rest.0, rest.1, rest.2, rest.3)
    }
}

/// Law of termination for the blocking worker: every request placed
/// after a `Terminate` is dead — it produces no reply, no change of the
/// list, and no change of the pending queue; the requests still parked
/// when the worker stops remain unanswered.
pub proof fn lemma_session_stops_at_terminate<T>(
    s: Seq<T>,
    p: Seq<PendingRequest>,
    a: Seq<Msg<T>>,
    b: Seq<Msg<T>>,
)
    requires
        forall|i: int| 0 <= i < a.len() ==> !((#[trigger] a[i]) is Terminate),
    ensures
        session(s, p, a.push(Msg::Terminate) + b).0 == session(s, p, a.push(Msg::Terminate)).0,
        session(s, p, a.push(Msg::Terminate) + b).1 == session(s, p, a.push(Msg::Terminate)).1,
        session(s, p, a.push(Msg::Terminate) + b).2 == session(s, p, a.push(Msg::Terminate)).2,
        !session(s, p, a.push(Msg::Terminate) + b).3,
    decreases a.len(),
{
    let full = a.push(Msg::Terminate) + b;
    let cut = a.push(Msg::Terminate);
    if a.len() == 0 {
        assert(full[0] is Terminate);
        assert(cut[0] is Terminate);
    } else {
        let m = a[0];
        assert(full[0] == m);
        assert(cut[0] == m);
        assert(full.drop_first() =~= a.drop_first().push(Msg::Terminate) + b);
        assert(cut.drop_first() =~= a.drop_first().push(Msg::Terminate));
        let s1 = drain_list(s, p);
        let p1 = drain_pending(s, p);
        lemma_session_stops_at_terminate(next_list(s1, m), handle_pending(s1, p1, m), a.drop_first(), b);
        assert(session(s, p, full).0 =~= session(s, p, cut).0);
    }
}

/// Law of the blocking variant: over any interleaving of enqueues and
/// dequeues — in whatever order they reach the worker — every answer
/// sent carries a present element, and the number of answers is exactly
/// the lesser of elements available (those on hand plus those enqueued)
/// and dequeues outstanding (those parked plus those arriving).  With an
/// empty start, that is min of the enqueue and dequeue counts: no answer
/// is lost to timing, unlike polling.
pub proof fn lemma_blocking_min<T>(s: Seq<T>, p: Seq<PendingRequest>, ms: Seq<Msg<T>>)
    requires
        forall|i: int| 0 <= i < ms.len() ==> !((#[trigger] ms[i]) is Terminate),
    ensures
        session(s, p, ms).0.len() == vstd::math::min(
            s.len() + count_puts(ms) as int,
            p.len() + count_gets(ms) as int,
        ),
        forall|i: int|
            0 <= i < session(s, p, ms).0.len() ==> (#[trigger] session(s, p, ms).0[i]).value
                is Some,
        session(s, p, ms).3,
    decreases ms.len(),
{
    lemma_drain_fifo(s, p);
    let dr = drain_replies(s, p);
    let s1 = drain_list(s, p);
    let p1 = drain_pending(s, p);
    if ms.len() == 0 {
    } else {
        let m = ms[0];
        let s2 = next_list(s1, m);
        let p2 = handle_pending(s1, p1, m);
        lemma_blocking_min(s2, p2, ms.drop_first());
        let hr = handle_reply_seq(s1, m);
        let rest = session(s2, p2, ms.drop_first()).0;
        assert(session(s, p, ms).0 == dr + hr + rest);
        assert(session(s, p, ms).0.len() == dr.len() + hr.len() + rest.len());
        assert forall|i: int| 0 <= i < session(s, p, ms).0.len() implies (#[trigger] session(
            s,
            p,
            ms,
        ).0[i]).value is Some by {
            if i < dr.len() {
                assert(session(s, p, ms).0[i] == dr[i]);
            } else if i < dr.len() + hr.len() {
                assert(session(s, p, ms).0[i] == hr[i - dr.len()]);
            } else {
                assert(session(s, p, ms).0[i] == rest[i - dr.len() - hr.len()]);
            }
        }
    }
}

} // verus!
