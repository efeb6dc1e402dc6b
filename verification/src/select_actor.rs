//! The prioritized-wait variant: requests arrive on two streams — reads
//! (`GETs`) and writes (`PUTs`) — and a guard admits reads only while
//! the list is non-empty, so a read handled here always carries an
//! element.  The runtime around the worker waits on the write stream
//! alone while the guard is down, and on both streams while it is up;
//! which stream is served when both are ready is left to the wait
//! primitive and is deliberately non-deterministic.

use vstd::prelude::*;

use crate::GETs;
use crate::PUTs;
use crate::Reply;
use crate::ReplyToken;

verus! {

/// How one read transforms a non-empty list: the matching end loses one
/// element.
pub open spec fn get_list<T>(s: Seq<T>, g: GETs) -> Seq<T>
    recommends
        s.len() > 0,
{
    match g {
        GETs::GetLeft(_) => s.drop_first(),
        GETs::GetRight(_) => s.drop_last(),
    }
}

/// The answer one read receives from a non-empty list: always a present
/// element, taken from the matching end.
pub open spec fn get_reply<T>(s: Seq<T>, g: GETs) -> Reply<T>
    recommends
        s.len() > 0,
{
    match g {
        GETs::GetLeft(t) => Reply { token: t, value: Some(s[0]) },
        GETs::GetRight(t) => Reply { token: t, value: Some(s.last()) },
    }
}

/// How one write transforms the list: an enqueue inserts at the matching
/// end, termination leaves the list alone.
pub open spec fn put_list<T>(s: Seq<T>, p: PUTs<T>) -> Seq<T> {
    match p {
        PUTs::PutLeft(v) => s.insert(0, v),
        PUTs::PutRight(v) => s.push(v),
        PUTs::Terminate => s,
    }
}

/// The reply token a read request carries.
pub open spec fn get_token(g: GETs) -> ReplyToken {
    match g {
        GETs::GetLeft(t) => t,
        GETs::GetRight(t) => t,
    }
}

/// One whole session of the prioritized-wait worker: list `s`, the read
/// stream `rq`, the write stream `wq`.  While the list is empty only the
/// write stream is watched; while it is non-empty both are, and which of
/// two ready streams the wait primitive hands over first is not
/// specified — the choices are a parameter: each wait with the guard up
/// consults the next element of `picks` (true takes the read, false a
/// ready write; with no write ready the read is taken either way), and
/// past the end of `picks` reads are taken first.  The session stops at
/// a `Terminate` taken from the write stream, and ends with the worker
/// still running once it would block: nothing ready that it is watching.
pub open spec fn select_session<T>(
    s: Seq<T>,
    rq: Seq<GETs>,
    wq: Seq<PUTs<T>>,
    picks: Seq<bool>,
) -> (Seq<Reply<T>>, Seq<T>, bool)
    decreases rq.len() + wq.len(),
{
    if s.len() == 0 || rq.len() == 0 {
        // the guard is down, or no read is waiting: only writes move
        if wq.len() == 0 {
            (Seq::<Reply<T>>::empty(), s, true)
        } else if wq[0] is Terminate {
            (Seq::<Reply<T>>::empty(), s, false)
        } else {
            select_session(put_list(s, wq[0]), rq, wq.drop_first(), picks)
        }
    } else {
        let read_first = picks.len() == 0 || picks[0];
        let picks1 = if picks.len() == 0 {
            picks
        } else {
            picks.drop_first()
        };
        if wq.len() == 0 || read_first {
            let rest = select_session(get_list(s, rq[0]), rq.drop_first(), wq, picks1);
            (seq![get_reply(s, rq[0])] + rest.0, rest.1, rest.2)
        } else if wq[0] is Terminate {
            (Seq::<Reply<T>>::empty(), s, false)
        } else {
            select_session(put_list(s, wq[0]), rq, wq.drop_first(), picks1)
        }
    }
}

/// Law of the read stream: whatever the tie-breaks, the reads that are
/// answered are exactly a prefix of the read stream, answered strictly
/// in arrival order, and every answer carries a present element — a read
/// is simply not observed until the list can satisfy it.
pub proof fn lemma_select_reads_fifo<T>(
    s: Seq<T>,
    rq: Seq<GETs>,
    wq: Seq<PUTs<T>>,
    picks: Seq<bool>,
)
    ensures
        select_session(s, rq, wq, picks).0.len() <= rq.len(),
        forall|i: int|
            0 <= i < select_session(s, rq, wq, picks).0.len() ==> (#[trigger] select_session(
                s,
                rq,
                wq,
                picks,
            ).0[i]).token == get_token(rq[i]),
        forall|i: int|
            0 <= i < select_session(s, rq, wq, picks).0.len() ==> (#[trigger] select_session(
                s,
                rq,
                wq,
                picks,
            ).0[i]).value is Some,
    decreases rq.len() + wq.len(),
{
    if s.len() == 0 || rq.len() == 0 {
        if wq.len() == 0 || wq[0] is Terminate {
        } else {
            lemma_select_reads_fifo(put_list(s, wq[0]), rq, wq.drop_first(), picks);
        }
    } else {
        let read_first = picks.len() == 0 || picks[0];
        let picks1 = if picks.len() == 0 {
            picks
        } else {
            picks.drop_first()
        };
        if wq.len() == 0 || read_first {
            lemma_select_reads_fifo(get_list(s, rq[0]), rq.drop_first(), wq, picks1);
            let head = seq![get_reply(s, rq[0])];
            let rest = select_session(get_list(s, rq[0]), rq.drop_first(), wq, picks1).0;
            assert(select_session(s, rq, wq, picks).0 == head + rest);
            assert forall|i: int| 0 <= i < select_session(s, rq, wq, picks).0.len() implies (
            #[trigger] select_session(s, rq, wq, picks).0[i]).token == get_token(rq[i])
                && select_session(s, rq, wq, picks).0[i].value is Some by {
                if i == 0 {
                    assert(select_session(s, rq, wq, picks).0[0] == head[0]);
                } else {
                    assert(select_session(s, rq, wq, picks).0[i] == rest[i - 1]);
                    assert(rq.drop_first()[i - 1] == rq[i]);
                }
            }
        } else if wq[0] is Terminate {
        } else {
            lemma_select_reads_fifo(put_list(s, wq[0]), rq, wq.drop_first(), picks1);
        }
    }
}

/// The state owned by the prioritized-wait worker: the list and whether
/// the worker is still running.  No pending queue is needed — unread
/// requests simply stay in their stream until the guard admits them.
pub struct SelectActor<T> {
    list: Vec<T>,
    live: bool,
}

impl<T> View for SelectActor<T> {
    type V = Seq<T>;

    closed spec fn view(&self) -> Seq<T> {
        self.list@
    }
}

impl<T> SelectActor<T> {
    /// True until the worker has processed `Terminate`; callers must not
    /// hand requests to a worker that has stopped.
    pub closed spec fn running(self) -> bool {
        self.live
    }

    /// A fresh worker: empty list, ready for requests.
    pub fn new() -> (a: Self)
        ensures
            a@ == Seq::<T>::empty(),
            a.running(),
    {
        SelectActor { list: Vec::new(), live: true }
    }

    /// Whether the worker still processes requests; the loop that feeds
    /// it must stop once this is false.
    pub fn is_running(&self) -> (b: bool)
        ensures
            b == self.running(),
    {
        self.live
    }

    /// The guard: the worker offers to serve the read stream exactly
    /// while the list is non-empty.  The runtime re-evaluates it before
    /// every wait, so a read sent against an empty list is not observed
    /// until a write has made the list non-empty.
    pub fn wants_reads(&self) -> (b: bool)
        ensures
            b == (self@.len() > 0),
    {
        self.list.len() > 0
    }

    /// Serve one read, admitted by the guard: the matching end loses one
    /// element and the reply always carries it.
    pub fn handle_get(&mut self, g: GETs) -> (r: Reply<T>)
        requires
            old(self).running(),
            old(self)@.len() > 0,
        ensures
            final(self)@ == get_list(old(self)@, g),
            r == get_reply(old(self)@, g),
            r.value is Some,
            final(self).running(),
    {
        match g {
            GETs::GetLeft(t) => {
                let v = self.list.remove(0);
                proof {
                    assert(self.list@ =~= old(self)@.drop_first());
                }
                Reply { token: t, value: Some(v) }
            },
            GETs::GetRight(t) => {
                let v = self.list.pop().unwrap();
                proof {
                    assert(self.list@ =~= old(self)@.drop_last());
                }
                Reply { token: t, value: Some(v) }
            },
        }
    }

    /// Serve one write: enqueues mutate the list, `Terminate` stops the
    /// worker without touching the list.
    pub fn handle_put(&mut self, p: PUTs<T>)
        requires
            old(self).running(),
        ensures
            final(self)@ == put_list(old(self)@, p),
            final(self).running() == !(p is Terminate),
    {
        match p {
            PUTs::PutLeft(v) => {
                self.list.insert(0, v);
            },
            PUTs::PutRight(v) => {
                self.list.push(v);
            },
            PUTs::Terminate => {
                self.live = false;
            },
        }
    }

    /// Run one whole session over a read stream, a write stream and a
    /// sequence of tie-breaks, exactly as `select_session` lays it out,
    /// and return every reply sent, in order.  The session ends at a
    /// `Terminate` or where the worker would block.
    pub fn run_session(&mut self, rq: Vec<GETs>, wq: Vec<PUTs<T>>, picks: Vec<bool>) -> (rs: Vec<
        Reply<T>,
    >)
        requires
            old(self).running(),
        ensures
            rs@ == select_session(old(self)@, rq@, wq@, picks@).0,
            final(self)@ == select_session(old(self)@, rq@, wq@, picks@).1,
            final(self).running() == select_session(old(self)@, rq@, wq@, picks@).2,
    {
        let ghost s0 = self@;
        let ghost rq0 = rq@;
        let ghost wq0 = wq@;
        let ghost picks0 = picks@;
        let mut rq = rq;
        let mut wq = wq;
        let mut picks = picks;
        let mut rs: Vec<Reply<T>> = Vec::new();
        let mut blocked = false;
        while self.live && !blocked
            invariant
                self.live && !blocked ==> select_session(s0, rq0, wq0, picks0).0 == rs@
                    + select_session(self@, rq@, wq@, picks@).0,
                self.live && !blocked ==> select_session(s0, rq0, wq0, picks0).1 == select_session(
                    self@,
                    rq@,
                    wq@,
                    picks@,
                ).1,
                self.live && !blocked ==> select_session(s0, rq0, wq0, picks0).2 == select_session(
                    self@,
                    rq@,
                    wq@,
                    picks@,
                ).2,
                self.live && blocked ==> select_session(s0, rq0, wq0, picks0).0 == rs@,
                self.live && blocked ==> select_session(s0, rq0, wq0, picks0).1 == self@,
                self.live && blocked ==> select_session(s0, rq0, wq0, picks0).2,
                !self.live ==> select_session(s0, rq0, wq0, picks0).0 == rs@,
                !self.live ==> select_session(s0, rq0, wq0, picks0).1 == self@,
                !self.live ==> !select_session(s0, rq0, wq0, picks0).2,
            decreases rq.len() + wq.len() + (if blocked {
                0int
            } else {
                1
            }),
        {
            let ghost rq_here = rq@;
            let ghost wq_here = wq@;
            let ghost picks_here = picks@;
            if self.list.len() == 0 || rq.len() == 0 {
                if wq.len() == 0 {
                    blocked = true;
                } else {
                    let w = wq.remove(0);
                    proof {
                        assert(wq@ =~= wq_here.drop_first());
                    }
                    match w {
                        PUTs::Terminate => {
                            self.handle_put(PUTs::Terminate);
                        },
                        other => {
                            self.handle_put(other);
                        },
                    }
                }
            } else {
                let read_first = if picks.len() == 0 {
                    true
                } else {
                    let p = picks.remove(0);
                    proof {
                        assert(picks@ =~= picks_here.drop_first());
                    }
                    p
                };
                if wq.len() == 0 || read_first {
                    let g = rq.remove(0);
                    proof {
                        assert(rq@ =~= rq_here.drop_first());
                    }
                    let r = self.handle_get(g);
                    rs.push(r);
                    proof {
                        assert(rs@ + select_session(self@, rq@, wq@, picks@).0 =~= select_session(
                            s0,
                            rq0,
                            wq0,
                            picks0,
                        ).0);
                    }
                } else {
                    let w = wq.remove(0);
                    proof {
                        assert(wq@ =~= wq_here.drop_first());
                    }
                    match w {
                        PUTs::Terminate => {
                            self.handle_put(PUTs::Terminate);
                        },
                        other => {
                            self.handle_put(other);
                        },
                    }
                }
            }
        }
        rs
    }
}

} // verus!
